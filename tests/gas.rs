use pwasm_utils::elements::{
    BlockType, ExportEntry, FuncBody, FunctionType, GlobalEntry, GlobalType, ImportEntry, Instruction,
    Internal, External, ElementSegment, Module, ValueType, I32_MUL,
};
use pwasm_utils::gas::inject_gas_counter;
use pwasm_utils::rules::{InstructionType, Metering, RuleSet};

use Instruction::{Block, Call, Drop, Else, End, F32Const, GetGlobal, GetLocal, GrowMemory, I32Const, If, Loop, Numeric};

fn empty_module() -> Module {
    Module {
        types: vec![],
        imports: vec![],
        functions: vec![],
        tables: vec![],
        memories: vec![],
        globals: vec![],
        exports: vec![],
        start: None,
        elements: vec![],
        code: vec![],
        data: vec![],
    }
}

/// A module with one `i32` global and one function `[i32] -> []` per body.
fn module_with_bodies(bodies: Vec<Vec<Instruction>>) -> Module {
    let mut m = empty_module();
    m.globals.push(GlobalEntry {
        global_type: GlobalType { content_type: ValueType::I32, is_mutable: false },
        init_expr: vec![I32Const(0), End],
    });
    for body in bodies {
        m.types.push(FunctionType { params: vec![ValueType::I32], return_type: None });
        m.functions.push((m.types.len() - 1) as u32);
        m.code.push(FuncBody { locals: vec![], code: body });
    }
    m
}

fn get_function_body(module: &Module, index: usize) -> Option<&[Instruction]> {
    module.code.get(index).map(|b| &b.code[..])
}

#[test]
fn simple_grow() {
    let module = module_with_bodies(vec![vec![GetGlobal(0), GrowMemory(0), End]]);
    let injected_module =
        inject_gas_counter(module, &RuleSet::default().with_grow_cost(10000)).unwrap();
    assert_eq!(
        get_function_body(&injected_module, 0).unwrap(),
        &vec![I32Const(3), Call(0), GetGlobal(0), Call(2), End][..]
    );
    assert_eq!(
        get_function_body(&injected_module, 1).unwrap(),
        &vec![
            GetLocal(0),
            GetLocal(0),
            I32Const(10000),
            Numeric(I32_MUL),
            Call(0),
            GrowMemory(0),
            End,
        ][..]
    );
}

#[test]
fn grow_no_gas_no_track() {
    let module = module_with_bodies(vec![vec![GetGlobal(0), GrowMemory(0), End]]);
    let injected_module = inject_gas_counter(module, &RuleSet::default()).unwrap();
    assert_eq!(
        get_function_body(&injected_module, 0).unwrap(),
        &vec![I32Const(3), Call(0), GetGlobal(0), GrowMemory(0), End][..]
    );
    let functions_space = injected_module
        .imports
        .iter()
        .filter(|e| matches!(e.external, External::Function(_)))
        .count()
        + injected_module.functions.len();
    assert_eq!(functions_space, 2);
}

#[test]
fn simple() {
    let module = module_with_bodies(vec![vec![GetGlobal(0), End]]);
    let injected_module = inject_gas_counter(module, &RuleSet::default()).unwrap();
    assert_eq!(
        get_function_body(&injected_module, 0).unwrap(),
        &vec![I32Const(2), Call(0), GetGlobal(0), End][..]
    );
}

#[test]
fn nested() {
    let module = module_with_bodies(vec![vec![
        GetGlobal(0),
        Block(BlockType::NoResult),
        GetGlobal(0),
        GetGlobal(0),
        GetGlobal(0),
        End,
        GetGlobal(0),
        End,
    ]]);
    let injected_module = inject_gas_counter(module, &RuleSet::default()).unwrap();
    assert_eq!(
        get_function_body(&injected_module, 0).unwrap(),
        &vec![
            I32Const(4),
            Call(0),
            GetGlobal(0),
            Block(BlockType::NoResult),
            I32Const(4),
            Call(0),
            GetGlobal(0),
            GetGlobal(0),
            GetGlobal(0),
            End,
            GetGlobal(0),
            End,
        ][..]
    );
}

#[test]
fn ifelse() {
    let module = module_with_bodies(vec![vec![
        GetGlobal(0),
        If(BlockType::NoResult),
        GetGlobal(0),
        GetGlobal(0),
        GetGlobal(0),
        Else,
        GetGlobal(0),
        GetGlobal(0),
        End,
        GetGlobal(0),
        End,
    ]]);
    let injected_module = inject_gas_counter(module, &RuleSet::default()).unwrap();
    assert_eq!(
        get_function_body(&injected_module, 0).unwrap(),
        &vec![
            I32Const(4),
            Call(0),
            GetGlobal(0),
            If(BlockType::NoResult),
            I32Const(4),
            Call(0),
            GetGlobal(0),
            GetGlobal(0),
            GetGlobal(0),
            Else,
            I32Const(3),
            Call(0),
            GetGlobal(0),
            GetGlobal(0),
            End,
            GetGlobal(0),
            End,
        ][..]
    );
}

#[test]
fn call_index() {
    let module = module_with_bodies(vec![
        vec![End],
        vec![
            Call(0),
            If(BlockType::NoResult),
            Call(0),
            Call(0),
            Call(0),
            Else,
            Call(0),
            Call(0),
            End,
            Call(0),
            End,
        ],
    ]);
    let injected_module = inject_gas_counter(module, &RuleSet::default()).unwrap();
    assert_eq!(
        get_function_body(&injected_module, 1).unwrap(),
        &vec![
            I32Const(4),
            Call(0),
            Call(1),
            If(BlockType::NoResult),
            I32Const(4),
            Call(0),
            Call(1),
            Call(1),
            Call(1),
            Else,
            I32Const(3),
            Call(0),
            Call(1),
            Call(1),
            End,
            Call(1),
            End,
        ][..]
    );
}

#[test]
fn forbidden() {
    let module = module_with_bodies(vec![vec![F32Const(555555), End]]);
    let rules = RuleSet::default().with_forbidden_floats();
    if let Err(_) = inject_gas_counter(module, &rules) {
    } else {
        panic!("Should be error because of the forbidden operation")
    }
}

#[test]
fn forbidden_returns_module_unchanged() {
    let module = module_with_bodies(vec![vec![GetGlobal(0), F32Const(1), End]]);
    let rules = RuleSet::default().with_forbidden_floats();
    let expected = module.clone();
    assert_eq!(inject_gas_counter(module, &rules), Err(expected));
}

#[test]
fn forbidden_in_nested_block() {
    let module = module_with_bodies(vec![vec![
        Block(BlockType::NoResult),
        Loop(BlockType::NoResult),
        Numeric(0x92),
        End,
        End,
        End,
    ]]);
    let rules = RuleSet::new(1, vec![(InstructionType::Float, Metering::Forbidden)]);
    assert!(inject_gas_counter(module, &rules).is_err());
}

#[test]
fn unbalanced_body_fails() {
    let module = module_with_bodies(vec![vec![End, End]]);
    assert!(inject_gas_counter(module, &RuleSet::default()).is_err());
}

#[test]
fn fixed_costs_are_summed() {
    let module = module_with_bodies(vec![vec![GetGlobal(0), I32Const(1), Numeric(0x6a), Drop, End]]);
    let rules = RuleSet::new(
        1,
        vec![
            (InstructionType::Local, Metering::Fixed(5)),
            (InstructionType::Add, Metering::Fixed(7)),
            (InstructionType::Local, Metering::Fixed(10)),
        ],
    );
    let injected = inject_gas_counter(module, &rules).unwrap();
    // 1 for the block, 10 for get_global, 1 for the const, 7 for the add, 1 for drop.
    assert_eq!(injected.code[0].code[0], I32Const(20));
}

#[test]
fn imports_exports_and_elements_are_shifted() {
    let mut module = module_with_bodies(vec![vec![End], vec![Call(1), End]]);
    module.types.push(FunctionType { params: vec![], return_type: None });
    module.imports.push(ImportEntry {
        module: "env".to_string(),
        field: "f".to_string(),
        external: External::Function(2),
    });
    module.code[1].code = vec![Call(0), Call(2), End];
    module.exports.push(ExportEntry { field: "e".to_string(), internal: Internal::Function(2) });
    module.elements.push(ElementSegment { index: 0, offset: vec![I32Const(0), End], members: vec![0, 1, 2] });
    module.start = Some(1);
    let injected = inject_gas_counter(module, &RuleSet::default()).unwrap();
    assert_eq!(injected.imports.len(), 2);
    assert_eq!(injected.imports[1].module, "env");
    assert_eq!(injected.imports[1].field, "gas");
    assert_eq!(injected.imports[1].external, External::Function(3));
    assert_eq!(injected.types[3], FunctionType { params: vec![ValueType::I32], return_type: None });
    assert_eq!(injected.code[1].code, vec![I32Const(3), Call(1), Call(0), Call(3), End]);
    assert_eq!(injected.exports[0].internal, Internal::Function(3));
    assert_eq!(injected.elements[0].members, vec![0, 2, 3]);
    assert_eq!(injected.start, Some(2));
}

#[test]
fn forbidden_end_fails() {
    let module = module_with_bodies(vec![vec![End]]);
    let rules = RuleSet::new(1, vec![(InstructionType::ControlFlow, Metering::Forbidden)]);
    let expected = module.clone();
    assert_eq!(inject_gas_counter(module, &rules), Err(expected));
}
