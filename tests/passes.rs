use pwasm_utils::elements::{
    BlockType, DataSegment, ElementSegment, ExportEntry, External, FuncBody, FunctionType,
    GlobalEntry, GlobalType, ImportEntry, Instruction, Internal, Limits, Module, ValueType,
    I32_ADD, I32_GT_U, I32_SUB,
};
use pwasm_utils::ext::{
    externalize, externalize_mem, inject_runtime_type, shrink_unknown_stack, underscore_funcs,
    ununderscore_funcs,
};
use pwasm_utils::optimizer::optimize;
use pwasm_utils::pack::{pack_instance, Error as PackingError};
use pwasm_utils::stack_height::inject_limiter;
use pwasm_utils::TargetRuntime;

use Instruction::{Call, Drop, End, GetGlobal, GetLocal, I32Const, If, Numeric, SetGlobal, Unreachable};

fn empty_module() -> Module {
    Module {
        types: vec![],
        imports: vec![],
        functions: vec![],
        tables: vec![],
        memories: vec![],
        globals: vec![],
        exports: vec![],
        start: None,
        elements: vec![],
        code: vec![],
        data: vec![],
    }
}

fn add_function(m: &mut Module, params: Vec<ValueType>, ret: Option<ValueType>, locals: Vec<ValueType>, code: Vec<Instruction>) {
    m.types.push(FunctionType { params, return_type: ret });
    m.functions.push((m.types.len() - 1) as u32);
    m.code.push(FuncBody { locals, code });
}

fn export(m: &mut Module, name: &str, internal: Internal) {
    m.exports.push(ExportEntry { field: name.to_string(), internal });
}

fn global(m: &mut Module, init: i32) {
    m.globals.push(GlobalEntry {
        global_type: GlobalType { content_type: ValueType::I32, is_mutable: false },
        init_expr: vec![I32Const(init), End],
    });
}

fn instrumented_call(callee: u32, cost: i32, h: u32, limit: i32) -> Vec<Instruction> {
    vec![
        GetGlobal(h),
        I32Const(cost),
        Numeric(I32_ADD),
        SetGlobal(h),
        GetGlobal(h),
        I32Const(limit),
        Numeric(I32_GT_U),
        If(BlockType::NoResult),
        Unreachable,
        End,
        Call(callee),
        GetGlobal(h),
        I32Const(cost),
        Numeric(I32_SUB),
        SetGlobal(h),
    ]
}

#[test]
fn empty() {
    let mut module = empty_module();
    let result = optimize(&mut module, vec!["_call".to_string()]);
    assert!(result.is_err());
}

#[test]
fn optimizer_keeps_only_what_call_reaches() {
    let mut m = empty_module();
    global(&mut m, 1);
    global(&mut m, 2);
    // 0: _call, calls 1 and reads global 0
    add_function(&mut m, vec![], None, vec![], vec![Call(1), GetGlobal(0), Drop, End]);
    // 1: reached from 0
    add_function(&mut m, vec![ValueType::I64], None, vec![], vec![End]);
    // 2: _unused, calls 3 and reads global 1
    add_function(&mut m, vec![ValueType::F32], None, vec![], vec![Call(3), GetGlobal(1), Drop, End]);
    // 3: reached from 2 only
    add_function(&mut m, vec![ValueType::F64], None, vec![], vec![End]);
    export(&mut m, "_call", Internal::Function(0));
    export(&mut m, "_unused", Internal::Function(2));

    optimize(&mut m, vec!["_call".to_string()]).unwrap();

    assert_eq!(m.functions.len(), 2);
    assert_eq!(m.code.len(), 2);
    assert_eq!(m.globals.len(), 1);
    assert_eq!(m.globals[0].init_expr, vec![I32Const(1), End]);
    assert_eq!(m.types.len(), 2);
    assert_eq!(m.types[1].params, vec![ValueType::I64]);
    assert_eq!(m.functions, vec![0, 1]);
    assert_eq!(m.exports.len(), 1);
    assert_eq!(m.exports[0].field, "_call");
    assert_eq!(m.exports[0].internal, Internal::Function(0));
    assert_eq!(m.code[0].code, vec![Call(1), GetGlobal(0), Drop, End]);
}

#[test]
fn optimizer_renumbers_after_removed_entries() {
    let mut m = empty_module();
    m.imports.push(ImportEntry { module: "env".into(), field: "unused".into(), external: External::Function(0) });
    m.imports.push(ImportEntry { module: "env".into(), field: "memory".into(), external: External::Memory(Limits { initial: 1, maximum: None }) });
    m.imports.push(ImportEntry { module: "env".into(), field: "used".into(), external: External::Function(0) });
    m.types.push(FunctionType { params: vec![], return_type: None });
    global(&mut m, 5);
    global(&mut m, 6);
    // function 2 in the combined space: never referenced
    add_function(&mut m, vec![], None, vec![], vec![End]);
    // function 3: exported, calls import 1 and sets global 1
    add_function(&mut m, vec![], None, vec![], vec![Call(1), I32Const(0), SetGlobal(1), End]);
    export(&mut m, "run", Internal::Function(3));

    optimize(&mut m, vec!["run".to_string()]).unwrap();

    assert_eq!(m.imports.len(), 2);
    assert_eq!(m.imports[0].field, "memory");
    assert_eq!(m.imports[1].field, "used");
    assert_eq!(m.imports[1].external, External::Function(0));
    assert_eq!(m.types.len(), 2);
    assert_eq!(m.functions, vec![1]);
    assert_eq!(m.globals.len(), 1);
    assert_eq!(m.globals[0].init_expr, vec![I32Const(6), End]);
    assert_eq!(m.code.len(), 1);
    assert_eq!(m.code[0].code, vec![Call(0), I32Const(0), SetGlobal(0), End]);
    assert_eq!(m.exports[0].internal, Internal::Function(1));
}

#[test]
fn optimizer_keeps_table_functions() {
    let mut m = empty_module();
    add_function(&mut m, vec![], None, vec![], vec![End]);
    add_function(&mut m, vec![], None, vec![], vec![End]);
    add_function(&mut m, vec![], None, vec![], vec![End]);
    m.elements.push(ElementSegment { index: 0, offset: vec![I32Const(0), End], members: vec![2] });
    export(&mut m, "a", Internal::Function(0));
    optimize(&mut m, vec!["a".to_string()]).unwrap();
    assert_eq!(m.code.len(), 2);
    assert_eq!(m.elements[0].members, vec![1]);
    assert_eq!(m.exports[0].internal, Internal::Function(0));
}

#[test]
fn limiter_wraps_exported_function_in_thunk() {
    let mut m = empty_module();
    add_function(&mut m, vec![], None, vec![ValueType::I32], vec![GetLocal(0), GetLocal(0), Drop, Drop, End]);
    export(&mut m, "f", Internal::Function(0));
    let m = inject_limiter(m, 1024).unwrap();
    assert_eq!(m.globals.len(), 1);
    assert_eq!(m.globals[0].global_type, GlobalType { content_type: ValueType::I32, is_mutable: true });
    assert_eq!(m.globals[0].init_expr, vec![I32Const(0), End]);
    assert_eq!(m.exports[0].internal, Internal::Function(1));
    let mut expected = instrumented_call(0, 3, 0, 1024);
    expected.push(End);
    assert_eq!(m.code[1].code, expected);
    assert_eq!(m.functions[1], m.functions[0]);
}

#[test]
fn test_with_params_and_result() {
    let mut m = empty_module();
    add_function(
        &mut m,
        vec![ValueType::I32, ValueType::I32],
        Some(ValueType::I32),
        vec![],
        vec![GetLocal(0), GetLocal(1), Numeric(I32_ADD), End],
    );
    export(&mut m, "i32.add", Internal::Function(0));
    let m = inject_limiter(m, 1024).expect("Failed to inject stack counter");
    let mut expected = vec![GetLocal(0), GetLocal(1)];
    expected.extend(instrumented_call(0, 2, 0, 1024));
    expected.push(End);
    assert_eq!(m.code[1].code, expected);
    assert_eq!(m.exports[0].internal, Internal::Function(1));
}

#[test]
fn limiter_instruments_calls_and_skips_zero_cost() {
    let mut m = empty_module();
    global(&mut m, 0);
    m.imports.push(ImportEntry { module: "env".into(), field: "host".into(), external: External::Function(0) });
    m.types.push(FunctionType { params: vec![], return_type: None });
    // function 1: no locals, empty stack: cost 0
    add_function(&mut m, vec![], None, vec![], vec![End]);
    // function 2: one local, stack 1: cost 2
    add_function(&mut m, vec![], None, vec![ValueType::I64], vec![I32Const(1), Drop, End]);
    // function 3 calls all three
    add_function(&mut m, vec![], None, vec![], vec![Call(0), Call(1), Call(2), End]);
    let m = inject_limiter(m, 100).unwrap();
    let mut expected = vec![Call(0), Call(1)];
    expected.extend(instrumented_call(2, 2, 1, 100));
    expected.push(End);
    assert_eq!(m.code[2].code, expected);
    assert_eq!(m.code.len(), 3);
}

#[test]
fn limiter_rejects_stack_underflow() {
    let mut m = empty_module();
    add_function(&mut m, vec![], None, vec![], vec![Drop, End]);
    assert!(inject_limiter(m, 10).is_err());
}

#[test]
fn limiter_thunks_table_entries_once() {
    let mut m = empty_module();
    add_function(&mut m, vec![ValueType::I32], None, vec![], vec![GetLocal(0), Drop, End]);
    export(&mut m, "f", Internal::Function(0));
    m.elements.push(ElementSegment { index: 0, offset: vec![I32Const(0), End], members: vec![0, 0] });
    let m = inject_limiter(m, 50).unwrap();
    assert_eq!(m.code.len(), 2);
    assert_eq!(m.elements[0].members, vec![1, 1]);
    assert_eq!(m.exports[0].internal, Internal::Function(1));
}

fn packer_module(with_data: bool) -> Module {
    let mut m = empty_module();
    m.imports.push(ImportEntry {
        module: "env".into(),
        field: "memory".into(),
        external: External::Memory(Limits { initial: 1, maximum: Some(1) }),
    });
    if with_data {
        m.data.push(DataSegment { index: 0, offset: vec![I32Const(16), End], value: vec![0u8] });
    }
    add_function(&mut m, vec![ValueType::I32, ValueType::I32], None, vec![], vec![End]);
    add_function(&mut m, vec![], None, vec![], vec![End]);
    add_function(&mut m, vec![], None, vec![], vec![End]);
    export(&mut m, "call", Internal::Function(1));
    export(&mut m, "deploy", Internal::Function(2));
    m
}

fn test_packer(mut module: Module) -> Module {
    let mut ctor_module = module.clone();
    optimize(&mut module, vec!["call".to_string()]).expect("Optimizer to finish without errors");
    optimize(&mut ctor_module, vec!["deploy".to_string()]).expect("Optimizer to finish without errors");
    let raw_module = vec![0u8, 0x61, 0x73, 0x6d, 1, 0, 0, 0, 42];
    let ctor_module = pack_instance(raw_module.clone(), ctor_module, &TargetRuntime::pwasm()).expect("Packing failed");
    let data_segment = ctor_module.data.last().expect("Packed module has to have a data section with at least one entry");
    assert!(data_segment.value == raw_module, "Last data segment should be equal to the raw module");
    ctor_module
}

#[test]
fn no_data_section() {
    let packed = test_packer(packer_module(false));
    assert_eq!(packed.data.last().unwrap().offset, vec![I32Const(0), End]);
    let call = packed.exports.iter().find(|e| e.field == "call").unwrap();
    assert_eq!(call.internal, Internal::Function(2));
    assert_eq!(packed.imports[1].field, "ret");
    assert_eq!(packed.code[1].code, vec![Call(1), I32Const(0), I32Const(9), Call(0), End]);
}

#[test]
fn with_data_section() {
    let packed = test_packer(packer_module(true));
    assert_eq!(packed.data.last().unwrap().offset, vec![I32Const(20), End]);
}

#[test]
fn pack_rejects_missing_or_bad_constructor() {
    let mut m = packer_module(false);
    m.exports.retain(|e| e.field != "deploy");
    assert_eq!(pack_instance(vec![1], m, &TargetRuntime::pwasm()).err(), Some(PackingError::NoCreateSymbol));

    let m = empty_module();
    assert_eq!(pack_instance(vec![1], m, &TargetRuntime::pwasm()).err(), Some(PackingError::NoExportSection));

    let mut m = packer_module(false);
    m.exports[1].internal = Internal::Function(0);
    assert_eq!(pack_instance(vec![1], m, &TargetRuntime::pwasm()).err(), Some(PackingError::InvalidCreateSignature));

    let mut m = packer_module(false);
    m.exports[1].internal = Internal::Global(0);
    assert_eq!(pack_instance(vec![1], m, &TargetRuntime::pwasm()).err(), Some(PackingError::InvalidCreateMember));

    let mut m = packer_module(false);
    m.exports[1].internal = Internal::Function(7);
    assert_eq!(pack_instance(vec![1], m, &TargetRuntime::pwasm()).err(), Some(PackingError::MalformedModule));
}

#[test]
fn pack_uses_existing_ret_import() {
    let mut m = packer_module(false);
    m.types.push(FunctionType { params: vec![ValueType::I32, ValueType::I32], return_type: None });
    m.imports.push(ImportEntry { module: "env".into(), field: "ext_return".into(), external: External::Function(3) });
    for e in m.exports.iter_mut() {
        if let Internal::Function(x) = e.internal {
            e.internal = Internal::Function(x + 1);
        }
    }
    m.data.push(DataSegment { index: 0, offset: vec![I32Const(8), End], value: vec![1, 2, 3, 4] });
    let packed = pack_instance(vec![5; 3], m, &TargetRuntime::substrate()).unwrap();
    assert_eq!(packed.imports.len(), 2);
    assert_eq!(packed.data.last().unwrap().offset, vec![I32Const(12), End]);
    assert_eq!(packed.code[3].code, vec![Call(3), I32Const(12), I32Const(3), Call(0), End]);
    assert_eq!(packed.exports[0].internal, Internal::Function(2));
    assert_eq!(packed.exports[1].field, "call");
    assert_eq!(packed.exports[1].internal, Internal::Function(4));
}

#[test]
fn it_injects() {
    let mut module = empty_module();
    module.globals.push(GlobalEntry {
        global_type: GlobalType { content_type: ValueType::I32, is_mutable: false },
        init_expr: vec![I32Const(42)],
    });
    let mut runtime_type: [u8; 4] = Default::default();
    runtime_type.copy_from_slice(b"emcc");
    module = inject_runtime_type(module, runtime_type, 1);
    assert_eq!(3, module.globals.len());
    assert!(module.exports.iter().find(|e| e.field == "RUNTIME_TYPE").is_some());
    assert!(module.exports.iter().find(|e| e.field == "RUNTIME_VERSION").is_some());
    assert_eq!(module.globals[1].init_expr, vec![I32Const(0x6363_6d65), End]);
    assert_eq!(module.globals[2].init_expr, vec![I32Const(1), End]);
    assert_eq!(module.exports[0].internal, Internal::Global(1));
    assert_eq!(module.exports[1].internal, Internal::Global(2));
}

#[test]
fn memory_becomes_import() {
    let mut m = empty_module();
    m.memories.push(Limits { initial: 2, maximum: None });
    let r = externalize_mem(m.clone(), None, 16);
    assert!(r.memories.is_empty());
    assert_eq!(r.imports.len(), 1);
    assert_eq!(r.imports[0].module, "env");
    assert_eq!(r.imports[0].field, "memory");
    assert_eq!(r.imports[0].external, External::Memory(Limits { initial: 2, maximum: Some(16) }));
    let r = externalize_mem(m, Some(4), 16);
    assert_eq!(r.imports[0].external, External::Memory(Limits { initial: 4, maximum: Some(16) }));
}

#[test]
fn underscores_added_and_removed() {
    let mut m = empty_module();
    m.imports.push(ImportEntry { module: "env".into(), field: "foo".into(), external: External::Function(0) });
    m.imports.push(ImportEntry { module: "env".into(), field: "memory".into(), external: External::Memory(Limits { initial: 1, maximum: None }) });
    add_function(&mut m, vec![], None, vec![], vec![End]);
    export(&mut m, "_call", Internal::Function(1));
    export(&mut m, "table", Internal::Table(0));
    let r = ununderscore_funcs(m.clone());
    assert_eq!(r.imports[0].field, "oo");
    assert_eq!(r.imports[1].field, "memory");
    assert_eq!(r.exports[0].field, "call");
    assert_eq!(r.exports[1].field, "table");
    let r = underscore_funcs(r);
    assert_eq!(r.imports[0].field, "_oo");
    assert_eq!(r.exports[0].field, "_call");
    assert_eq!(r.exports[1].field, "table");
}

#[test]
fn stack_top_is_lowered() {
    let mut m = empty_module();
    m.data.push(DataSegment { index: 0, offset: vec![I32Const(8), End], value: vec![1, 2, 3, 4] });
    m.data.push(DataSegment { index: 0, offset: vec![I32Const(4), End], value: 0x0010_0000u32.to_le_bytes().to_vec() });
    let (r, top) = shrink_unknown_stack(m, 0x000f_0000);
    assert_eq!(top, 0x0001_0000);
    assert_eq!(r.data[1].value, 0x0001_0000u32.to_le_bytes().to_vec());
    assert_eq!(r.data[0].value, vec![1, 2, 3, 4]);
}

#[test]
fn externalized_functions_become_imports() {
    let mut m = empty_module();
    m.imports.push(ImportEntry { module: "env".into(), field: "host".into(), external: External::Function(0) });
    m.types.push(FunctionType { params: vec![], return_type: None });
    add_function(&mut m, vec![ValueType::I32], None, vec![], vec![End]);
    add_function(&mut m, vec![], None, vec![], vec![Call(0), Call(1), Call(2), End]);
    export(&mut m, "ext", Internal::Function(1));
    export(&mut m, "main", Internal::Function(2));
    let r = externalize(m, vec!["ext".to_string()]);
    assert_eq!(r.imports.len(), 2);
    assert_eq!(r.imports[1].field, "ext");
    assert_eq!(r.imports[1].external, External::Function(1));
    assert_eq!(r.code[1].code, vec![Call(0), Call(1), Call(3), End]);
    assert_eq!(r.exports[0].internal, Internal::Function(2));
    assert_eq!(r.exports[1].internal, Internal::Function(3));
}

#[test]
fn target_runtime_symbols() {
    let p = TargetRuntime::pwasm();
    assert_eq!(p.symbols().create, "deploy");
    assert_eq!(p.symbols().call, "call");
    assert_eq!(p.symbols().ret, "ret");
    let s = TargetRuntime::substrate();
    assert_eq!(s.symbols().ret, "ext_return");
}

#[test]
fn memory_import_without_own_memory() {
    let r = externalize_mem(empty_module(), Some(3), 16);
    assert_eq!(r.imports[0].external, External::Memory(Limits { initial: 3, maximum: Some(16) }));
}

#[test]
fn pack_rejects_imported_constructor_with_wrong_type() {
    let mut m = packer_module(false);
    m.types.push(FunctionType { params: vec![ValueType::I32], return_type: None });
    m.imports.push(ImportEntry { module: "env".into(), field: "d".into(), external: External::Function(3) });
    m.exports[1].internal = Internal::Function(0);
    assert_eq!(pack_instance(vec![1], m, &TargetRuntime::pwasm()).err(), Some(PackingError::InvalidCreateSignature));
}
