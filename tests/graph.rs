use pwasm_utils::elements::{
    BlockType, DataSegment, ElementSegment, ExportEntry, External, FuncBody, FunctionType, GlobalEntry,
    GlobalType, ImportEntry, Instruction, Internal, Limits, Module, ValueType,
};
use pwasm_utils::graph::{GraphError, GraphModule};

fn sample() -> Module {
    Module {
        types: vec![
            FunctionType { params: vec![], return_type: None },
            FunctionType { params: vec![ValueType::I32], return_type: Some(ValueType::I64) },
        ],
        imports: vec![
            ImportEntry { module: "env".into(), field: "f".into(), external: External::Function(0) },
            ImportEntry { module: "env".into(), field: "g".into(), external: External::Global(GlobalType { content_type: ValueType::I32, is_mutable: false }) },
            ImportEntry { module: "env".into(), field: "memory".into(), external: External::Memory(Limits { initial: 1, maximum: None }) },
        ],
        functions: vec![1, 0, 0],
        tables: vec![Limits { initial: 2, maximum: Some(2) }],
        memories: vec![],
        globals: vec![GlobalEntry {
            global_type: GlobalType { content_type: ValueType::I32, is_mutable: true },
            init_expr: vec![Instruction::GetGlobal(0), Instruction::End],
        }],
        exports: vec![
            ExportEntry { field: "main".into(), internal: Internal::Function(3) },
            ExportEntry { field: "mem".into(), internal: Internal::Memory(0) },
        ],
        start: Some(2),
        elements: vec![ElementSegment { index: 0, offset: vec![Instruction::I32Const(0), Instruction::End], members: vec![1, 3] }],
        code: vec![
            FuncBody { locals: vec![ValueType::I64], code: vec![Instruction::I64Const(1), Instruction::End] },
            FuncBody { locals: vec![], code: vec![Instruction::End] },
            FuncBody {
                locals: vec![],
                code: vec![
                    Instruction::Call(0),
                    Instruction::I32Const(1),
                    Instruction::Call(1),
                    Instruction::Drop,
                    Instruction::GetGlobal(1),
                    Instruction::SetGlobal(1),
                    Instruction::Block(BlockType::NoResult),
                    Instruction::I32Const(0),
                    Instruction::BrTable(vec![0, 0], 0),
                    Instruction::End,
                    Instruction::Call(2),
                    Instruction::End,
                ],
            },
        ],
        data: vec![DataSegment { index: 0, offset: vec![Instruction::I32Const(8), Instruction::End], value: vec![1, 2, 3] }],
    }
}

#[test]
fn graph_round_trip() {
    let m = sample();
    let g = GraphModule::from_elements(&m);
    assert_eq!(g.funcs.len(), 4);
    assert_eq!(g.globals.len(), 2);
    assert_eq!(g.generate(), Ok(m));
}

#[test]
fn graph_deletion_renumbers_references() {
    let m = sample();
    let mut g = GraphModule::from_elements(&m);
    // Function 2 of the combined space is only the start function: drop it
    // from the start and delete it; calls of function 3 become calls of 2.
    g.start = None;
    let code_of_3 = &m.code[2].code;
    assert_eq!(code_of_3[10], Instruction::Call(2));
    g.funcs.delete(&[2]);
    // the body of function 3 still calls the deleted function
    assert_eq!(g.generate(), Err(GraphError::DetachedReference));
}

#[test]
fn graph_deletion_of_unreferenced_function() {
    let mut m = sample();
    m.start = None;
    m.code[2].code = vec![Instruction::Call(0), Instruction::End];
    let mut g = GraphModule::from_elements(&m);
    g.funcs.delete(&[2]);
    let out = g.generate().unwrap();
    assert_eq!(out.functions, vec![1, 0]);
    assert_eq!(out.exports[0].internal, Internal::Function(2));
    assert_eq!(out.elements[0].members, vec![1, 2]);
    assert_eq!(out.code.len(), 2);
    assert_eq!(out.code[1].code, vec![Instruction::Call(0), Instruction::End]);
}

fn smoky_module() -> Module {
    Module {
        types: vec![FunctionType { params: vec![], return_type: None }],
        imports: vec![],
        functions: vec![0],
        tables: vec![],
        memories: vec![Limits { initial: 0, maximum: Some(1) }],
        globals: vec![],
        exports: vec![ExportEntry { field: "simple".into(), internal: Internal::Function(0) }],
        start: None,
        elements: vec![],
        code: vec![FuncBody { locals: vec![], code: vec![Instruction::End] }],
        data: vec![],
    }
}

#[test]
fn smoky() {
    let f = GraphModule::from_elements(&smoky_module());
    assert_eq!(f.types.len(), 1);
    assert_eq!(f.funcs.len(), 1);
    assert_eq!(f.tables.len(), 0);
    assert_eq!(f.memory.len(), 1);
    assert_eq!(f.exports.len(), 1);
    // the function's type and the export refer to the first type and function
    let func = f.funcs.get(0).unwrap();
    let ty = f.funcs.read(&func).value().type_ref;
    assert_eq!(ty.order(&f.types), Some(0));
    assert_eq!(f.generate(), Ok(smoky_module()));
}

#[test]
fn simple_round_trip() {
    let m = Module {
        types: vec![FunctionType { params: vec![], return_type: None }],
        imports: vec![ImportEntry { module: "env".into(), field: "f1".into(), external: External::Function(0) }],
        functions: vec![],
        tables: vec![],
        memories: vec![Limits { initial: 0, maximum: Some(1) }],
        globals: vec![],
        exports: vec![ExportEntry { field: "simple".into(), internal: Internal::Function(0) }],
        start: None,
        elements: vec![],
        code: vec![],
        data: vec![],
    };
    let f = GraphModule::from_elements(&m);
    assert_eq!(f.generate(), Ok(m));
}
