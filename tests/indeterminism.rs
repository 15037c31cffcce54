use pwasm_utils::elements::{FuncBody, FunctionType, Instruction, Module, ValueType, I32_ADD};
use pwasm_utils::indeterminism::have_indeterminism;

fn module_with_body(code: Vec<Instruction>) -> Module {
    Module {
        types: vec![FunctionType { params: vec![], return_type: Some(ValueType::F32) }],
        imports: vec![],
        functions: vec![0],
        tables: vec![],
        memories: vec![],
        globals: vec![],
        exports: vec![],
        start: None,
        elements: vec![],
        code: vec![FuncBody { locals: vec![], code }],
        data: vec![],
    }
}

#[test]
fn indeterminism_found() {
    let module = module_with_body(vec![
        Instruction::F32Const(1),
        Instruction::F32Const(1),
        Instruction::Numeric(0x92),
        Instruction::End,
    ]);
    assert_eq!(true, have_indeterminism(&module));
}

#[test]
fn indeterminism_not() {
    let module = module_with_body(vec![
        Instruction::I32Const(1),
        Instruction::I32Const(1),
        Instruction::Numeric(I32_ADD),
        Instruction::End,
    ]);
    assert_eq!(false, have_indeterminism(&module));
}

#[test]
fn float_constants_alone_are_deterministic() {
    let module = module_with_body(vec![Instruction::F64Const(0), Instruction::Drop, Instruction::End]);
    assert!(!have_indeterminism(&module));
    let module = module_with_body(vec![Instruction::Numeric(0xbb), Instruction::End]);
    assert!(have_indeterminism(&module));
}
