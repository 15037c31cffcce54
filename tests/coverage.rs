use pwasm_utils::coverage::{instrument, Coverage, I32_LOAD8_U, I32_OR, I32_STORE8};
use pwasm_utils::elements::{
    External, FuncBody, FunctionType, ImportEntry, Instruction, Limits, Module,
};

fn module() -> Module {
    Module {
        types: vec![FunctionType { params: vec![], return_type: None }],
        imports: vec![ImportEntry { module: "env".into(), field: "gas".into(), external: External::Function(0) }],
        functions: vec![0],
        tables: vec![],
        memories: vec![],
        globals: vec![],
        exports: vec![],
        start: None,
        elements: vec![],
        code: vec![FuncBody {
            locals: vec![],
            code: vec![
                Instruction::I32Const(3),
                Instruction::Call(0),
                Instruction::Nop,
                Instruction::I32Const(1),
                Instruction::Call(0),
                Instruction::End,
            ],
        }],
        data: vec![],
    }
}

#[test]
fn instrument_marks_each_block() {
    let mut m = module();
    let info = instrument(&mut m, (&"env".to_string(), &"gas".to_string())).unwrap();
    assert_eq!(info.bitmap_location().start, 0);
    assert_eq!(info.bitmap_location().end, 1);
    assert_eq!(m.imports[1].external, External::Memory(Limits { initial: 1, maximum: Some(1) }));
    let blocks: Vec<u32> = info.functions()[0].basic_blocks.iter().map(|b| b.num_instructions).collect();
    assert_eq!(blocks, vec![3, 3]);
    assert_eq!(
        m.code[0].code,
        vec![
            Instruction::I32Const(3),
            Instruction::Call(0),
            Instruction::I32Const(0),
            Instruction::I32Const(0),
            Instruction::Load(I32_LOAD8_U, 0, 0),
            Instruction::I32Const(1),
            Instruction::Numeric(I32_OR),
            Instruction::Store(I32_STORE8, 0, 0),
            Instruction::Nop,
            Instruction::I32Const(1),
            Instruction::Call(0),
            Instruction::I32Const(0),
            Instruction::I32Const(0),
            Instruction::Load(I32_LOAD8_U, 0, 0),
            Instruction::I32Const(2),
            Instruction::Numeric(I32_OR),
            Instruction::Store(I32_STORE8, 0, 0),
            Instruction::End,
        ]
    );
}

#[test]
fn instrument_requires_gas_import() {
    let mut m = module();
    let err = instrument(&mut m, (&"env".to_string(), &"other".to_string())).err();
    assert_eq!(err, Some("Coverage requires the gas import as basic block marker"));
}

#[test]
fn statistic_counts_used_blocks() {
    let mut m = module();
    let info = instrument(&mut m, (&"env".to_string(), &"gas".to_string())).unwrap();
    assert!(Coverage::new(info, vec![0, 0]).is_err());
    let mut m = module();
    let info = instrument(&mut m, (&"env".to_string(), &"gas".to_string())).unwrap();
    let coverage = Coverage::new(info, vec![0b10]).unwrap();
    let f = &coverage.info().functions()[0];
    assert!(!coverage.block_was_used(f, 0));
    assert!(coverage.block_was_used(f, 1));
    let stats = coverage.create_statistic();
    assert_eq!(stats.num_functions, 1);
    assert_eq!(stats.num_basic_blocks, 2);
    assert_eq!(stats.num_instructions, 6);
    assert_eq!(stats.min_basic_block_size, 3);
    assert_eq!(stats.max_basic_block_size, 3);
    assert_eq!(stats.median_basic_block_size, 3);
    assert_eq!(stats.used_basic_blocks, 1);
    assert_eq!(stats.used_instructions, 3);
    assert_eq!(stats.used_functions, 0);
}
