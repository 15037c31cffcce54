use pwasm_utils::elements::{
    DataSegment, ExportEntry, External, FuncBody, FunctionType, ImportEntry, Instruction, Internal,
    Limits, Module,
};
use pwasm_utils::pipeline::{has_ctor, prepare, SourceTarget};
use pwasm_utils::TargetRuntime;

fn module() -> Module {
    Module {
        types: vec![FunctionType { params: vec![], return_type: None }],
        imports: vec![ImportEntry { module: "env".into(), field: "_ext".into(), external: External::Function(0) }],
        functions: vec![0],
        tables: vec![],
        memories: vec![Limits { initial: 2, maximum: None }],
        globals: vec![],
        exports: vec![ExportEntry { field: "_deploy".into(), internal: Internal::Function(1) }],
        start: None,
        elements: vec![],
        code: vec![FuncBody { locals: vec![], code: vec![Instruction::End] }],
        data: vec![DataSegment {
            index: 0,
            offset: vec![Instruction::I32Const(4), Instruction::End],
            value: (1024u32 * 1024).to_le_bytes().to_vec(),
        }],
    }
}

#[test]
fn emscripten_output_loses_underscores() {
    let m = prepare(module(), SourceTarget::Emscripten, None, false, 49152);
    assert_eq!(m.imports[0].field, "ext");
    assert_eq!(m.exports[0].field, "deploy");
    assert!(has_ctor(&m, &TargetRuntime::pwasm()));
    assert!(!has_ctor(&module(), &TargetRuntime::pwasm()));
}

#[test]
fn unknown_target_shrinks_stack_and_imports_memory() {
    let m = prepare(module(), SourceTarget::Unknown, Some((*b"emcc", 2)), true, 49152);
    assert_eq!(m.data[0].value, 49152u32.to_le_bytes().to_vec());
    assert!(m.memories.is_empty());
    assert_eq!(m.imports[1].external, External::Memory(Limits { initial: 1, maximum: Some(16) }));
    assert_eq!(m.exports.len(), 3);
    assert_eq!(m.exports[1].field, "RUNTIME_TYPE");
    assert_eq!(m.exports[2].field, "RUNTIME_VERSION");
}

#[test]
fn unknown_target_without_adjustment_keeps_limits() {
    let m = prepare(module(), SourceTarget::Unknown, None, false, 49152);
    assert_eq!(m.imports[1].external, External::Memory(Limits { initial: 2, maximum: Some(16) }));
    assert_eq!(m.data[0].value, (1024u32 * 1024).to_le_bytes().to_vec());
}
