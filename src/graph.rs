//! The graph module: a module whose cross references are handles into
//! reference lists instead of indices. Entries can then be removed or added
//! without renumbering by hand; emitting the module writes each handle as the
//! position its entry holds at that time.
use vstd::prelude::*;

use crate::elements::{
    DataSegment, ElementSegment, ExportEntry, External, FuncBody, FunctionType,
    GlobalEntry, GlobalType, ImportEntry, Instruction, Internal, Limits, Module, ValueType,
};
use crate::ref_list::{EntryRef, RefList};

verus! {

/// Imported or declared variant of the same thing.
pub enum ImportedOrDeclared<T> {
    /// Imported under a module and a field name.
    Imported(String, String),
    /// Declared in the module itself.
    Declared(T),
}

/// An instruction whose reference, if it has one, is a handle.
pub enum GraphInstruction {
    Plain(Instruction),
    Call(EntryRef),
    CallIndirect(EntryRef, u8),
    GetGlobal(EntryRef),
    SetGlobal(EntryRef),
}

pub struct GraphBody {
    pub locals: Vec<ValueType>,
    pub code: Vec<GraphInstruction>,
}

pub struct Func {
    pub type_ref: EntryRef,
    pub origin: ImportedOrDeclared<GraphBody>,
}

pub struct Global {
    pub global_type: GlobalType,
    pub origin: ImportedOrDeclared<Vec<GraphInstruction>>,
}

pub struct Memory {
    pub limits: Limits,
    pub origin: ImportedOrDeclared<()>,
}

pub struct Table {
    pub limits: Limits,
    pub origin: ImportedOrDeclared<()>,
}

pub enum ExportLocal {
    Func(EntryRef),
    Global(EntryRef),
    Table(EntryRef),
    Memory(EntryRef),
}

pub struct Export {
    pub name: String,
    pub local: ExportLocal,
}

pub struct GraphElementSegment {
    pub offset: Vec<GraphInstruction>,
    pub members: Vec<EntryRef>,
}

pub struct GraphDataSegment {
    pub offset: Vec<GraphInstruction>,
    pub value: Vec<u8>,
}

/// Why a module cannot be ingested or emitted.
#[derive(Debug, PartialEq, Eq, Structural)]
pub enum GraphError {
    /// An index names no entry.
    UnresolvedReference,
    /// A handle names an entry that was deleted.
    DetachedReference,
    /// A segment is not in memory or table 0, or the bodies do not match the functions.
    Unsupported,
}

pub struct GraphModule {
    pub types: RefList<FunctionType>,
    pub funcs: RefList<Func>,
    pub memory: RefList<Memory>,
    pub tables: RefList<Table>,
    pub globals: RefList<Global>,
    pub start: Option<EntryRef>,
    pub exports: Vec<Export>,
    pub elements: Vec<GraphElementSegment>,
    pub data: Vec<GraphDataSegment>,
}

/// `a` and `b` are the same instruction (a branch table compared by its entries).
pub open spec fn same_instruction(a: Instruction, b: Instruction) -> bool {
    match (a, b) {
        (Instruction::BrTable(t1, d1), Instruction::BrTable(t2, d2)) => t1@ == t2@ && d1 == d2,
        _ => a == b,
    }
}

pub open spec fn same_code(a: Seq<Instruction>, b: Seq<Instruction>) -> bool {
    a.len() == b.len() && forall|i: int| 0 <= i < a.len() ==> same_instruction(#[trigger] a[i], b[i])
}

fn copy_u32s(v: &Vec<u32>) -> (r: Vec<u32>)
    ensures
        r@ == v@,
{
    let mut r: Vec<u32> = Vec::new();
    let mut i: usize = 0;
    while i < v.len()
        invariant
            i <= v@.len(),
            r@ == v@.subrange(0, i as int),
        decreases v@.len() - i,
    {
        r.push(v[i]);
        i = i + 1;
        proof {
            assert(r@ =~= v@.subrange(0, i as int));
        }
    }
    proof {
        assert(r@ =~= v@);
    }
    r
}

fn copy_instruction(i: &Instruction) -> (r: Instruction)
    ensures
        same_instruction(r, *i),
{
    match i {
        Instruction::BrTable(t, d) => Instruction::BrTable(copy_u32s(t), *d),
        Instruction::Unreachable => Instruction::Unreachable,
        Instruction::Nop => Instruction::Nop,
        Instruction::Block(t) => Instruction::Block(*t),
        Instruction::Loop(t) => Instruction::Loop(*t),
        Instruction::If(t) => Instruction::If(*t),
        Instruction::Else => Instruction::Else,
        Instruction::End => Instruction::End,
        Instruction::Br(d) => Instruction::Br(*d),
        Instruction::BrIf(d) => Instruction::BrIf(*d),
        Instruction::Return => Instruction::Return,
        Instruction::Call(f) => Instruction::Call(*f),
        Instruction::CallIndirect(t, r) => Instruction::CallIndirect(*t, *r),
        Instruction::Drop => Instruction::Drop,
        Instruction::Select => Instruction::Select,
        Instruction::GetLocal(x) => Instruction::GetLocal(*x),
        Instruction::SetLocal(x) => Instruction::SetLocal(*x),
        Instruction::TeeLocal(x) => Instruction::TeeLocal(*x),
        Instruction::GetGlobal(x) => Instruction::GetGlobal(*x),
        Instruction::SetGlobal(x) => Instruction::SetGlobal(*x),
        Instruction::Load(o, a, f) => Instruction::Load(*o, *a, *f),
        Instruction::Store(o, a, f) => Instruction::Store(*o, *a, *f),
        Instruction::CurrentMemory(x) => Instruction::CurrentMemory(*x),
        Instruction::GrowMemory(x) => Instruction::GrowMemory(*x),
        Instruction::I32Const(v) => Instruction::I32Const(*v),
        Instruction::I64Const(v) => Instruction::I64Const(*v),
        Instruction::F32Const(v) => Instruction::F32Const(*v),
        Instruction::F64Const(v) => Instruction::F64Const(*v),
        Instruction::Numeric(o) => Instruction::Numeric(*o),
    }
}

fn copy_value_types(v: &Vec<ValueType>) -> (r: Vec<ValueType>)
    ensures
        r@ == v@,
{
    let mut r: Vec<ValueType> = Vec::new();
    let mut i: usize = 0;
    while i < v.len()
        invariant
            i <= v@.len(),
            r@ == v@.subrange(0, i as int),
        decreases v@.len() - i,
    {
        r.push(v[i]);
        i = i + 1;
        proof {
            assert(r@ =~= v@.subrange(0, i as int));
        }
    }
    proof {
        assert(r@ =~= v@);
    }
    r
}

fn copy_bytes(v: &Vec<u8>) -> (r: Vec<u8>)
    ensures
        r@ == v@,
{
    let mut r: Vec<u8> = Vec::new();
    let mut i: usize = 0;
    while i < v.len()
        invariant
            i <= v@.len(),
            r@ == v@.subrange(0, i as int),
        decreases v@.len() - i,
    {
        r.push(v[i]);
        i = i + 1;
        proof {
            assert(r@ =~= v@.subrange(0, i as int));
        }
    }
    proof {
        assert(r@ =~= v@);
    }
    r
}

/// The position that handle `h` of `list` names, if it is attached.
pub open spec fn position_of<T>(list: RefList<T>, h: EntryRef) -> Option<usize> {
    if list.valid(h) {
        list.order_of(h)
    } else {
        None
    }
}

/// The instruction that `g` stands for, given the lists its handles point into.
pub open spec fn emitted(g: GraphInstruction, types: RefList<FunctionType>, funcs: RefList<Func>, globals: RefList<Global>) -> Option<Instruction> {
    match g {
        GraphInstruction::Plain(i) => Some(i),
        GraphInstruction::Call(h) => match position_of(funcs, h) {
            Some(x) => if x <= u32::MAX { Some(Instruction::Call(x as u32)) } else { None },
            None => None,
        },
        GraphInstruction::CallIndirect(h, r) => match position_of(types, h) {
            Some(x) => if x <= u32::MAX { Some(Instruction::CallIndirect(x as u32, r)) } else { None },
            None => None,
        },
        GraphInstruction::GetGlobal(h) => match position_of(globals, h) {
            Some(x) => if x <= u32::MAX { Some(Instruction::GetGlobal(x as u32)) } else { None },
            None => None,
        },
        GraphInstruction::SetGlobal(h) => match position_of(globals, h) {
            Some(x) => if x <= u32::MAX { Some(Instruction::SetGlobal(x as u32)) } else { None },
            None => None,
        },
    }
}

/// Every index in `i` names an entry of lists of these sizes.
pub open spec fn resolves(i: Instruction, types: nat, funcs: nat, globals: nat) -> bool {
    match i {
        Instruction::Call(x) => x < funcs,
        Instruction::CallIndirect(t, _) => t < types,
        Instruction::GetGlobal(x) => x < globals,
        Instruction::SetGlobal(x) => x < globals,
        _ => true,
    }
}

pub open spec fn code_resolves(code: Seq<Instruction>, types: nat, funcs: nat, globals: nat) -> bool {
    forall|k: int| 0 <= k < code.len() ==> resolves(#[trigger] code[k], types, funcs, globals)
}

/// `gc` emits, in these lists, instructions the same as `code`.
pub open spec fn emits_code(gc: Seq<GraphInstruction>, code: Seq<Instruction>, types: RefList<FunctionType>, funcs: RefList<Func>, globals: RefList<Global>) -> bool {
    &&& gc.len() == code.len()
    &&& forall|k: int|
        0 <= k < code.len() ==> (emitted(#[trigger] gc[k], types, funcs, globals) matches Some(e)
            && same_instruction(e, code[k]))
}

fn handle_at<T>(list: &RefList<T>, x: u32) -> (r: Result<EntryRef, GraphError>)
    requires
        list.wf(),
    ensures
        x < list.spec_len() <==> r is Ok,
        r matches Ok(h) ==> position_of(*list, h) == Some(x as usize),
{
    match list.get(x as usize) {
        Some(h) => Ok(h),
        None => Err(GraphError::UnresolvedReference),
    }
}

fn map_instruction(
    types: &RefList<FunctionType>,
    funcs: &RefList<Func>,
    globals: &RefList<Global>,
    i: &Instruction,
) -> (r: Result<GraphInstruction, GraphError>)
    requires
        types.wf(),
        funcs.wf(),
        globals.wf(),
    ensures
        resolves(*i, types.spec_len(), funcs.spec_len(), globals.spec_len()) <==> r is Ok,
        r matches Ok(g) ==> emitted(g, *types, *funcs, *globals) matches Some(e) && same_instruction(e, *i),
{
    match i {
        Instruction::Call(x) => Ok(GraphInstruction::Call(handle_at(funcs, *x)?)),
        Instruction::CallIndirect(t, r) => Ok(GraphInstruction::CallIndirect(handle_at(types, *t)?, *r)),
        Instruction::GetGlobal(x) => Ok(GraphInstruction::GetGlobal(handle_at(globals, *x)?)),
        Instruction::SetGlobal(x) => Ok(GraphInstruction::SetGlobal(handle_at(globals, *x)?)),
        other => Ok(GraphInstruction::Plain(copy_instruction(other))),
    }
}

fn map_code(
    types: &RefList<FunctionType>,
    funcs: &RefList<Func>,
    globals: &RefList<Global>,
    code: &Vec<Instruction>,
) -> (r: Result<Vec<GraphInstruction>, GraphError>)
    requires
        types.wf(),
        funcs.wf(),
        globals.wf(),
    ensures
        code_resolves(code@, types.spec_len(), funcs.spec_len(), globals.spec_len()) <==> r is Ok,
        r matches Ok(gc) ==> emits_code(gc@, code@, *types, *funcs, *globals),
{
    let mut out: Vec<GraphInstruction> = Vec::new();
    let mut k: usize = 0;
    while k < code.len()
        invariant
            types.wf(),
            funcs.wf(),
            globals.wf(),
            k <= code@.len(),
            out@.len() == k,
            forall|q: int| 0 <= q < k ==> resolves(#[trigger] code@[q], types.spec_len(), funcs.spec_len(), globals.spec_len()),
            forall|q: int|
                0 <= q < k ==> (emitted(#[trigger] out@[q], *types, *funcs, *globals) matches Some(e)
                    && same_instruction(e, code@[q])),
        decreases code@.len() - k,
    {
        let g = map_instruction(types, funcs, globals, &code[k])?;
        out.push(g);
        k = k + 1;
    }
    Ok(out)
}

fn position_in<T>(list: &RefList<T>, h: &EntryRef) -> (r: Result<u32, GraphError>)
    requires
        list.wf(),
    ensures
        match position_of(*list, *h) {
            Some(x) => if x <= u32::MAX { r == Ok::<u32, GraphError>(x as u32) } else { r is Err },
            None => r is Err,
        },
{
    if !list.contains(h) {
        return Err(GraphError::DetachedReference);
    }
    match h.order(list) {
        Some(x) => if x <= u32::MAX as usize {
            Ok(x as u32)
        } else {
            Err(GraphError::Unsupported)
        },
        None => Err(GraphError::DetachedReference),
    }
}

fn emit_instruction(
    types: &RefList<FunctionType>,
    funcs: &RefList<Func>,
    globals: &RefList<Global>,
    g: &GraphInstruction,
) -> (r: Result<Instruction, GraphError>)
    requires
        types.wf(),
        funcs.wf(),
        globals.wf(),
    ensures
        match emitted(*g, *types, *funcs, *globals) {
            Some(e) => r matches Ok(i) && same_instruction(i, e),
            None => r is Err,
        },
{
    match g {
        GraphInstruction::Plain(i) => Ok(copy_instruction(i)),
        GraphInstruction::Call(h) => Ok(Instruction::Call(position_in(funcs, h)?)),
        GraphInstruction::CallIndirect(h, r) => Ok(Instruction::CallIndirect(position_in(types, h)?, *r)),
        GraphInstruction::GetGlobal(h) => Ok(Instruction::GetGlobal(position_in(globals, h)?)),
        GraphInstruction::SetGlobal(h) => Ok(Instruction::SetGlobal(position_in(globals, h)?)),
    }
}

/// `code` is what `gc` emits in these lists.
pub open spec fn emission_of(code: Seq<Instruction>, gc: Seq<GraphInstruction>, types: RefList<FunctionType>, funcs: RefList<Func>, globals: RefList<Global>) -> bool {
    &&& code.len() == gc.len()
    &&& forall|k: int|
        0 <= k < gc.len() ==> (emitted(#[trigger] gc[k], types, funcs, globals) matches Some(e)
            && same_instruction(code[k], e))
}

pub open spec fn all_emitted(gc: Seq<GraphInstruction>, types: RefList<FunctionType>, funcs: RefList<Func>, globals: RefList<Global>) -> bool {
    forall|k: int| 0 <= k < gc.len() ==> emitted(#[trigger] gc[k], types, funcs, globals) is Some
}

fn emit_code(
    types: &RefList<FunctionType>,
    funcs: &RefList<Func>,
    globals: &RefList<Global>,
    gc: &Vec<GraphInstruction>,
) -> (r: Result<Vec<Instruction>, GraphError>)
    requires
        types.wf(),
        funcs.wf(),
        globals.wf(),
    ensures
        all_emitted(gc@, *types, *funcs, *globals) <==> r is Ok,
        r matches Ok(code) ==> emission_of(code@, gc@, *types, *funcs, *globals),
{
    let mut out: Vec<Instruction> = Vec::new();
    let mut k: usize = 0;
    while k < gc.len()
        invariant
            types.wf(),
            funcs.wf(),
            globals.wf(),
            k <= gc@.len(),
            out@.len() == k,
            forall|q: int| 0 <= q < k ==> emitted(#[trigger] gc@[q], *types, *funcs, *globals) is Some,
            forall|q: int|
                0 <= q < k ==> (emitted(#[trigger] gc@[q], *types, *funcs, *globals) matches Some(e)
                    && same_instruction(out@[q], e)),
        decreases gc@.len() - k,
    {
        let i = emit_instruction(types, funcs, globals, &gc[k])?;
        out.push(i);
        k = k + 1;
    }
    Ok(out)
}

/// Whether every index of `m` names an entry, the bodies match the
/// functions, and every segment is in table or memory 0: what ingestion needs.
pub open spec fn ingestible(m: Module) -> bool {
    let nt = m.types@.len();
    let fs = crate::elements::functions_space(m);
    let gs = crate::elements::globals_space(m);
    &&& m.code@.len() == m.functions@.len()
    &&& forall|i: int| 0 <= i < m.imports@.len() ==> ((#[trigger] m.imports@[i]).external matches External::Function(t) ==> t < nt)
    &&& forall|i: int| 0 <= i < m.functions@.len() ==> #[trigger] m.functions@[i] < nt
    &&& forall|i: int| 0 <= i < m.code@.len() ==> code_resolves(#[trigger] m.code@[i].code@, nt, fs, gs)
    &&& forall|i: int| 0 <= i < m.globals@.len() ==> code_resolves(#[trigger] m.globals@[i].init_expr@, nt, fs, gs)
    &&& forall|i: int|
        0 <= i < m.exports@.len() ==> match (#[trigger] m.exports@[i]).internal {
            Internal::Function(x) => x < fs,
            Internal::Global(x) => x < gs,
            Internal::Table(x) => x < table_count(m),
            Internal::Memory(x) => x < memory_count(m),
        }
    &&& (m.start matches Some(x) ==> x < fs)
    &&& forall|i: int|
        0 <= i < m.elements@.len() ==> (#[trigger] m.elements@[i]).index == 0 && code_resolves(
            m.elements@[i].offset@,
            nt,
            fs,
            gs,
        ) && forall|j: int| 0 <= j < m.elements@[i].members@.len() ==> #[trigger] m.elements@[i].members@[j] < fs
    &&& forall|i: int|
        0 <= i < m.data@.len() ==> (#[trigger] m.data@[i]).index == 0 && code_resolves(m.data@[i].offset@, nt, fs, gs)
}

pub open spec fn kind_count(imports: Seq<ImportEntry>, n: int, kind: int) -> nat
    decreases n,
{
    if n <= 0 {
        0
    } else {
        kind_count(imports, n - 1, kind) + if import_kind(imports[n - 1]) == kind { 1nat } else { 0nat }
    }
}

/// Functions, globals, memories and tables, in the order the graph emits
/// their imports.
pub open spec fn import_kind(e: ImportEntry) -> int {
    match e.external {
        External::Function(_) => 0,
        External::Global(_) => 1,
        External::Memory(_) => 2,
        External::Table(_) => 3,
    }
}

/// Size of the combined table index space.
pub open spec fn table_count(m: Module) -> nat {
    kind_count(m.imports@, m.imports@.len() as int, 3) + m.tables@.len()
}

/// Size of the combined memory index space.
pub open spec fn memory_count(m: Module) -> nat {
    kind_count(m.imports@, m.imports@.len() as int, 2) + m.memories@.len()
}

proof fn lemma_emitted_stable(
    g: GraphInstruction,
    t1: RefList<FunctionType>,
    f1: RefList<Func>,
    g1: RefList<Global>,
    t2: RefList<FunctionType>,
    f2: RefList<Func>,
    g2: RefList<Global>,
)
    requires
        t1.slots() == t2.slots(),
        f1.slots() == f2.slots(),
        g1.slots() == g2.slots(),
        forall|h: EntryRef| t1.valid(h) ==> #[trigger] t2.order_of(h) == t1.order_of(h),
        forall|h: EntryRef| f1.valid(h) ==> #[trigger] f2.order_of(h) == f1.order_of(h),
        forall|h: EntryRef| g1.valid(h) ==> #[trigger] g2.order_of(h) == g1.order_of(h),
    ensures
        emitted(g, t1, f1, g1) == emitted(g, t2, f2, g2),
{
}

/// The export `x` stands for `e`: same name, and a handle to what `e` names.
pub open spec fn export_ingested(e: ExportEntry, x: Export, funcs: RefList<Func>, globals: RefList<Global>, tables: RefList<Table>, memory: RefList<Memory>) -> bool {
    &&& x.name == e.field
    &&& match (e.internal, x.local) {
        (Internal::Function(i), ExportLocal::Func(h)) => position_of(funcs, h) == Some(i as usize),
        (Internal::Global(i), ExportLocal::Global(h)) => position_of(globals, h) == Some(i as usize),
        (Internal::Table(i), ExportLocal::Table(h)) => position_of(tables, h) == Some(i as usize),
        (Internal::Memory(i), ExportLocal::Memory(h)) => position_of(memory, h) == Some(i as usize),
        _ => false,
    }
}

/// The graph of `module`: each index becomes a handle to the entry it names.
pub open spec fn ingested(m: Module, g: GraphModule) -> bool {
    let fic = crate::elements::func_import_count(m);
    &&& g.types.wf() && g.funcs.wf() && g.globals.wf() && g.memory.wf() && g.tables.wf()
    &&& g.types.spec_len() == m.types@.len()
    &&& g.memory.spec_len() <= u32::MAX && g.tables.spec_len() <= u32::MAX
    &&& forall|k: int| 0 <= k < g.funcs.spec_len() ==> pos_ok(g.types, (#[trigger] g.funcs.value_of(g.funcs.at(k))).type_ref)
    &&& collect(g.funcs, g.funcs.spec_len() as int, func_import(g.types)) == imports_of_kind(m.imports@, 0, m.imports@.len() as int)
    &&& collect(g.globals, g.globals.spec_len() as int, global_import()) == imports_of_kind(m.imports@, 1, m.imports@.len() as int)
    &&& collect(g.memory, g.memory.spec_len() as int, memory_import()) == imports_of_kind(m.imports@, 2, m.imports@.len() as int)
    &&& collect(g.tables, g.tables.spec_len() as int, table_import()) == imports_of_kind(m.imports@, 3, m.imports@.len() as int)
    &&& collect(g.memory, g.memory.spec_len() as int, declared_memory()) == m.memories@
    &&& collect(g.tables, g.tables.spec_len() as int, declared_table()) == m.tables@
    &&& forall|k: int|
        0 <= k < crate::elements::global_import_count(m) ==> (#[trigger] g.globals.value_of(g.globals.at(k))).origin is Imported
    &&& forall|d: int|
        0 <= d < m.globals@.len() ==> {
            let v = #[trigger] g.globals.value_of(g.globals.at(crate::elements::global_import_count(m) + d));
            &&& v.global_type == m.globals@[d].global_type
            &&& v.origin matches ImportedOrDeclared::Declared(init) && emits_code(init@, m.globals@[d].init_expr@, g.types, g.funcs, g.globals)
        }
    &&& forall|k: int|
        0 <= k < m.types@.len() ==> (#[trigger] g.types.value_of(g.types.at(k))).params@ == m.types@[k].params@
            && g.types.value_of(g.types.at(k)).return_type == m.types@[k].return_type
    &&& g.funcs.spec_len() == crate::elements::functions_space(m)
    &&& g.globals.spec_len() == crate::elements::globals_space(m)
    &&& forall|k: int| 0 <= k < fic ==> (#[trigger] g.funcs.value_of(g.funcs.at(k))).origin is Imported
    &&& forall|d: int|
        0 <= d < m.functions@.len() ==> {
            let f = #[trigger] g.funcs.value_of(g.funcs.at(fic + d));
            &&& f.origin matches ImportedOrDeclared::Declared(body) && body.locals@ == m.code@[d].locals@
                && emits_code(body.code@, m.code@[d].code@, g.types, g.funcs, g.globals)
            &&& position_of(g.types, f.type_ref) == Some(m.functions@[d] as usize)
        }
    &&& g.exports@.len() == m.exports@.len()
    &&& forall|i: int| 0 <= i < m.exports@.len() ==> export_ingested(#[trigger] m.exports@[i], g.exports@[i], g.funcs, g.globals, g.tables, g.memory)
    &&& g.elements@.len() == m.elements@.len()
    &&& forall|i: int|
        0 <= i < m.elements@.len() ==> {
            let seg = #[trigger] g.elements@[i];
            &&& emits_code(seg.offset@, m.elements@[i].offset@, g.types, g.funcs, g.globals)
            &&& seg.members@.len() == m.elements@[i].members@.len()
            &&& forall|j: int| 0 <= j < seg.members@.len() ==> position_of(g.funcs, #[trigger] seg.members@[j]) == Some(m.elements@[i].members@[j] as usize)
        }
    &&& g.data@.len() == m.data@.len()
    &&& forall|i: int|
        0 <= i < m.data@.len() ==> emits_code((#[trigger] g.data@[i]).offset@, m.data@[i].offset@, g.types, g.funcs, g.globals)
            && g.data@[i].value@ == m.data@[i].value@
    &&& match m.start {
        Some(x) => g.start matches Some(h) && position_of(g.funcs, h) == Some(x as usize),
        None => g.start is None,
    }
}

fn copy_type(t: &FunctionType) -> (r: FunctionType)
    ensures
        r.params@ == t.params@,
        r.return_type == t.return_type,
{
    FunctionType { params: copy_value_types(&t.params), return_type: t.return_type }
}

proof fn lemma_push_keeps<T>(before: RefList<T>, after: RefList<T>, k: int)
    requires
        before.wf(),
        0 <= k < before.spec_len(),
        after.spec_len() == before.spec_len() + 1,
        forall|j: int| 0 <= j < before.spec_len() ==> after.at(j) == before.at(j),
        forall|h: EntryRef|
            before.valid(h) ==> after.order_of(h) == before.order_of(h) && after.value_of(h)
                == before.value_of(h),
    ensures
        after.at(k) == before.at(k),
        after.value_of(after.at(k)) == before.value_of(before.at(k)),
{
    before.lemma_at(k);
}

/// What `f` gives for the first `n` entries of `list`, in list order.
pub open spec fn collect<T, U>(list: RefList<T>, n: int, f: spec_fn(T) -> Option<U>) -> Seq<U>
    decreases n,
{
    if n <= 0 {
        Seq::empty()
    } else {
        let prev = collect(list, n - 1, f);
        match f(list.value_of(list.at(n - 1))) {
            Some(u) => prev.push(u),
            None => prev,
        }
    }
}

/// Collecting over two lists that `f` cannot tell apart gives the same.
proof fn lemma_collect_same<T, U>(a: RefList<T>, b: RefList<T>, n: int, f: spec_fn(T) -> Option<U>)
    requires
        forall|k: int| 0 <= k < n ==> f(#[trigger] a.value_of(a.at(k))) == f(b.value_of(b.at(k))),
    ensures
        collect(a, n, f) == collect(b, n, f),
    decreases n,
{
    if n > 0 {
        lemma_collect_same(a, b, n - 1, f);
        assert(f(a.value_of(a.at(n - 1))) == f(b.value_of(b.at(n - 1))));
    }
}

/// Pushing keeps what `f` collects from the entries before.
proof fn lemma_collect_push<T, U>(before: RefList<T>, after: RefList<T>, f: spec_fn(T) -> Option<U>)
    requires
        before.wf(),
        after.spec_len() == before.spec_len() + 1,
        forall|j: int| 0 <= j < before.spec_len() ==> after.at(j) == before.at(j),
        forall|h: EntryRef|
            before.valid(h) ==> after.order_of(h) == before.order_of(h) && after.value_of(h)
                == before.value_of(h),
    ensures
        collect(after, before.spec_len() as int, f) == collect(before, before.spec_len() as int, f),
{
    assert forall|k: int| 0 <= k < before.spec_len() implies f(#[trigger] after.value_of(after.at(k))) == f(
        before.value_of(before.at(k)),
    ) by {
        lemma_push_keeps(before, after, k);
    }
    lemma_collect_same(after, before, before.spec_len() as int, f);
}

/// Setting one value keeps what `f` collects where `f` cannot tell the old
/// value from the new one.
proof fn lemma_collect_set<T, U>(before: RefList<T>, after: RefList<T>, h: EntryRef, f: spec_fn(T) -> Option<U>)
    requires
        before.wf(),
        before.valid(h),
        after.spec_len() == before.spec_len(),
        f(after.value_of(h)) == f(before.value_of(h)),
        forall|k: int| 0 <= k < before.spec_len() ==> after.at(k) == before.at(k),
        forall|g: EntryRef|
            #![trigger after.order_of(g)]
            before.valid(g) ==> after.order_of(g) == before.order_of(g) && (g != h
                ==> after.value_of(g) == before.value_of(g)),
    ensures
        collect(after, before.spec_len() as int, f) == collect(before, before.spec_len() as int, f),
{
    assert forall|k: int| 0 <= k < before.spec_len() implies f(#[trigger] after.value_of(after.at(k))) == f(
        before.value_of(before.at(k)),
    ) by {
        before.lemma_at(k);
        assert(after.order_of(before.at(k)) == before.order_of(before.at(k)));
    }
    lemma_collect_same(after, before, before.spec_len() as int, f);
}

/// A function import entry of the graph, if `v` is imported.
pub open spec fn func_import(types: RefList<FunctionType>) -> spec_fn(Func) -> Option<ImportEntry> {
    |v: Func|
        match v.origin {
            ImportedOrDeclared::Imported(mo, fi) => Some(
                ImportEntry {
                    module: mo,
                    field: fi,
                    external: External::Function(position_of(types, v.type_ref)->Some_0 as u32),
                },
            ),
            _ => None,
        }
}

pub open spec fn global_import() -> spec_fn(Global) -> Option<ImportEntry> {
    |v: Global|
        match v.origin {
            ImportedOrDeclared::Imported(mo, fi) => Some(
                ImportEntry { module: mo, field: fi, external: External::Global(v.global_type) },
            ),
            _ => None,
        }
}

pub open spec fn memory_import() -> spec_fn(Memory) -> Option<ImportEntry> {
    |v: Memory|
        match v.origin {
            ImportedOrDeclared::Imported(mo, fi) => Some(
                ImportEntry { module: mo, field: fi, external: External::Memory(v.limits) },
            ),
            _ => None,
        }
}

pub open spec fn table_import() -> spec_fn(Table) -> Option<ImportEntry> {
    |v: Table|
        match v.origin {
            ImportedOrDeclared::Imported(mo, fi) => Some(
                ImportEntry { module: mo, field: fi, external: External::Table(v.limits) },
            ),
            _ => None,
        }
}

pub open spec fn declared_global() -> spec_fn(Global) -> Option<Global> {
    |v: Global| if v.origin is Declared { Some(v) } else { None }
}

pub open spec fn declared_memory() -> spec_fn(Memory) -> Option<Limits> {
    |v: Memory| if v.origin is Declared { Some(v.limits) } else { None }
}

pub open spec fn declared_table() -> spec_fn(Table) -> Option<Limits> {
    |v: Table| if v.origin is Declared { Some(v.limits) } else { None }
}

/// The imports of the first `n` of `imports` that have kind `kind`.
pub open spec fn imports_of_kind(imports: Seq<ImportEntry>, kind: int, n: int) -> Seq<ImportEntry>
    decreases n,
{
    if n <= 0 {
        Seq::empty()
    } else {
        let prev = imports_of_kind(imports, kind, n - 1);
        if import_kind(imports[n - 1]) == kind {
            prev.push(imports[n - 1])
        } else {
            prev
        }
    }
}

/// The imports are grouped by kind: functions, globals, memories, tables.
pub open spec fn imports_grouped(imports: Seq<ImportEntry>) -> bool {
    forall|i: int, j: int| 0 <= i < j < imports.len() ==> import_kind(#[trigger] imports[i]) <= import_kind(#[trigger] imports[j])
}

pub open spec fn grouped_concat(s: Seq<ImportEntry>, n: int) -> Seq<ImportEntry> {
    imports_of_kind(s, 0, n) + imports_of_kind(s, 1, n) + imports_of_kind(s, 2, n) + imports_of_kind(s, 3, n)
}

proof fn lemma_grouped_prefix(s: Seq<ImportEntry>, n: int)
    requires
        imports_grouped(s),
        0 <= n <= s.len(),
    ensures
        s.subrange(0, n) == grouped_concat(s, n),
        forall|k: int| n > 0 && k > import_kind(s[n - 1]) ==> #[trigger] imports_of_kind(s, k, n).len() == 0,
        n == 0 ==> forall|k: int| #[trigger] imports_of_kind(s, k, n).len() == 0,
    decreases n,
{
    if n > 0 {
        lemma_grouped_prefix(s, n - 1);
        let e = s[n - 1];
        let kk = import_kind(e);
        assert forall|k: int| k > kk implies #[trigger] imports_of_kind(s, k, n - 1).len() == 0 by {
            if n - 1 > 0 {
                assert(import_kind(s[n - 2]) <= kk);
            }
        }
        assert forall|k: int| n > 0 && k > kk implies #[trigger] imports_of_kind(s, k, n).len() == 0 by {
            assert(imports_of_kind(s, k, n - 1).len() == 0);
        }
        let f0 = imports_of_kind(s, 0, n - 1);
        let f1 = imports_of_kind(s, 1, n - 1);
        let f2 = imports_of_kind(s, 2, n - 1);
        let f3 = imports_of_kind(s, 3, n - 1);
        assert(s.subrange(0, n) =~= s.subrange(0, n - 1).push(e));
        if kk == 0 {
            assert(f1.len() == 0 && f2.len() == 0 && f3.len() == 0);
            assert(grouped_concat(s, n) =~= (f0 + f1 + f2 + f3).push(e));
        } else if kk == 1 {
            assert(f2.len() == 0 && f3.len() == 0);
            assert(grouped_concat(s, n) =~= (f0 + f1 + f2 + f3).push(e));
        } else if kk == 2 {
            assert(f3.len() == 0);
            assert(grouped_concat(s, n) =~= (f0 + f1 + f2 + f3).push(e));
        } else {
            assert(grouped_concat(s, n) =~= (f0 + f1 + f2 + f3).push(e));
        }
    } else {
        assert(s.subrange(0, 0) =~= grouped_concat(s, 0));
    }
}

/// Imports grouped by kind are their own functions, then globals, memories
/// and tables.
pub proof fn lemma_grouped(s: Seq<ImportEntry>)
    requires
        imports_grouped(s),
    ensures
        s == grouped_concat(s, s.len() as int),
{
    lemma_grouped_prefix(s, s.len() as int);
    assert(s.subrange(0, s.len() as int) =~= s);
}

/// Handle `h` names an entry of `list` at a position that fits an index.
pub open spec fn pos_ok<T>(list: RefList<T>, h: EntryRef) -> bool {
    position_of(list, h) matches Some(p) && p <= u32::MAX
}

/// Collecting over entries that `f` all maps to `None` gives nothing.
proof fn lemma_collect_none<T, U>(list: RefList<T>, n: int, f: spec_fn(T) -> Option<U>)
    requires
        forall|k: int| 0 <= k < n ==> f(#[trigger] list.value_of(list.at(k))) is None,
    ensures
        collect(list, n, f).len() == 0,
    decreases n,
{
    if n > 0 {
        lemma_collect_none(list, n - 1, f);
        assert(f(list.value_of(list.at(n - 1))) is None);
    }
}

/// Collecting over entries that `f` maps to `None` before `a` and to a value
/// from `a` on gives those values, in order.
proof fn lemma_collect_tail<T, U>(list: RefList<T>, a: int, n: int, f: spec_fn(T) -> Option<U>)
    requires
        0 <= a <= n,
        forall|k: int| 0 <= k < a ==> f(#[trigger] list.value_of(list.at(k))) is None,
        forall|k: int| a <= k < n ==> f(#[trigger] list.value_of(list.at(k))) is Some,
    ensures
        collect(list, n, f).len() == n - a,
        forall|j: int| 0 <= j < n - a ==> #[trigger] collect(list, n, f)[j] == f(list.value_of(list.at(a + j)))->Some_0,
    decreases n,
{
    if n > a {
        lemma_collect_tail(list, a, n - 1, f);
        assert(f(list.value_of(list.at(n - 1))) is Some);
        let prev = collect(list, n - 1, f);
        assert forall|j: int| 0 <= j < n - a implies #[trigger] collect(list, n, f)[j] == f(list.value_of(list.at(a + j)))->Some_0 by {
            if j < n - 1 - a {
                assert(collect(list, n, f)[j] == prev[j]);
            }
        }
    } else {
        lemma_collect_none(list, n, f);
    }
}

proof fn lemma_emits_code_stable(
    gc: Seq<GraphInstruction>,
    code: Seq<Instruction>,
    t1: RefList<FunctionType>,
    f1: RefList<Func>,
    g1: RefList<Global>,
    t2: RefList<FunctionType>,
    f2: RefList<Func>,
    g2: RefList<Global>,
)
    requires
        emits_code(gc, code, t1, f1, g1),
        t1.slots() == t2.slots(),
        f1.slots() == f2.slots(),
        g1.slots() == g2.slots(),
        forall|h: EntryRef| t1.valid(h) ==> #[trigger] t2.order_of(h) == t1.order_of(h),
        forall|h: EntryRef| f1.valid(h) ==> #[trigger] f2.order_of(h) == f1.order_of(h),
        forall|h: EntryRef| g1.valid(h) ==> #[trigger] g2.order_of(h) == g1.order_of(h),
    ensures
        emits_code(gc, code, t2, f2, g2),
{
    assert forall|k: int| 0 <= k < code.len() implies (emitted(#[trigger] gc[k], t2, f2, g2) matches Some(e)
        && same_instruction(e, code[k])) by {
        lemma_emitted_stable(gc[k], t1, f1, g1, t2, f2, g2);
    }
}

fn handle_of<T>(list: &RefList<T>, x: u32) -> (r: EntryRef)
    requires
        list.wf(),
        x < list.spec_len(),
    ensures
        position_of(*list, r) == Some(x as usize),
        r == list.at(x as int),
{
    list.get(x as usize).unwrap()
}

fn mapped_code(
    types: &RefList<FunctionType>,
    funcs: &RefList<Func>,
    globals: &RefList<Global>,
    code: &Vec<Instruction>,
) -> (r: Vec<GraphInstruction>)
    requires
        types.wf(),
        funcs.wf(),
        globals.wf(),
        code_resolves(code@, types.spec_len(), funcs.spec_len(), globals.spec_len()),
    ensures
        emits_code(r@, code@, *types, *funcs, *globals),
{
    match map_code(types, funcs, globals, code) {
        Ok(c) => c,
        Err(_) => vstd::pervasive::unreached(),
    }
}

impl GraphModule {
    /// Builds the graph of `module`, with every index turned into a handle.
    pub fn from_elements(module: &Module) -> (g: GraphModule)
        requires
            module.imports@.len() <= u32::MAX,
            crate::elements::functions_space(*module) <= u32::MAX,
            crate::elements::globals_space(*module) <= u32::MAX,
            table_count(*module) <= u32::MAX,
            memory_count(*module) <= u32::MAX,
            ingestible(*module),
        ensures
            ingested(*module, g),
    {
        let m = module;
        let mut types: RefList<FunctionType> = RefList::new();
        let mut i: usize = 0;
        while i < m.types.len()
            invariant
                types.wf(),
                i <= m.types@.len(),
                types.spec_len() == i,
                forall|k: int|
                    0 <= k < i ==> (#[trigger] types.value_of(types.at(k))).params@ == m.types@[k].params@
                        && types.value_of(types.at(k)).return_type == m.types@[k].return_type,
            decreases m.types@.len() - i,
        {
            let ghost t0 = types;
            types.push(copy_type(&m.types[i]));
            proof {
                assert forall|k: int| 0 <= k < i + 1 implies (#[trigger] types.value_of(types.at(k))).params@ == m.types@[k].params@
                    && types.value_of(types.at(k)).return_type == m.types@[k].return_type by {
                    if k < i {
                        lemma_push_keeps(t0, types, k);
                    }
                }
            }
            i = i + 1;
        }
        let ghost types_built = types;
        let mut funcs: RefList<Func> = RefList::new();
        let mut globals: RefList<Global> = RefList::new();
        let mut memory: RefList<Memory> = RefList::new();
        let mut tables: RefList<Table> = RefList::new();
        let ghost nt = m.types@.len();
        let mut i: usize = 0;
        while i < m.imports.len()
            invariant
                ingestible(*m),
                types.wf() && funcs.wf() && globals.wf() && memory.wf() && tables.wf(),
                types.spec_len() == nt,
                nt == m.types@.len(),
                i <= m.imports@.len(),
                funcs.spec_len() == crate::elements::func_imports_in(m.imports@, i as int),
                globals.spec_len() == crate::elements::global_imports_in(m.imports@, i as int),
                tables.spec_len() == kind_count(m.imports@, i as int, 3),
                memory.spec_len() == kind_count(m.imports@, i as int, 2),
                forall|k: int| 0 <= k < funcs.spec_len() ==> (#[trigger] funcs.value_of(funcs.at(k))).origin is Imported,
                forall|k: int| 0 <= k < funcs.spec_len() ==> pos_ok(types, (#[trigger] funcs.value_of(funcs.at(k))).type_ref),
                forall|k: int| 0 <= k < globals.spec_len() ==> (#[trigger] globals.value_of(globals.at(k))).origin is Imported,
                forall|k: int| 0 <= k < memory.spec_len() ==> (#[trigger] memory.value_of(memory.at(k))).origin is Imported,
                forall|k: int| 0 <= k < tables.spec_len() ==> (#[trigger] tables.value_of(tables.at(k))).origin is Imported,
                collect(funcs, funcs.spec_len() as int, func_import(types)) == imports_of_kind(m.imports@, 0, i as int),
                collect(globals, globals.spec_len() as int, global_import()) == imports_of_kind(m.imports@, 1, i as int),
                collect(memory, memory.spec_len() as int, memory_import()) == imports_of_kind(m.imports@, 2, i as int),
                collect(tables, tables.spec_len() as int, table_import()) == imports_of_kind(m.imports@, 3, i as int),
            decreases m.imports@.len() - i,
        {
            let e = &m.imports[i];
            match e.external {
                External::Function(t) => {
                    assert(m.imports@[i as int].external matches External::Function(t2) && t2 < nt);
                    let type_ref = handle_of(&types, t);
                    let ghost f0 = funcs;
                    let v = Func { type_ref, origin: ImportedOrDeclared::Imported(e.module.clone(), e.field.clone()) };
                    let ghost gv = v;
                    funcs.push(v);
                    proof {
                        assert forall|k: int| 0 <= k < funcs.spec_len() implies (#[trigger] funcs.value_of(funcs.at(k))).origin is Imported
                            && pos_ok(types, funcs.value_of(funcs.at(k)).type_ref) by {
                            if k < f0.spec_len() {
                                lemma_push_keeps(f0, funcs, k);
                            }
                        }
                        lemma_collect_push(f0, funcs, func_import(types));
                        assert(funcs.value_of(funcs.at(f0.spec_len() as int)) == gv);
                        assert(func_import(types)(gv) == Some(m.imports@[i as int]));
                    }
                },
                External::Global(gt) => {
                    let ghost l0 = globals;
                    let v = Global { global_type: gt, origin: ImportedOrDeclared::Imported(e.module.clone(), e.field.clone()) };
                    let ghost gv = v;
                    globals.push(v);
                    proof {
                        assert forall|k: int| 0 <= k < globals.spec_len() implies (#[trigger] globals.value_of(globals.at(k))).origin is Imported by {
                            if k < l0.spec_len() {
                                lemma_push_keeps(l0, globals, k);
                            }
                        }
                        lemma_collect_push(l0, globals, global_import());
                        assert(globals.value_of(globals.at(l0.spec_len() as int)) == gv);
                        assert(global_import()(gv) == Some(m.imports@[i as int]));
                    }
                },
                External::Memory(l) => {
                    let ghost l0 = memory;
                    let v = Memory { limits: l, origin: ImportedOrDeclared::Imported(e.module.clone(), e.field.clone()) };
                    let ghost gv = v;
                    memory.push(v);
                    proof {
                        assert forall|k: int| 0 <= k < memory.spec_len() implies (#[trigger] memory.value_of(memory.at(k))).origin is Imported by {
                            if k < l0.spec_len() {
                                lemma_push_keeps(l0, memory, k);
                            }
                        }
                        lemma_collect_push(l0, memory, memory_import());
                        assert(memory.value_of(memory.at(l0.spec_len() as int)) == gv);
                        assert(memory_import()(gv) == Some(m.imports@[i as int]));
                    }
                },
                External::Table(l) => {
                    let ghost l0 = tables;
                    let v = Table { limits: l, origin: ImportedOrDeclared::Imported(e.module.clone(), e.field.clone()) };
                    let ghost gv = v;
                    tables.push(v);
                    proof {
                        assert forall|k: int| 0 <= k < tables.spec_len() implies (#[trigger] tables.value_of(tables.at(k))).origin is Imported by {
                            if k < l0.spec_len() {
                                lemma_push_keeps(l0, tables, k);
                            }
                        }
                        lemma_collect_push(l0, tables, table_import());
                        assert(tables.value_of(tables.at(l0.spec_len() as int)) == gv);
                        assert(table_import()(gv) == Some(m.imports@[i as int]));
                    }
                },
            }
            i = i + 1;
        }
        let fic_e = funcs.len();
        let ghost fic = funcs.spec_len();
        let mut d: usize = 0;
        while d < m.functions.len()
            invariant
                ingestible(*m),
                types.wf() && funcs.wf(),
                types.spec_len() == nt,
                nt == m.types@.len(),
                fic == crate::elements::func_import_count(*m),
                d <= m.functions@.len(),
                funcs.spec_len() == fic + d,
                forall|k: int| 0 <= k < fic ==> (#[trigger] funcs.value_of(funcs.at(k))).origin is Imported,
                forall|k: int|
                    0 <= k < d ==> position_of(types, (#[trigger] funcs.value_of(funcs.at(fic + k))).type_ref) == Some(m.functions@[k] as usize)
                        && funcs.value_of(funcs.at(fic + k)).origin is Declared,
                forall|k: int| 0 <= k < funcs.spec_len() ==> pos_ok(types, (#[trigger] funcs.value_of(funcs.at(k))).type_ref),
                collect(funcs, funcs.spec_len() as int, func_import(types)) == imports_of_kind(m.imports@, 0, m.imports@.len() as int),
                crate::elements::functions_space(*m) <= u32::MAX,
            decreases m.functions@.len() - d,
        {
            let type_ref = handle_of(&types, m.functions[d]);
            let ghost f0 = funcs;
            funcs.push(Func { type_ref, origin: ImportedOrDeclared::Declared(GraphBody { locals: Vec::new(), code: Vec::new() }) });
            proof {
                lemma_collect_push(f0, funcs, func_import(types));
                assert forall|k: int| 0 <= k < funcs.spec_len() implies pos_ok(types, (#[trigger] funcs.value_of(funcs.at(k))).type_ref) by {
                    if k < f0.spec_len() {
                        lemma_push_keeps(f0, funcs, k);
                    }
                }
                assert forall|k: int| 0 <= k < fic implies (#[trigger] funcs.value_of(funcs.at(k))).origin is Imported by {
                    lemma_push_keeps(f0, funcs, k);
                }
                assert forall|k: int| 0 <= k < d + 1 implies position_of(types, (#[trigger] funcs.value_of(funcs.at(fic + k))).type_ref) == Some(m.functions@[k] as usize)
                    && funcs.value_of(funcs.at(fic + k)).origin is Declared by {
                    if k < d {
                        lemma_push_keeps(f0, funcs, fic + k);
                    }
                }
            }
            d = d + 1;
        }
        proof {
            lemma_collect_none(tables, tables.spec_len() as int, declared_table());
            lemma_collect_none(memory, memory.spec_len() as int, declared_memory());
            assert(m.tables@.subrange(0, 0) =~= Seq::<Limits>::empty());
            assert(m.memories@.subrange(0, 0) =~= Seq::<Limits>::empty());
        }
        let mut i: usize = 0;
        while i < m.tables.len()
            invariant
                tables.wf(),
                i <= m.tables@.len(),
                tables.spec_len() == kind_count(m.imports@, m.imports@.len() as int, 3) + i,
                collect(tables, tables.spec_len() as int, table_import()) == imports_of_kind(m.imports@, 3, m.imports@.len() as int),
                collect(tables, tables.spec_len() as int, declared_table()) == m.tables@.subrange(0, i as int),
            decreases m.tables@.len() - i,
        {
            let ghost l0 = tables;
            let v = Table { limits: m.tables[i], origin: ImportedOrDeclared::Declared(()) };
            let ghost gv = v;
            tables.push(v);
            proof {
                lemma_collect_push(l0, tables, table_import());
                lemma_collect_push(l0, tables, declared_table());
                assert(tables.value_of(tables.at(l0.spec_len() as int)) == gv);
                assert(m.tables@.subrange(0, i + 1) =~= m.tables@.subrange(0, i as int).push(m.tables@[i as int]));
            }
            i = i + 1;
        }
        let mut i: usize = 0;
        while i < m.memories.len()
            invariant
                memory.wf(),
                i <= m.memories@.len(),
                memory.spec_len() == kind_count(m.imports@, m.imports@.len() as int, 2) + i,
                collect(memory, memory.spec_len() as int, memory_import()) == imports_of_kind(m.imports@, 2, m.imports@.len() as int),
                collect(memory, memory.spec_len() as int, declared_memory()) == m.memories@.subrange(0, i as int),
            decreases m.memories@.len() - i,
        {
            let ghost l0 = memory;
            let v = Memory { limits: m.memories[i], origin: ImportedOrDeclared::Declared(()) };
            let ghost gv = v;
            memory.push(v);
            proof {
                lemma_collect_push(l0, memory, memory_import());
                lemma_collect_push(l0, memory, declared_memory());
                assert(memory.value_of(memory.at(l0.spec_len() as int)) == gv);
                assert(m.memories@.subrange(0, i + 1) =~= m.memories@.subrange(0, i as int).push(m.memories@[i as int]));
            }
            i = i + 1;
        }
        proof {
            assert(m.tables@.subrange(0, m.tables@.len() as int) =~= m.tables@);
            assert(m.memories@.subrange(0, m.memories@.len() as int) =~= m.memories@);
        }
        let gic_e = globals.len();
        let ghost gic = globals.spec_len();
        let mut i: usize = 0;
        while i < m.globals.len()
            invariant
                globals.wf(),
                gic == crate::elements::global_import_count(*m),
                i <= m.globals@.len(),
                globals.spec_len() == gic + i,
                collect(globals, globals.spec_len() as int, global_import()) == imports_of_kind(m.imports@, 1, m.imports@.len() as int),
                forall|k: int| 0 <= k < gic ==> (#[trigger] globals.value_of(globals.at(k))).origin is Imported,
                forall|d: int|
                    0 <= d < i ==> (#[trigger] globals.value_of(globals.at(gic + d))).global_type == m.globals@[d].global_type
                        && globals.value_of(globals.at(gic + d)).origin is Declared,
            decreases m.globals@.len() - i,
        {
            let ghost l0 = globals;
            globals.push(Global { global_type: m.globals[i].global_type, origin: ImportedOrDeclared::Declared(Vec::new()) });
            proof {
                lemma_collect_push(l0, globals, global_import());
                assert forall|k: int| 0 <= k < gic implies (#[trigger] globals.value_of(globals.at(k))).origin is Imported by {
                    lemma_push_keeps(l0, globals, k);
                }
                assert forall|d: int|
                    0 <= d < i + 1 implies (#[trigger] globals.value_of(globals.at(gic + d))).global_type == m.globals@[d].global_type
                        && globals.value_of(globals.at(gic + d)).origin is Declared by {
                    if d < i {
                        lemma_push_keeps(l0, globals, gic + d);
                    }
                }
            }
            i = i + 1;
        }
        let mut i: usize = 0;
        while i < m.globals.len()
            invariant
                ingestible(*m),
                types.wf() && funcs.wf() && globals.wf(),
                types.spec_len() == nt,
                nt == m.types@.len(),
                funcs.spec_len() == crate::elements::functions_space(*m),
                globals.spec_len() == crate::elements::globals_space(*m),
                gic_e == gic,
                gic == crate::elements::global_import_count(*m),
                crate::elements::globals_space(*m) <= u32::MAX,
                i <= m.globals@.len(),
                collect(globals, globals.spec_len() as int, global_import()) == imports_of_kind(m.imports@, 1, m.imports@.len() as int),
                forall|k: int| 0 <= k < gic ==> (#[trigger] globals.value_of(globals.at(k))).origin is Imported,
                forall|d: int|
                    0 <= d < m.globals@.len() ==> (#[trigger] globals.value_of(globals.at(gic + d))).global_type == m.globals@[d].global_type
                        && globals.value_of(globals.at(gic + d)).origin is Declared,
                forall|d: int|
                    0 <= d < i ==> ((#[trigger] globals.value_of(globals.at(gic + d))).origin matches ImportedOrDeclared::Declared(init)
                        && emits_code(init@, m.globals@[d].init_expr@, types, funcs, globals)),
            decreases m.globals@.len() - i,
        {
            let init = mapped_code(&types, &funcs, &globals, &m.globals[i].init_expr);
            let h = handle_of(&globals, (gic_e + i) as u32);
            let ghost l0 = globals;
            let ghost ginit = init@;
            globals.set_value(&h, Global { global_type: m.globals[i].global_type, origin: ImportedOrDeclared::Declared(init) });
            proof {
                lemma_collect_set(l0, globals, h, global_import());
                l0.lemma_at(gic + i);
                assert forall|k: int| 0 <= k < gic implies (#[trigger] globals.value_of(globals.at(k))).origin is Imported by {
                    l0.lemma_at(k);
                    assert(globals.order_of(l0.at(k)) == l0.order_of(l0.at(k)));
                }
                assert forall|d: int|
                    0 <= d < m.globals@.len() implies (#[trigger] globals.value_of(globals.at(gic + d))).global_type == m.globals@[d].global_type
                        && globals.value_of(globals.at(gic + d)).origin is Declared by {
                    l0.lemma_at(gic + d);
                    assert(globals.order_of(l0.at(gic + d)) == l0.order_of(l0.at(gic + d)));
                }
                assert forall|d: int|
                    0 <= d < i + 1 implies ((#[trigger] globals.value_of(globals.at(gic + d))).origin matches ImportedOrDeclared::Declared(init)
                        && emits_code(init@, m.globals@[d].init_expr@, types, funcs, globals)) by {
                    l0.lemma_at(gic + d);
                    assert(globals.order_of(l0.at(gic + d)) == l0.order_of(l0.at(gic + d)));
                    if d < i {
                        assert(l0.at(gic + d) != h);
                        let old_init = l0.value_of(l0.at(gic + d)).origin->Declared_0;
                        lemma_emits_code_stable(old_init@, m.globals@[d].init_expr@, types, funcs, l0, types, funcs, globals);
                    } else {
                        lemma_emits_code_stable(ginit, m.globals@[d].init_expr@, types, funcs, l0, types, funcs, globals);
                    }
                }
            }
            i = i + 1;
        }
        let ghost fs = funcs.spec_len();
        let mut d: usize = 0;
        let ghost types_final = types;
        let ghost globals_final = globals;
        while d < m.code.len()
            invariant
                ingestible(*m),
                types.wf() && funcs.wf() && globals.wf(),
                types == types_final,
                globals == globals_final,
                types.spec_len() == nt,
                nt == m.types@.len(),
                fic == crate::elements::func_import_count(*m),
                fic_e == fic,
                gic == crate::elements::global_import_count(*m),
                fs == crate::elements::functions_space(*m),
                fs <= u32::MAX,
                funcs.spec_len() == fs,
                globals.spec_len() == crate::elements::globals_space(*m),
                d <= m.code@.len(),
                m.code@.len() == m.functions@.len(),
                forall|k: int| 0 <= k < fic ==> (#[trigger] funcs.value_of(funcs.at(k))).origin is Imported,
                forall|k: int|
                    0 <= k < m.functions@.len() ==> position_of(types, (#[trigger] funcs.value_of(funcs.at(fic + k))).type_ref) == Some(m.functions@[k] as usize)
                        && funcs.value_of(funcs.at(fic + k)).origin is Declared,
                forall|k: int|
                    0 <= k < d ==> ((#[trigger] funcs.value_of(funcs.at(fic + k))).origin matches ImportedOrDeclared::Declared(body)
                        && body.locals@ == m.code@[k].locals@ && emits_code(body.code@, m.code@[k].code@, types, funcs, globals)),
                forall|k: int| 0 <= k < funcs.spec_len() ==> pos_ok(types, (#[trigger] funcs.value_of(funcs.at(k))).type_ref),
                collect(funcs, funcs.spec_len() as int, func_import(types)) == imports_of_kind(m.imports@, 0, m.imports@.len() as int),
                forall|dd: int|
                    0 <= dd < m.globals@.len() ==> ((#[trigger] globals.value_of(globals.at(gic + dd))).origin matches ImportedOrDeclared::Declared(init)
                        && emits_code(init@, m.globals@[dd].init_expr@, types, funcs, globals)),
            decreases m.code@.len() - d,
        {
            let code = mapped_code(&types, &funcs, &globals, &m.code[d].code);
            let locals = copy_value_types(&m.code[d].locals);
            let h = handle_of(&funcs, (fic_e + d) as u32);
            let type_ref = funcs.read(&h).value().type_ref;
            let ghost f0 = funcs;
            funcs.set_value(&h, Func { type_ref, origin: ImportedOrDeclared::Declared(GraphBody { locals, code }) });
            proof {
                assert forall|k: int| 0 <= k < fic implies (#[trigger] funcs.value_of(funcs.at(k))).origin is Imported by {
                    f0.lemma_at(k);
                    assert(f0.at(k) != h) by {
                        f0.lemma_at(fic + d);
                    }
                    assert(funcs.order_of(f0.at(k)) == f0.order_of(f0.at(k)));
                }
                assert forall|k: int| 0 <= k < m.functions@.len() implies position_of(types, (#[trigger] funcs.value_of(funcs.at(fic + k))).type_ref) == Some(m.functions@[k] as usize)
                    && funcs.value_of(funcs.at(fic + k)).origin is Declared by {
                    f0.lemma_at(fic + k);
                    assert(funcs.order_of(f0.at(fic + k)) == f0.order_of(f0.at(fic + k)));
                }
                assert forall|k: int| 0 <= k < d + 1 implies ((#[trigger] funcs.value_of(funcs.at(fic + k))).origin matches ImportedOrDeclared::Declared(body)
                    && body.locals@ == m.code@[k].locals@ && emits_code(body.code@, m.code@[k].code@, types, funcs, globals)) by {
                    f0.lemma_at(fic + k);
                    assert(funcs.order_of(f0.at(fic + k)) == f0.order_of(f0.at(fic + k)));
                    if k < d {
                        f0.lemma_at(fic + d);
                        assert(f0.at(fic + k) != h);
                        let body = f0.value_of(f0.at(fic + k)).origin->Declared_0;
                        lemma_emits_code_stable(body.code@, m.code@[k].code@, types, f0, globals, types, funcs, globals);
                    } else {
                        lemma_emits_code_stable(code@, m.code@[k].code@, types, f0, globals, types, funcs, globals);
                    }
                }
                f0.lemma_at(fic + d);
                lemma_collect_set(f0, funcs, h, func_import(types));
                assert forall|k: int| 0 <= k < funcs.spec_len() implies pos_ok(types, (#[trigger] funcs.value_of(funcs.at(k))).type_ref) by {
                    f0.lemma_at(k);
                    assert(funcs.order_of(f0.at(k)) == f0.order_of(f0.at(k)));
                }
                assert forall|dd: int|
                    0 <= dd < m.globals@.len() implies ((#[trigger] globals.value_of(globals.at(gic + dd))).origin matches ImportedOrDeclared::Declared(init)
                        && emits_code(init@, m.globals@[dd].init_expr@, types, funcs, globals)) by {
                    let init = globals.value_of(globals.at(gic + dd)).origin->Declared_0;
                    lemma_emits_code_stable(init@, m.globals@[dd].init_expr@, types, f0, globals, types, funcs, globals);
                }
            }
            d = d + 1;
        }
        let mut exports: Vec<Export> = Vec::new();
        let mut i: usize = 0;
        while i < m.exports.len()
            invariant
                ingestible(*m),
                funcs.wf() && globals.wf() && tables.wf() && memory.wf(),
                funcs.spec_len() == crate::elements::functions_space(*m),
                globals.spec_len() == crate::elements::globals_space(*m),
                tables.spec_len() == table_count(*m),
                memory.spec_len() == memory_count(*m),
                i <= m.exports@.len(),
                exports@.len() == i,
                forall|q: int| 0 <= q < i ==> export_ingested(#[trigger] m.exports@[q], exports@[q], funcs, globals, tables, memory),
            decreases m.exports@.len() - i,
        {
            let e = &m.exports[i];
            let local = match e.internal {
                Internal::Function(x) => ExportLocal::Func(handle_of(&funcs, x)),
                Internal::Global(x) => ExportLocal::Global(handle_of(&globals, x)),
                Internal::Table(x) => ExportLocal::Table(handle_of(&tables, x)),
                Internal::Memory(x) => ExportLocal::Memory(handle_of(&memory, x)),
            };
            exports.push(Export { name: e.field.clone(), local });
            i = i + 1;
        }
        let start = match m.start {
            Some(x) => Some(handle_of(&funcs, x)),
            None => None,
        };
        let mut elements: Vec<GraphElementSegment> = Vec::new();
        let mut i: usize = 0;
        while i < m.elements.len()
            invariant
                ingestible(*m),
                types.wf() && funcs.wf() && globals.wf(),
                types.spec_len() == m.types@.len(),
                funcs.spec_len() == crate::elements::functions_space(*m),
                globals.spec_len() == crate::elements::globals_space(*m),
                i <= m.elements@.len(),
                elements@.len() == i,
                forall|q: int|
                    0 <= q < i ==> {
                        let seg = #[trigger] elements@[q];
                        &&& emits_code(seg.offset@, m.elements@[q].offset@, types, funcs, globals)
                        &&& seg.members@.len() == m.elements@[q].members@.len()
                        &&& forall|j: int| 0 <= j < seg.members@.len() ==> position_of(funcs, #[trigger] seg.members@[j]) == Some(m.elements@[q].members@[j] as usize)
                    },
            decreases m.elements@.len() - i,
        {
            let seg = &m.elements[i];
            let offset = mapped_code(&types, &funcs, &globals, &seg.offset);
            let mut members: Vec<EntryRef> = Vec::new();
            let mut j: usize = 0;
            while j < seg.members.len()
                invariant
                    ingestible(*m),
                    funcs.wf(),
                    i < m.elements@.len(),
                    *seg == m.elements@[i as int],
                    funcs.spec_len() == crate::elements::functions_space(*m),
                    j <= seg.members@.len(),
                    members@.len() == j,
                    forall|q: int| 0 <= q < j ==> position_of(funcs, #[trigger] members@[q]) == Some(seg.members@[q] as usize),
                decreases seg.members@.len() - j,
            {
                members.push(handle_of(&funcs, seg.members[j]));
                j = j + 1;
            }
            elements.push(GraphElementSegment { offset, members });
            i = i + 1;
        }
        let mut data: Vec<GraphDataSegment> = Vec::new();
        let mut i: usize = 0;
        while i < m.data.len()
            invariant
                ingestible(*m),
                types.wf() && funcs.wf() && globals.wf(),
                types.spec_len() == m.types@.len(),
                funcs.spec_len() == crate::elements::functions_space(*m),
                globals.spec_len() == crate::elements::globals_space(*m),
                i <= m.data@.len(),
                data@.len() == i,
                forall|q: int|
                    0 <= q < i ==> emits_code((#[trigger] data@[q]).offset@, m.data@[q].offset@, types, funcs, globals)
                        && data@[q].value@ == m.data@[q].value@,
            decreases m.data@.len() - i,
        {
            let offset = mapped_code(&types, &funcs, &globals, &m.data[i].offset);
            data.push(GraphDataSegment { offset, value: copy_bytes(&m.data[i].value) });
            i = i + 1;
        }
        GraphModule { types, funcs, memory, tables, globals, start, exports, elements, data }
    }

    /// Positions, among the first `n` functions, of the declared ones.
    pub open spec fn declared(&self, n: int) -> Seq<int>
        decreases n,
    {
        if n <= 0 {
            Seq::empty()
        } else {
            let prev = self.declared(n - 1);
            if self.funcs.value_of(self.funcs.at(n - 1)).origin is Declared {
                prev.push(n - 1)
            } else {
                prev
            }
        }
    }

    /// Whether `m` is what this graph emits: each section in list order,
    /// imports grouped as functions, globals, memories and tables, each
    /// handle written as the position its entry holds.
    pub open spec fn emits(&self, m: Module) -> bool {
        let dec = self.declared(self.funcs.spec_len() as int);
        let dg = collect(self.globals, self.globals.spec_len() as int, declared_global());
        &&& m.types@.len() == self.types.spec_len()
        &&& forall|k: int|
            0 <= k < m.types@.len() ==> (#[trigger] m.types@[k]).params@ == self.types.value_of(self.types.at(k)).params@
                && m.types@[k].return_type == self.types.value_of(self.types.at(k)).return_type
        &&& m.imports@ == collect(self.funcs, self.funcs.spec_len() as int, func_import(self.types)) + collect(
            self.globals,
            self.globals.spec_len() as int,
            global_import(),
        ) + collect(self.memory, self.memory.spec_len() as int, memory_import()) + collect(
            self.tables,
            self.tables.spec_len() as int,
            table_import(),
        )
        &&& m.functions@.len() == dec.len()
        &&& m.code@.len() == dec.len()
        &&& forall|j: int|
            0 <= j < dec.len() ==> {
                let f = self.funcs.value_of(self.funcs.at(#[trigger] dec[j]));
                &&& position_of(self.types, f.type_ref) == Some(m.functions@[j] as usize)
                &&& f.origin matches ImportedOrDeclared::Declared(body) && m.code@[j].locals@ == body.locals@
                    && emission_of(m.code@[j].code@, body.code@, self.types, self.funcs, self.globals)
            }
        &&& m.globals@.len() == dg.len()
        &&& forall|j: int|
            0 <= j < dg.len() ==> (#[trigger] m.globals@[j]).global_type == dg[j].global_type
                && (dg[j].origin matches ImportedOrDeclared::Declared(init) && emission_of(
                m.globals@[j].init_expr@,
                init@,
                self.types,
                self.funcs,
                self.globals,
            ))
        &&& m.memories@ == collect(self.memory, self.memory.spec_len() as int, declared_memory())
        &&& m.tables@ == collect(self.tables, self.tables.spec_len() as int, declared_table())
        &&& match self.start {
            Some(h) => m.start matches Some(x) && position_of(self.funcs, h) == Some(x as usize),
            None => m.start is None,
        }
        &&& m.exports@.len() == self.exports@.len()
        &&& forall|i: int|
            0 <= i < m.exports@.len() ==> export_ingested(#[trigger] m.exports@[i], self.exports@[i], self.funcs, self.globals, self.tables, self.memory)
        &&& m.elements@.len() == self.elements@.len()
        &&& forall|i: int|
            0 <= i < m.elements@.len() ==> {
                let seg = #[trigger] self.elements@[i];
                &&& m.elements@[i].index == 0
                &&& emission_of(m.elements@[i].offset@, seg.offset@, self.types, self.funcs, self.globals)
                &&& m.elements@[i].members@.len() == seg.members@.len()
                &&& forall|j: int| 0 <= j < seg.members@.len() ==> position_of(self.funcs, #[trigger] seg.members@[j]) == Some(m.elements@[i].members@[j] as usize)
            }
        &&& m.data@.len() == self.data@.len()
        &&& forall|i: int| 0 <= i < m.data@.len() ==> data_emitted(#[trigger] m.data@[i], self.data@[i], self.types, self.funcs, self.globals)
    }

    /// Every handle that the graph holds names an entry at a position that
    /// fits an index.
    pub open spec fn attached(&self) -> bool {
        &&& forall|k: int|
            0 <= k < self.funcs.spec_len() ==> func_attached(*self, #[trigger] self.funcs.value_of(self.funcs.at(k)))
        &&& forall|k: int|
            0 <= k < self.globals.spec_len() ==> global_attached(*self, #[trigger] self.globals.value_of(self.globals.at(k)))
        &&& forall|i: int| 0 <= i < self.exports@.len() ==> export_attached(*self, #[trigger] self.exports@[i])
        &&& (self.start matches Some(h) ==> pos_ok(self.funcs, h))
        &&& forall|i: int| 0 <= i < self.elements@.len() ==> segment_attached(*self, #[trigger] self.elements@[i])
        &&& forall|i: int|
            0 <= i < self.data@.len() ==> all_emitted((#[trigger] self.data@[i]).offset@, self.types, self.funcs, self.globals)
    }

    /// Writes the module back with indices: each handle becomes the position
    /// of its entry. Imports come out grouped: functions, globals, memories,
    /// then tables. Fails exactly where a handle names no entry, or one at a
    /// position past the index range.
    pub fn generate(&self) -> (r: Result<Module, GraphError>)
        requires
            self.types.wf() && self.funcs.wf() && self.globals.wf() && self.memory.wf() && self.tables.wf(),
        ensures
            r matches Ok(m) ==> self.emits(m),
            self.attached() ==> r is Ok,
    {
        let mut types: Vec<FunctionType> = Vec::new();
        let mut k: usize = 0;
        while k < self.types.len()
            invariant
                self.types.wf(),
                k <= self.types.spec_len(),
                types@.len() == k,
                forall|q: int|
                    0 <= q < k ==> (#[trigger] types@[q]).params@ == self.types.value_of(self.types.at(q)).params@
                        && types@[q].return_type == self.types.value_of(self.types.at(q)).return_type,
            decreases self.types.spec_len() - k,
        {
            let h = self.types.get(k).unwrap();
            types.push(copy_type(self.types.read(&h).value()));
            k = k + 1;
        }
        let mut imports: Vec<ImportEntry> = Vec::new();
        let mut functions: Vec<u32> = Vec::new();
        let mut code: Vec<FuncBody> = Vec::new();
        let mut k: usize = 0;
        while k < self.funcs.len()
            invariant
                self.types.wf() && self.funcs.wf() && self.globals.wf(),
                k <= self.funcs.spec_len(),
                imports@ == collect(self.funcs, k as int, func_import(self.types)),
                functions@.len() == self.declared(k as int).len(),
                code@.len() == self.declared(k as int).len(),
                forall|j: int|
                    0 <= j < self.declared(k as int).len() ==> {
                        let f = self.funcs.value_of(self.funcs.at(#[trigger] self.declared(k as int)[j]));
                        &&& position_of(self.types, f.type_ref) == Some(functions@[j] as usize)
                        &&& f.origin matches ImportedOrDeclared::Declared(body) && code@[j].locals@ == body.locals@
                            && emission_of(code@[j].code@, body.code@, self.types, self.funcs, self.globals)
                    },
            decreases self.funcs.spec_len() - k,
        {
            let h = self.funcs.get(k).unwrap();
            let f = self.funcs.read(&h).value();
            let ghost fv = self.funcs.value_of(self.funcs.at(k as int));
            let t = match position_in(&self.types, &f.type_ref) {
                Ok(t) => t,
                Err(e) => {
                    proof {
                        assert(!func_attached(*self, fv));
                    }
                    return Err(e);
                },
            };
            let ghost before = self.declared(k as int);
            match &f.origin {
                ImportedOrDeclared::Imported(module, field) => {
                    imports.push(ImportEntry { module: module.clone(), field: field.clone(), external: External::Function(t) });
                },
                ImportedOrDeclared::Declared(body) => {
                    let c = match emit_code(&self.types, &self.funcs, &self.globals, &body.code) {
                        Ok(c) => c,
                        Err(e) => {
                            proof {
                                assert(!func_attached(*self, fv));
                            }
                            return Err(e);
                        },
                    };
                    functions.push(t);
                    code.push(FuncBody { locals: copy_value_types(&body.locals), code: c });
                    proof {
                        assert(self.declared(k + 1) == before.push(k as int));
                    }
                },
            }
            k = k + 1;
        }
        let ghost cf = imports@;
        let mut globals: Vec<GlobalEntry> = Vec::new();
        let mut k: usize = 0;
        while k < self.globals.len()
            invariant
                self.types.wf() && self.funcs.wf() && self.globals.wf(),
                k <= self.globals.spec_len(),
                imports@ == cf + collect(self.globals, k as int, global_import()),
                globals@.len() == collect(self.globals, k as int, declared_global()).len(),
                forall|j: int|
                    0 <= j < globals@.len() ==> {
                        let dg = collect(self.globals, k as int, declared_global());
                        &&& (#[trigger] globals@[j]).global_type == dg[j].global_type
                        &&& dg[j].origin matches ImportedOrDeclared::Declared(init) && emission_of(
                            globals@[j].init_expr@,
                            init@,
                            self.types,
                            self.funcs,
                            self.globals,
                        )
                    },
            decreases self.globals.spec_len() - k,
        {
            let h = self.globals.get(k).unwrap();
            let g = self.globals.read(&h).value();
            let ghost gv = self.globals.value_of(self.globals.at(k as int));
            let ghost dg0 = collect(self.globals, k as int, declared_global());
            match &g.origin {
                ImportedOrDeclared::Imported(module, field) => {
                    imports.push(ImportEntry { module: module.clone(), field: field.clone(), external: External::Global(g.global_type) });
                    proof {
                        assert(imports@ =~= cf + collect(self.globals, k + 1, global_import()));
                    }
                },
                ImportedOrDeclared::Declared(init) => {
                    let c = match emit_code(&self.types, &self.funcs, &self.globals, init) {
                        Ok(c) => c,
                        Err(e) => {
                            proof {
                                assert(!global_attached(*self, gv));
                            }
                            return Err(e);
                        },
                    };
                    globals.push(GlobalEntry { global_type: g.global_type, init_expr: c });
                    proof {
                        assert(collect(self.globals, k + 1, declared_global()) == dg0.push(gv));
                    }
                },
            }
            k = k + 1;
        }
        let ghost cg = imports@;
        let mut memories: Vec<Limits> = Vec::new();
        let mut k: usize = 0;
        while k < self.memory.len()
            invariant
                self.memory.wf(),
                k <= self.memory.spec_len(),
                imports@ == cg + collect(self.memory, k as int, memory_import()),
                memories@ == collect(self.memory, k as int, declared_memory()),
            decreases self.memory.spec_len() - k,
        {
            let h = self.memory.get(k).unwrap();
            let mem = self.memory.read(&h).value();
            match &mem.origin {
                ImportedOrDeclared::Imported(module, field) => {
                    imports.push(ImportEntry { module: module.clone(), field: field.clone(), external: External::Memory(mem.limits) });
                    proof {
                        assert(imports@ =~= cg + collect(self.memory, k + 1, memory_import()));
                    }
                },
                ImportedOrDeclared::Declared(_) => memories.push(mem.limits),
            }
            k = k + 1;
        }
        let ghost cm = imports@;
        let mut tables: Vec<Limits> = Vec::new();
        let mut k: usize = 0;
        while k < self.tables.len()
            invariant
                self.tables.wf(),
                k <= self.tables.spec_len(),
                imports@ == cm + collect(self.tables, k as int, table_import()),
                tables@ == collect(self.tables, k as int, declared_table()),
            decreases self.tables.spec_len() - k,
        {
            let h = self.tables.get(k).unwrap();
            let t = self.tables.read(&h).value();
            match &t.origin {
                ImportedOrDeclared::Imported(module, field) => {
                    imports.push(ImportEntry { module: module.clone(), field: field.clone(), external: External::Table(t.limits) });
                    proof {
                        assert(imports@ =~= cm + collect(self.tables, k + 1, table_import()));
                    }
                },
                ImportedOrDeclared::Declared(_) => tables.push(t.limits),
            }
            k = k + 1;
        }
        let mut exports: Vec<ExportEntry> = Vec::new();
        let mut k: usize = 0;
        while k < self.exports.len()
            invariant
                self.types.wf() && self.funcs.wf() && self.globals.wf() && self.memory.wf() && self.tables.wf(),
                k <= self.exports@.len(),
                exports@.len() == k,
                forall|q: int|
                    0 <= q < k ==> export_ingested(#[trigger] exports@[q], self.exports@[q], self.funcs, self.globals, self.tables, self.memory),
            decreases self.exports@.len() - k,
        {
            let e = &self.exports[k];
            let internal = match &e.local {
                ExportLocal::Func(h) => match position_in(&self.funcs, h) {
                    Ok(x) => Internal::Function(x),
                    Err(err) => {
                        proof {
                            assert(!export_attached(*self, self.exports@[k as int]));
                        }
                        return Err(err);
                    },
                },
                ExportLocal::Global(h) => match position_in(&self.globals, h) {
                    Ok(x) => Internal::Global(x),
                    Err(err) => {
                        proof {
                            assert(!export_attached(*self, self.exports@[k as int]));
                        }
                        return Err(err);
                    },
                },
                ExportLocal::Table(h) => match position_in(&self.tables, h) {
                    Ok(x) => Internal::Table(x),
                    Err(err) => {
                        proof {
                            assert(!export_attached(*self, self.exports@[k as int]));
                        }
                        return Err(err);
                    },
                },
                ExportLocal::Memory(h) => match position_in(&self.memory, h) {
                    Ok(x) => Internal::Memory(x),
                    Err(err) => {
                        proof {
                            assert(!export_attached(*self, self.exports@[k as int]));
                        }
                        return Err(err);
                    },
                },
            };
            exports.push(ExportEntry { field: e.name.clone(), internal });
            k = k + 1;
        }
        let start = match &self.start {
            Some(h) => match position_in(&self.funcs, h) {
                Ok(x) => Some(x),
                Err(err) => return Err(err),
            },
            None => None,
        };
        let mut elements: Vec<ElementSegment> = Vec::new();
        let mut k: usize = 0;
        while k < self.elements.len()
            invariant
                self.types.wf() && self.funcs.wf() && self.globals.wf(),
                k <= self.elements@.len(),
                elements@.len() == k,
                forall|q: int|
                    0 <= q < k ==> {
                        let seg = #[trigger] self.elements@[q];
                        &&& elements@[q].index == 0
                        &&& emission_of(elements@[q].offset@, seg.offset@, self.types, self.funcs, self.globals)
                        &&& elements@[q].members@.len() == seg.members@.len()
                        &&& forall|j: int| 0 <= j < seg.members@.len() ==> position_of(self.funcs, #[trigger] seg.members@[j]) == Some(elements@[q].members@[j] as usize)
                    },
            decreases self.elements@.len() - k,
        {
            let seg = &self.elements[k];
            let offset = match emit_code(&self.types, &self.funcs, &self.globals, &seg.offset) {
                Ok(c) => c,
                Err(err) => {
                    proof {
                        assert(!segment_attached(*self, self.elements@[k as int]));
                    }
                    return Err(err);
                },
            };
            let mut members: Vec<u32> = Vec::new();
            let mut j: usize = 0;
            while j < seg.members.len()
                invariant
                    self.funcs.wf(),
                    k < self.elements@.len(),
                    *seg == self.elements@[k as int],
                    j <= seg.members@.len(),
                    members@.len() == j,
                    forall|q: int| 0 <= q < j ==> position_of(self.funcs, #[trigger] seg.members@[q]) == Some(members@[q] as usize),
                decreases seg.members@.len() - j,
            {
                let x = match position_in(&self.funcs, &seg.members[j]) {
                    Ok(x) => x,
                    Err(err) => {
                        proof {
                            assert(!pos_ok(self.funcs, seg.members@[j as int]));
                            assert(!segment_attached(*self, self.elements@[k as int]));
                        }
                        return Err(err);
                    },
                };
                members.push(x);
                j = j + 1;
            }
            elements.push(ElementSegment { index: 0, offset, members });
            k = k + 1;
        }
        let mut data: Vec<DataSegment> = Vec::new();
        let mut k: usize = 0;
        while k < self.data.len()
            invariant
                self.types.wf() && self.funcs.wf() && self.globals.wf(),
                k <= self.data@.len(),
                data@.len() == k,
                forall|q: int| 0 <= q < k ==> data_emitted(#[trigger] data@[q], self.data@[q], self.types, self.funcs, self.globals),
            decreases self.data@.len() - k,
        {
            let seg = &self.data[k];
            let d = match emit_data(&self.types, &self.funcs, &self.globals, seg) {
                Ok(d) => d,
                Err(err) => return Err(err),
            };
            data.push(d);
            k = k + 1;
        }
        Ok(Module {
            types,
            imports,
            functions,
            tables,
            memories,
            globals,
            exports,
            start,
            elements,
            code,
            data,
        })
    }
}

pub open spec fn func_attached(g: GraphModule, f: Func) -> bool {
    &&& pos_ok(g.types, f.type_ref)
    &&& (f.origin matches ImportedOrDeclared::Declared(body) ==> all_emitted(body.code@, g.types, g.funcs, g.globals))
}

pub open spec fn global_attached(g: GraphModule, v: Global) -> bool {
    v.origin matches ImportedOrDeclared::Declared(init) ==> all_emitted(init@, g.types, g.funcs, g.globals)
}

pub open spec fn export_attached(g: GraphModule, x: Export) -> bool {
    match x.local {
        ExportLocal::Func(h) => pos_ok(g.funcs, h),
        ExportLocal::Global(h) => pos_ok(g.globals, h),
        ExportLocal::Table(h) => pos_ok(g.tables, h),
        ExportLocal::Memory(h) => pos_ok(g.memory, h),
    }
}

pub open spec fn segment_attached(g: GraphModule, seg: GraphElementSegment) -> bool {
    &&& all_emitted(seg.offset@, g.types, g.funcs, g.globals)
    &&& forall|j: int| 0 <= j < seg.members@.len() ==> pos_ok(g.funcs, #[trigger] seg.members@[j])
}

/// `d` is the data segment that `seg` emits: in memory 0, its offset
/// emitted, the same bytes.
pub open spec fn data_emitted(d: DataSegment, seg: GraphDataSegment, types: RefList<FunctionType>, funcs: RefList<Func>, globals: RefList<Global>) -> bool {
    &&& d.index == 0
    &&& emission_of(d.offset@, seg.offset@, types, funcs, globals)
    &&& d.value@ == seg.value@
}

fn emit_data(
    types: &RefList<FunctionType>,
    funcs: &RefList<Func>,
    globals: &RefList<Global>,
    seg: &GraphDataSegment,
) -> (r: Result<DataSegment, GraphError>)
    requires
        types.wf(),
        funcs.wf(),
        globals.wf(),
    ensures
        all_emitted(seg.offset@, *types, *funcs, *globals) <==> r is Ok,
        r matches Ok(d) ==> data_emitted(d, *seg, *types, *funcs, *globals),
{
    let offset = emit_code(types, funcs, globals, &seg.offset)?;
    Ok(DataSegment { index: 0, offset, value: copy_bytes(&seg.value) })
}

proof fn lemma_declared_ingested(m: Module, g: GraphModule, n: int)
    requires
        ingested(m, g),
        0 <= n <= g.funcs.spec_len(),
        m.code@.len() == m.functions@.len(),
    ensures
        g.declared(n) == Seq::new(
            (if n > crate::elements::func_import_count(m) { n - crate::elements::func_import_count(m) } else { 0 }) as nat,
            |j: int| crate::elements::func_import_count(m) + j,
        ),
    decreases n,
{
    let fic = crate::elements::func_import_count(m) as int;
    if n > 0 {
        lemma_declared_ingested(m, g, n - 1);
        if n - 1 < fic {
            assert(g.funcs.value_of(g.funcs.at(n - 1)).origin is Imported);
        } else {
            let d = n - 1 - fic;
            assert(g.funcs.value_of(g.funcs.at(fic + d)).origin is Declared);
        }
        assert(g.declared(n) =~= Seq::new(
            (if n > fic { n - fic } else { 0 }) as nat,
            |j: int| fic + j,
        ));
    }
}

/// Ingesting a module whose imports are grouped by kind and emitting it
/// again gives back every section: imports, types, functions with their
/// locals and code, tables, memories, globals with their initializers,
/// exports, the start function, element and data segments. Each index comes
/// back as it was.
pub proof fn lemma_round_trip(m: Module, g: GraphModule, m2: Module)
    requires
        ingestible(m),
        ingested(m, g),
        imports_grouped(m.imports@),
        g.emits(m2),
    ensures
        m2.imports@ == m.imports@,
        m2.memories@ == m.memories@,
        m2.tables@ == m.tables@,
        m2.globals@.len() == m.globals@.len(),
        forall|j: int|
            0 <= j < m.globals@.len() ==> (#[trigger] m2.globals@[j]).global_type == m.globals@[j].global_type
                && same_code(m2.globals@[j].init_expr@, m.globals@[j].init_expr@),
        forall|i: int|
            0 <= i < m.data@.len() ==> (#[trigger] m2.data@[i]).index == m.data@[i].index
                && m2.data@[i].value@ == m.data@[i].value@ && same_code(m2.data@[i].offset@, m.data@[i].offset@),
        m2.types@.len() == m.types@.len(),
        forall|k: int|
            0 <= k < m.types@.len() ==> (#[trigger] m2.types@[k]).params@ == m.types@[k].params@
                && m2.types@[k].return_type == m.types@[k].return_type,
        m2.functions@ == m.functions@,
        m2.code@.len() == m.code@.len(),
        forall|d: int|
            0 <= d < m.code@.len() ==> (#[trigger] m2.code@[d]).locals@ == m.code@[d].locals@ && same_code(
                m2.code@[d].code@,
                m.code@[d].code@,
            ),
        m2.start == m.start,
        m2.exports@.len() == m.exports@.len(),
        forall|i: int|
            0 <= i < m.exports@.len() ==> (#[trigger] m2.exports@[i]).field == m.exports@[i].field
                && m2.exports@[i].internal == m.exports@[i].internal,
        m2.elements@.len() == m.elements@.len(),
        forall|i: int|
            0 <= i < m.elements@.len() ==> (#[trigger] m2.elements@[i]).index == m.elements@[i].index
                && m2.elements@[i].members@ == m.elements@[i].members@ && same_code(
                m2.elements@[i].offset@,
                m.elements@[i].offset@,
            ),
        m2.data@.len() == m.data@.len(),
{
    let fic = crate::elements::func_import_count(m) as int;
    let fs = g.funcs.spec_len() as int;
    lemma_declared_ingested(m, g, fs);
    let dec = g.declared(fs);
    assert(dec.len() == m.functions@.len());
    assert forall|d: int|
        0 <= d < m.code@.len() implies (#[trigger] m2.code@[d]).locals@ == m.code@[d].locals@ && same_code(
            m2.code@[d].code@,
            m.code@[d].code@,
        ) by {
        assert(dec[d] == fic + d);
        let f = g.funcs.value_of(g.funcs.at(fic + d));
        let body = f.origin->Declared_0;
        assert forall|k: int| 0 <= k < m.code@[d].code@.len() implies same_instruction(
            #[trigger] m2.code@[d].code@[k],
            m.code@[d].code@[k],
        ) by {
            let e = emitted(body.code@[k], g.types, g.funcs, g.globals)->Some_0;
            assert(same_instruction(m2.code@[d].code@[k], e));
            assert(same_instruction(e, m.code@[d].code@[k]));
        }
    }
    assert forall|j: int| 0 <= j < m.functions@.len() implies m2.functions@[j] == m.functions@[j] by {
        assert(dec[j] == fic + j);
        let f = g.funcs.value_of(g.funcs.at(fic + j));
        assert(position_of(g.types, f.type_ref) == Some(m2.functions@[j] as usize));
    }
    assert(m2.functions@ =~= m.functions@);
    match m.start {
        Some(x) => {
            let h = g.start->Some_0;
            assert(position_of(g.funcs, h) == Some(x as usize));
        },
        None => {},
    }
    assert forall|i: int|
        0 <= i < m.exports@.len() implies (#[trigger] m2.exports@[i]).field == m.exports@[i].field
            && m2.exports@[i].internal == m.exports@[i].internal by {
        assert(export_ingested(m.exports@[i], g.exports@[i], g.funcs, g.globals, g.tables, g.memory));
        assert(export_ingested(m2.exports@[i], g.exports@[i], g.funcs, g.globals, g.tables, g.memory));
    }
    assert forall|i: int|
        0 <= i < m.elements@.len() implies (#[trigger] m2.elements@[i]).index == m.elements@[i].index
            && m2.elements@[i].members@ == m.elements@[i].members@ && same_code(
            m2.elements@[i].offset@,
            m.elements@[i].offset@,
        ) by {
        let seg = g.elements@[i];
        assert(m2.elements@[i].members@ =~= m.elements@[i].members@) by {
            assert forall|j: int| 0 <= j < seg.members@.len() implies m2.elements@[i].members@[j] == m.elements@[i].members@[j] by {
                assert(position_of(g.funcs, seg.members@[j]) == Some(m.elements@[i].members@[j] as usize));
                assert(position_of(g.funcs, seg.members@[j]) == Some(m2.elements@[i].members@[j] as usize));
            }
        }
        assert forall|k: int| 0 <= k < m.elements@[i].offset@.len() implies same_instruction(
            #[trigger] m2.elements@[i].offset@[k],
            m.elements@[i].offset@[k],
        ) by {
            let e = emitted(seg.offset@[k], g.types, g.funcs, g.globals)->Some_0;
            assert(same_instruction(m2.elements@[i].offset@[k], e));
            assert(same_instruction(e, m.elements@[i].offset@[k]));
        }
    }
    // imports
    lemma_grouped(m.imports@);
    assert(m2.imports@ == grouped_concat(m.imports@, m.imports@.len() as int));
    // globals
    let gic = crate::elements::global_import_count(m) as int;
    let gs = g.globals.spec_len() as int;
    assert forall|k: int| 0 <= k < gic implies declared_global()(#[trigger] g.globals.value_of(g.globals.at(k))) is None by {
        assert(g.globals.value_of(g.globals.at(k)).origin is Imported);
    }
    assert forall|k: int| gic <= k < gs implies declared_global()(#[trigger] g.globals.value_of(g.globals.at(k))) is Some by {
        let d = k - gic;
        assert(g.globals.value_of(g.globals.at(gic + d)).origin is Declared);
    }
    lemma_collect_tail(g.globals, gic, gs, declared_global());
    let dg = collect(g.globals, gs, declared_global());
    assert forall|j: int|
        0 <= j < m.globals@.len() implies (#[trigger] m2.globals@[j]).global_type == m.globals@[j].global_type
            && same_code(m2.globals@[j].init_expr@, m.globals@[j].init_expr@) by {
        let v = g.globals.value_of(g.globals.at(gic + j));
        assert(dg[j] == v);
        let init = v.origin->Declared_0;
        assert forall|k: int| 0 <= k < m.globals@[j].init_expr@.len() implies same_instruction(
            #[trigger] m2.globals@[j].init_expr@[k],
            m.globals@[j].init_expr@[k],
        ) by {
            let e = emitted(init@[k], g.types, g.funcs, g.globals)->Some_0;
            assert(same_instruction(m2.globals@[j].init_expr@[k], e));
            assert(same_instruction(e, m.globals@[j].init_expr@[k]));
        }
    }
    // data
    assert forall|i: int|
        0 <= i < m.data@.len() implies (#[trigger] m2.data@[i]).index == m.data@[i].index
            && m2.data@[i].value@ == m.data@[i].value@ && same_code(m2.data@[i].offset@, m.data@[i].offset@) by {
        let seg = g.data@[i];
        assert(data_emitted(m2.data@[i], seg, g.types, g.funcs, g.globals));
        assert forall|k: int| 0 <= k < m.data@[i].offset@.len() implies same_instruction(
            #[trigger] m2.data@[i].offset@[k],
            m.data@[i].offset@[k],
        ) by {
            let e = emitted(seg.offset@[k], g.types, g.funcs, g.globals)->Some_0;
            assert(same_instruction(m2.data@[i].offset@[k], e));
            assert(same_instruction(e, m.data@[i].offset@[k]));
        }
    }
}

/// The graph of a module has every handle attached, so emitting it succeeds.
pub proof fn lemma_ingested_attached(m: Module, g: GraphModule)
    requires
        ingestible(m),
        ingested(m, g),
    ensures
        g.attached(),
{
    let fic = crate::elements::func_import_count(m) as int;
    let gic = crate::elements::global_import_count(m) as int;
    assert forall|k: int| 0 <= k < g.funcs.spec_len() implies func_attached(g, #[trigger] g.funcs.value_of(g.funcs.at(k))) by {
        if k >= fic {
            let d = k - fic;
            assert(g.funcs.value_of(g.funcs.at(fic + d)).origin is Declared);
            let body = g.funcs.value_of(g.funcs.at(fic + d)).origin->Declared_0;
            assert forall|q: int| 0 <= q < body.code@.len() implies emitted(#[trigger] body.code@[q], g.types, g.funcs, g.globals) is Some by {
                assert(q < m.code@[d].code@.len());
            }
        } else {
            assert(g.funcs.value_of(g.funcs.at(k)).origin is Imported);
        }
    }
    assert forall|k: int| 0 <= k < g.globals.spec_len() implies global_attached(g, #[trigger] g.globals.value_of(g.globals.at(k))) by {
        if k >= gic {
            let d = k - gic;
            let init = g.globals.value_of(g.globals.at(gic + d)).origin->Declared_0;
            assert(g.globals.value_of(g.globals.at(gic + d)).origin is Declared);
            assert forall|q: int| 0 <= q < init@.len() implies emitted(#[trigger] init@[q], g.types, g.funcs, g.globals) is Some by {
                assert(q < m.globals@[d].init_expr@.len());
            }
        } else {
            assert(g.globals.value_of(g.globals.at(k)).origin is Imported);
        }
    }
    assert forall|i: int| 0 <= i < g.exports@.len() implies export_attached(g, #[trigger] g.exports@[i]) by {
        assert(export_ingested(m.exports@[i], g.exports@[i], g.funcs, g.globals, g.tables, g.memory));
    }
    assert forall|i: int| 0 <= i < g.elements@.len() implies segment_attached(g, #[trigger] g.elements@[i]) by {
        let seg = g.elements@[i];
        assert forall|q: int| 0 <= q < seg.offset@.len() implies emitted(#[trigger] seg.offset@[q], g.types, g.funcs, g.globals) is Some by {
            assert(q < m.elements@[i].offset@.len());
        }
        assert forall|j: int| 0 <= j < seg.members@.len() implies pos_ok(g.funcs, #[trigger] seg.members@[j]) by {
            assert(position_of(g.funcs, seg.members@[j]) == Some(m.elements@[i].members@[j] as usize));
        }
    }
    assert forall|i: int| 0 <= i < g.data@.len() implies all_emitted((#[trigger] g.data@[i]).offset@, g.types, g.funcs, g.globals) by {
        let seg = g.data@[i];
        assert forall|q: int| 0 <= q < seg.offset@.len() implies emitted(#[trigger] seg.offset@[q], g.types, g.funcs, g.globals) is Some by {
            assert(q < m.data@[i].offset@.len());
        }
    }
}

} // verus!
