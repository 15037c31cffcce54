//! The structural module: sections and entries of a WebAssembly module, with
//! every cross reference held as a plain index.
use vstd::prelude::*;

verus! {

/// Opcode of `i32.gt_u`.
pub const I32_GT_U: u8 = 0x4b;

/// Opcode of `i32.add`.
pub const I32_ADD: u8 = 0x6a;

/// Opcode of `i32.sub`.
pub const I32_SUB: u8 = 0x6b;

/// Opcode of `i32.mul`.
pub const I32_MUL: u8 = 0x6c;

#[derive(Clone, Copy, Debug, PartialEq, Eq)]
pub enum ValueType {
    I32,
    I64,
    F32,
    F64,
}

#[derive(Clone, Copy, Debug, PartialEq, Eq)]
pub enum BlockType {
    NoResult,
    Value(ValueType),
}

/// One instruction of a function body or of an initializer expression.
///
/// The numeric instructions (`i32.eqz` through `f64.reinterpret_i64`) take no
/// immediate and are held by their one-byte opcode; loads and stores by their
/// opcode and memory immediates. Float constants are held by their bits.
#[derive(Clone, Debug, PartialEq, Eq)]
pub enum Instruction {
    Unreachable,
    Nop,
    Block(BlockType),
    Loop(BlockType),
    If(BlockType),
    Else,
    End,
    Br(u32),
    BrIf(u32),
    BrTable(Vec<u32>, u32),
    Return,
    Call(u32),
    CallIndirect(u32, u8),
    Drop,
    Select,
    GetLocal(u32),
    SetLocal(u32),
    TeeLocal(u32),
    GetGlobal(u32),
    SetGlobal(u32),
    Load(u8, u32, u32),
    Store(u8, u32, u32),
    CurrentMemory(u8),
    GrowMemory(u8),
    I32Const(i32),
    I64Const(i64),
    F32Const(u32),
    F64Const(u64),
    Numeric(u8),
}

#[derive(Clone, Debug, PartialEq, Eq)]
pub struct FunctionType {
    pub params: Vec<ValueType>,
    pub return_type: Option<ValueType>,
}

#[derive(Clone, Copy, Debug, PartialEq, Eq)]
pub struct Limits {
    pub initial: u32,
    pub maximum: Option<u32>,
}

#[derive(Clone, Copy, Debug, PartialEq, Eq)]
pub struct GlobalType {
    pub content_type: ValueType,
    pub is_mutable: bool,
}

/// What an import brings in: a function (by its type index), a table, a
/// memory or a global.
#[derive(Clone, Debug, PartialEq, Eq)]
pub enum External {
    Function(u32),
    Table(Limits),
    Memory(Limits),
    Global(GlobalType),
}

#[derive(Clone, Debug, PartialEq, Eq)]
pub struct ImportEntry {
    pub module: String,
    pub field: String,
    pub external: External,
}

/// What an export names, by its index in the combined space of its kind.
#[derive(Clone, Copy, Debug, PartialEq, Eq)]
pub enum Internal {
    Function(u32),
    Table(u32),
    Memory(u32),
    Global(u32),
}

#[derive(Clone, Debug, PartialEq, Eq)]
pub struct ExportEntry {
    pub field: String,
    pub internal: Internal,
}

#[derive(Clone, Debug, PartialEq, Eq)]
pub struct GlobalEntry {
    pub global_type: GlobalType,
    pub init_expr: Vec<Instruction>,
}

/// A defined function's body: one value type per local (parameters not
/// included), and its instructions, the last of which closes the body.
#[derive(Clone, Debug, PartialEq, Eq)]
pub struct FuncBody {
    pub locals: Vec<ValueType>,
    pub code: Vec<Instruction>,
}

#[derive(Clone, Debug, PartialEq, Eq)]
pub struct ElementSegment {
    pub index: u32,
    pub offset: Vec<Instruction>,
    pub members: Vec<u32>,
}

#[derive(Clone, Debug, PartialEq, Eq)]
pub struct DataSegment {
    pub index: u32,
    pub offset: Vec<Instruction>,
    pub value: Vec<u8>,
}

/// A module as sections of entries. An absent section is an empty one.
/// `functions` holds the type index of each defined function, `code` its body,
/// in the same order.
#[derive(Clone, Debug, PartialEq, Eq)]
pub struct Module {
    pub types: Vec<FunctionType>,
    pub imports: Vec<ImportEntry>,
    pub functions: Vec<u32>,
    pub tables: Vec<Limits>,
    pub memories: Vec<Limits>,
    pub globals: Vec<GlobalEntry>,
    pub exports: Vec<ExportEntry>,
    pub start: Option<u32>,
    pub elements: Vec<ElementSegment>,
    pub code: Vec<FuncBody>,
    pub data: Vec<DataSegment>,
}

/// The items of `v` in reverse order.
pub fn reversed<T>(v: Vec<T>) -> (r: Vec<T>)
    ensures
        r@.len() == v@.len(),
        forall|j: int| 0 <= j < v@.len() ==> r@[j] == v@[v@.len() - 1 - j],
{
    let ghost orig = v@;
    let mut v = v;
    let mut r: Vec<T> = Vec::new();
    while v.len() > 0
        invariant
            v@ == orig.subrange(0, v@.len() as int),
            r@.len() + v@.len() == orig.len(),
            forall|j: int| 0 <= j < r@.len() ==> r@[j] == orig[orig.len() - 1 - j],
        decreases v@.len(),
    {
        let x = v.pop().unwrap();
        r.push(x);
        proof {
            assert(v@ =~= orig.subrange(0, v@.len() as int));
        }
    }
    r
}

pub open spec fn is_func_import(e: ImportEntry) -> bool {
    e.external is Function
}

pub open spec fn is_global_import(e: ImportEntry) -> bool {
    e.external is Global
}

/// Number of function imports among the first `n` imports.
pub open spec fn func_imports_in(imports: Seq<ImportEntry>, n: int) -> nat
    decreases n,
{
    if n <= 0 {
        0
    } else {
        func_imports_in(imports, n - 1) + if is_func_import(imports[n - 1]) {
            1nat
        } else {
            0nat
        }
    }
}

/// Number of global imports among the first `n` imports.
pub open spec fn global_imports_in(imports: Seq<ImportEntry>, n: int) -> nat
    decreases n,
{
    if n <= 0 {
        0
    } else {
        global_imports_in(imports, n - 1) + if is_global_import(imports[n - 1]) {
            1nat
        } else {
            0nat
        }
    }
}

pub open spec fn func_import_count(m: Module) -> nat {
    func_imports_in(m.imports@, m.imports@.len() as int)
}

pub open spec fn global_import_count(m: Module) -> nat {
    global_imports_in(m.imports@, m.imports@.len() as int)
}

/// Size of the combined function index space.
pub open spec fn functions_space(m: Module) -> nat {
    func_import_count(m) + m.functions@.len()
}

/// Size of the combined global index space.
pub open spec fn globals_space(m: Module) -> nat {
    global_import_count(m) + m.globals@.len()
}

pub proof fn lemma_func_imports_bounded(imports: Seq<ImportEntry>, n: int)
    requires
        0 <= n <= imports.len(),
    ensures
        func_imports_in(imports, n) <= n,
        global_imports_in(imports, n) <= n,
    decreases n,
{
    if n > 0 {
        lemma_func_imports_bounded(imports, n - 1);
    }
}

proof fn lemma_imports_prefix(s: Seq<ImportEntry>, e: ImportEntry, n: int)
    requires
        0 <= n <= s.len(),
    ensures
        func_imports_in(s.push(e), n) == func_imports_in(s, n),
        global_imports_in(s.push(e), n) == global_imports_in(s, n),
    decreases n,
{
    if n > 0 {
        lemma_imports_prefix(s, e, n - 1);
    }
}

/// Adding an import adds one to the count of its kind.
pub proof fn lemma_imports_push(s: Seq<ImportEntry>, e: ImportEntry)
    ensures
        func_imports_in(s.push(e), s.len() + 1int) == func_imports_in(s, s.len() as int) + if is_func_import(e) {
            1nat
        } else {
            0nat
        },
        global_imports_in(s.push(e), s.len() + 1int) == global_imports_in(s, s.len() as int)
            + if is_global_import(e) {
            1nat
        } else {
            0nat
        },
{
    lemma_imports_prefix(s, e, s.len() as int);
}

/// Imports of the same kinds, position by position, count the same.
pub proof fn lemma_same_kinds(a: Seq<ImportEntry>, b: Seq<ImportEntry>, n: int)
    requires
        0 <= n <= a.len(),
        a.len() == b.len(),
        forall|i: int| 0 <= i < a.len() ==> (#[trigger] a[i]).external == b[i].external,
    ensures
        func_imports_in(a, n) == func_imports_in(b, n),
        global_imports_in(a, n) == global_imports_in(b, n),
    decreases n,
{
    if n > 0 {
        lemma_same_kinds(a, b, n - 1);
        assert(a[n - 1].external == b[n - 1].external);
    }
}

/// Counts the function imports of a module.
pub fn func_import_count_of(m: &Module) -> (r: u32)
    requires
        m.imports@.len() <= u32::MAX,
    ensures
        r == func_import_count(*m),
{
    let mut i: usize = 0;
    let mut n: u32 = 0;
    while i < m.imports.len()
        invariant
            i <= m.imports@.len() <= u32::MAX,
            n == func_imports_in(m.imports@, i as int),
        decreases m.imports@.len() - i,
    {
        proof {
            lemma_func_imports_bounded(m.imports@, i as int);
        }
        if let External::Function(_) = m.imports[i].external {
            n = n + 1;
        }
        i = i + 1;
    }
    n
}

/// Counts the global imports of a module.
pub fn global_import_count_of(m: &Module) -> (r: u32)
    requires
        m.imports@.len() <= u32::MAX,
    ensures
        r == global_import_count(*m),
{
    let mut i: usize = 0;
    let mut n: u32 = 0;
    while i < m.imports.len()
        invariant
            i <= m.imports@.len() <= u32::MAX,
            n == global_imports_in(m.imports@, i as int),
        decreases m.imports@.len() - i,
    {
        proof {
            lemma_func_imports_bounded(m.imports@, i as int);
        }
        if let External::Global(_) = m.imports[i].external {
            n = n + 1;
        }
        i = i + 1;
    }
    n
}

} // verus!
