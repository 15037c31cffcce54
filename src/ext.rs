//! Smaller rewrites: importing the memory, importing exported functions from
//! the host, renaming function imports and exports, shrinking the stack,
//! and tagging a module with its runtime type.
use vstd::prelude::*;
use vstd::string::*;

use crate::elements::{
    func_import_count, func_import_count_of, functions_space, global_import_count,
    global_import_count_of, reversed, DataSegment, ElementSegment, ExportEntry,
    External, FuncBody, GlobalEntry, GlobalType, ImportEntry, Instruction, Internal, Limits, Module,
    ValueType,
};
use crate::optimizer::names_contain;
use crate::stack_height::position;

verus! {

/// The limits of the imported memory: the adjusted initial size with
/// `max_pages` as maximum, or the module's own limits with `max_pages` as
/// maximum where they have none.
pub open spec fn imported_limits(own: Limits, adjust_pages: Option<u32>, max_pages: u32) -> Limits {
    match adjust_pages {
        Some(a) => Limits { initial: a, maximum: Some(max_pages) },
        None => if own.maximum is None {
            Limits { initial: own.initial, maximum: Some(max_pages) }
        } else {
            own
        },
    }
}

/// The module's own memory, if it has one.
pub open spec fn own_memory(module: Module) -> Limits {
    if module.memories@.len() > 0 {
        module.memories@.last()
    } else {
        Limits { initial: 0, maximum: None }
    }
}

/// `r` is `module` with its own memory, if any, imported as `env.memory`.
pub open spec fn mem_externalized(module: Module, r: Module, adjust_pages: Option<u32>, max_pages: u32) -> bool {
    &&& r.memories@ == if module.memories@.len() > 0 { module.memories@.drop_last() } else { module.memories@ }
    &&& r.imports@.drop_last() == module.imports@
    &&& r.imports@.len() == module.imports@.len() + 1
    &&& r.imports@.last().module@ == "env"@
    &&& r.imports@.last().field@ == "memory"@
    &&& r.imports@.last().external == External::Memory(
        imported_limits(own_memory(module), adjust_pages, max_pages),
    )
    &&& r.types == module.types
    &&& r.functions == module.functions
    &&& r.tables == module.tables
    &&& r.globals == module.globals
    &&& r.exports == module.exports
    &&& r.start == module.start
    &&& r.elements == module.elements
    &&& r.code == module.code
    &&& r.data == module.data
}

/// Replaces the module's own memory by an imported `env.memory`; a module
/// without one needs the initial size in `adjust_pages`.
pub fn externalize_mem(module: Module, adjust_pages: Option<u32>, max_pages: u32) -> (r: Module)
    requires
        module.memories@.len() > 0 || adjust_pages is Some,
        adjust_pages matches Some(a) ==> a <= max_pages,
    ensures
        mem_externalized(module, r, adjust_pages, max_pages),
{
    let mut m = module;
    let mut entry = match m.memories.pop() {
        Some(e) => e,
        None => Limits { initial: 0, maximum: None },
    };
    if let Some(a) = adjust_pages {
        entry = Limits { initial: a, maximum: Some(max_pages) };
    }
    if entry.maximum.is_none() {
        entry = Limits { initial: entry.initial, maximum: Some(max_pages) };
    }
    m.imports.push(
        ImportEntry {
            module: "env".to_owned(),
            field: "memory".to_owned(),
            external: External::Memory(entry),
        },
    );
    proof {
        assert(m.imports@.drop_last() =~= module.imports@);
    }
    m
}

pub open spec fn underscored(name: Seq<char>) -> Seq<char> {
    seq!['_'] + name
}

fn with_underscore(name: String) -> (r: String)
    ensures
        r@ == underscored(name@),
{
    let r = "_".to_owned().concat(name.as_str());
    proof {
        reveal_strlit("_");
    }
    r
}

fn without_first(name: String) -> (r: String)
    requires
        name@.len() > 0,
    ensures
        r@ == name@.drop_first(),
{
    let n = name.as_str().unicode_len();
    let r = name.as_str().substring_char(1, n).to_owned();
    proof {
        assert(r@ =~= name@.drop_first());
    }
    r
}

/// Names of function imports and function exports, each changed by `add`
/// (a leading `_` added) or else by dropping the first character.
pub open spec fn renamed(m: Module, m2: Module, add: bool) -> bool {
    &&& m2.imports@.len() == m.imports@.len()
    &&& forall|i: int|
        0 <= i < m.imports@.len() ==> (#[trigger] m2.imports@[i]).module == m.imports@[i].module
            && m2.imports@[i].external == m.imports@[i].external && m2.imports@[i].field@ == if m.imports@[i].external is Function {
            if add {
                underscored(m.imports@[i].field@)
            } else {
                m.imports@[i].field@.drop_first()
            }
        } else {
            m.imports@[i].field@
        }
    &&& m2.exports@.len() == m.exports@.len()
    &&& forall|i: int|
        0 <= i < m.exports@.len() ==> (#[trigger] m2.exports@[i]).internal == m.exports@[i].internal
            && m2.exports@[i].field@ == if m.exports@[i].internal is Function {
            if add {
                underscored(m.exports@[i].field@)
            } else {
                m.exports@[i].field@.drop_first()
            }
        } else {
            m.exports@[i].field@
        }
    &&& m2.types == m.types
    &&& m2.functions == m.functions
    &&& m2.tables == m.tables
    &&& m2.memories == m.memories
    &&& m2.globals == m.globals
    &&& m2.start == m.start
    &&& m2.elements == m.elements
    &&& m2.code == m.code
    &&& m2.data == m.data
}

/// Every function import and function export has a non-empty name.
pub open spec fn func_names_nonempty(m: Module) -> bool {
    &&& forall|i: int|
        0 <= i < m.imports@.len() && (#[trigger] m.imports@[i]).external is Function
            ==> m.imports@[i].field@.len() > 0
    &&& forall|i: int|
        0 <= i < m.exports@.len() && (#[trigger] m.exports@[i]).internal is Function
            ==> m.exports@[i].field@.len() > 0
}

fn foreach_public_func_name(module: Module, add: bool) -> (r: Module)
    requires
        !add ==> func_names_nonempty(module),
    ensures
        renamed(module, r, add),
{
    let ghost m0 = module;
    let mut m = module;
    let mut imports: Vec<ImportEntry> = Vec::new();
    std::mem::swap(&mut imports, &mut m.imports);
    let n = imports.len();
    let mut rev = reversed(imports);
    let mut out: Vec<ImportEntry> = Vec::new();
    let mut i: usize = 0;
    while i < n
        invariant
            n == m0.imports@.len(),
            i <= n,
            !add ==> func_names_nonempty(m0),
            rev@.len() == n - i,
            forall|j: int| 0 <= j < rev@.len() ==> rev@[j] == m0.imports@[n - 1 - j],
            out@.len() == i,
            forall|j: int|
                0 <= j < i ==> (#[trigger] out@[j]).module == m0.imports@[j].module
                    && out@[j].external == m0.imports@[j].external && out@[j].field@ == if m0.imports@[j].external is Function {
                    if add {
                        underscored(m0.imports@[j].field@)
                    } else {
                        m0.imports@[j].field@.drop_first()
                    }
                } else {
                    m0.imports@[j].field@
                },
        decreases n - i,
    {
        let e = rev.pop().unwrap();
        let field = match e.external {
            External::Function(_) => if add {
                with_underscore(e.field)
            } else {
                without_first(e.field)
            },
            _ => e.field,
        };
        out.push(ImportEntry { module: e.module, field, external: e.external });
        i = i + 1;
    }
    m.imports = out;
    let mut exports: Vec<ExportEntry> = Vec::new();
    std::mem::swap(&mut exports, &mut m.exports);
    let n = exports.len();
    let mut rev = reversed(exports);
    let mut out: Vec<ExportEntry> = Vec::new();
    let mut i: usize = 0;
    while i < n
        invariant
            n == m0.exports@.len(),
            i <= n,
            !add ==> func_names_nonempty(m0),
            rev@.len() == n - i,
            forall|j: int| 0 <= j < rev@.len() ==> rev@[j] == m0.exports@[n - 1 - j],
            out@.len() == i,
            forall|j: int|
                0 <= j < i ==> (#[trigger] out@[j]).internal == m0.exports@[j].internal
                    && out@[j].field@ == if m0.exports@[j].internal is Function {
                    if add {
                        underscored(m0.exports@[j].field@)
                    } else {
                        m0.exports@[j].field@.drop_first()
                    }
                } else {
                    m0.exports@[j].field@
                },
        decreases n - i,
    {
        let e = rev.pop().unwrap();
        let field = match e.internal {
            Internal::Function(_) => if add {
                with_underscore(e.field)
            } else {
                without_first(e.field)
            },
            _ => e.field,
        };
        out.push(ExportEntry { field, internal: e.internal });
        i = i + 1;
    }
    m.exports = out;
    m
}

/// Adds a leading `_` to the name of every function import and export.
pub fn underscore_funcs(module: Module) -> (r: Module)
    ensures
        renamed(module, r, true),
{
    foreach_public_func_name(module, true)
}

/// Drops the first character of the name of every function import and export.
pub fn ununderscore_funcs(module: Module) -> (r: Module)
    requires
        func_names_nonempty(module),
    ensures
        renamed(module, r, false),
{
    foreach_public_func_name(module, false)
}

/// The unsigned integer that four bytes hold, least significant first.
pub open spec fn le_u32(b: Seq<u8>) -> nat {
    (b[0] + 256 * b[1] + 65536 * b[2] + 16777216 * b[3]) as nat
}

fn read_u32_le(b: &Vec<u8>) -> (r: u32)
    requires
        b@.len() == 4,
    ensures
        r == le_u32(b@),
{
    b[0] as u32 + 256 * (b[1] as u32) + 65536 * (b[2] as u32) + 16777216 * (b[3] as u32)
}

fn write_u32_le(v: u32) -> (r: Vec<u8>)
    ensures
        r@.len() == 4,
        le_u32(r@) == v,
{
    let r = vec![(v % 256) as u8, (v / 256 % 256) as u8, (v / 65536 % 256) as u8, (v / 16777216) as u8];
    proof {
        assert(r@.len() == 4);
        assert(le_u32(r@) == v) by (nonlinear_arith)
            requires
                r@[0] == v % 256,
                r@[1] == v / 256 % 256,
                r@[2] == v / 65536 % 256,
                r@[3] == v / 16777216,
                v <= u32::MAX,
        ;
    }
    r
}

/// Whether a data segment holds the stack top: offset `i32.const 4; end`.
pub open spec fn is_stack_top(seg: DataSegment) -> bool {
    seg.offset@.len() == 2 && seg.offset@[0] == Instruction::I32Const(4) && seg.offset@[1]
        == Instruction::End
}

/// The stack top that the first `n` data segments leave: that of the last
/// segment holding it, lowered by `shrink`, or 0.
pub open spec fn new_stack_top(data: Seq<DataSegment>, shrink: u32, n: int) -> nat
    decreases n,
{
    if n <= 0 {
        0
    } else if is_stack_top(data[n - 1]) {
        (le_u32(data[n - 1].value@) - shrink) as nat
    } else {
        new_stack_top(data, shrink, n - 1)
    }
}

/// `r` is `module` with the stack top lowered by `shrink`.
pub open spec fn stack_shrunk(module: Module, r: Module, shrink: u32) -> bool {
    &&& r.data@.len() == module.data@.len()
    &&& forall|i: int|
        0 <= i < module.data@.len() ==> (#[trigger] r.data@[i]).index == module.data@[i].index
            && r.data@[i].offset == module.data@[i].offset && if is_stack_top(module.data@[i]) {
            r.data@[i].value@.len() == 4 && le_u32(r.data@[i].value@) == le_u32(
                module.data@[i].value@,
            ) - shrink
        } else {
            r.data@[i].value == module.data@[i].value
        }
    &&& r.types == module.types
    &&& r.imports == module.imports
    &&& r.functions == module.functions
    &&& r.tables == module.tables
    &&& r.memories == module.memories
    &&& r.globals == module.globals
    &&& r.exports == module.exports
    &&& r.start == module.start
    &&& r.elements == module.elements
    &&& r.code == module.code
}

/// Every data segment holding the stack top holds four bytes, at least `shrink`.
pub open spec fn stack_top_ok(module: Module, shrink: u32) -> bool {
    forall|i: int|
        0 <= i < module.data@.len() && is_stack_top(#[trigger] module.data@[i]) ==> module.data@[i].value@.len()
            == 4 && le_u32(module.data@[i].value@) >= shrink
}

/// Lowers the stack top held in the data segment at offset 4 by
/// `shrink_amount`; returns the module and the new stack top (0 without one).
pub fn shrink_unknown_stack(module: Module, shrink_amount: u32) -> (r: (Module, u32))
    requires
        stack_top_ok(module, shrink_amount),
    ensures
        r.1 == new_stack_top(module.data@, shrink_amount, module.data@.len() as int),
        stack_shrunk(module, r.0, shrink_amount),
{
    let ghost m0 = module;
    let mut m = module;
    let mut data: Vec<DataSegment> = Vec::new();
    std::mem::swap(&mut data, &mut m.data);
    let n = data.len();
    let mut rev = reversed(data);
    let mut out: Vec<DataSegment> = Vec::new();
    let mut top: u32 = 0;
    let mut i: usize = 0;
    while i < n
        invariant
            n == m0.data@.len(),
            i <= n,
            forall|q: int|
                0 <= q < m0.data@.len() && is_stack_top(#[trigger] m0.data@[q]) ==> m0.data@[q].value@.len()
                    == 4 && le_u32(m0.data@[q].value@) >= shrink_amount,
            rev@.len() == n - i,
            forall|j: int| 0 <= j < rev@.len() ==> rev@[j] == m0.data@[n - 1 - j],
            out@.len() == i,
            top == new_stack_top(m0.data@, shrink_amount, i as int),
            forall|j: int|
                0 <= j < i ==> (#[trigger] out@[j]).index == m0.data@[j].index && out@[j].offset
                    == m0.data@[j].offset && if is_stack_top(m0.data@[j]) {
                    out@[j].value@.len() == 4 && le_u32(out@[j].value@) == le_u32(
                        m0.data@[j].value@,
                    ) - shrink_amount
                } else {
                    out@[j].value == m0.data@[j].value
                },
        decreases n - i,
    {
        let seg = rev.pop().unwrap();
        let at_four = seg.offset.len() == 2 && match (&seg.offset[0], &seg.offset[1]) {
            (Instruction::I32Const(4), Instruction::End) => true,
            _ => false,
        };
        if at_four {
            assert(is_stack_top(m0.data@[i as int]));
            let current = read_u32_le(&seg.value);
            let new_val = current - shrink_amount;
            out.push(DataSegment { index: seg.index, offset: seg.offset, value: write_u32_le(new_val) });
            top = new_val;
        } else {
            out.push(seg);
        }
        i = i + 1;
    }
    m.data = out;
    (m, top)
}

/// `r` is `module` tagged with the runtime type `runtime_type` and version.
pub open spec fn runtime_typed(module: Module, r: Module, runtime_type: Seq<u8>, runtime_version: u32) -> bool {
    let total = global_import_count(module) + module.globals@.len();
    let g = module.globals@.len() as int;
    let e = module.exports@.len() as int;
    let constant = GlobalType { content_type: ValueType::I32, is_mutable: false };
    &&& r.globals@.len() == g + 2
    &&& r.globals@.subrange(0, g) == module.globals@
    &&& r.globals@[g].global_type == constant
    &&& r.globals@[g].init_expr@ == seq![Instruction::I32Const(le_u32(runtime_type) as i32), Instruction::End]
    &&& r.globals@[g + 1].global_type == constant
    &&& r.globals@[g + 1].init_expr@ == seq![Instruction::I32Const(runtime_version as i32), Instruction::End]
    &&& r.exports@.len() == e + 2
    &&& r.exports@.subrange(0, e) == module.exports@
    &&& r.exports@[e].field@ == "RUNTIME_TYPE"@
    &&& r.exports@[e].internal == Internal::Global(total as u32)
    &&& r.exports@[e + 1].field@ == "RUNTIME_VERSION"@
    &&& r.exports@[e + 1].internal == Internal::Global((total + 1) as u32)
    &&& r.types == module.types
    &&& r.imports == module.imports
    &&& r.functions == module.functions
    &&& r.tables == module.tables
    &&& r.memories == module.memories
    &&& r.start == module.start
    &&& r.elements == module.elements
    &&& r.code == module.code
    &&& r.data == module.data
}

/// Tags a module with its runtime type and version: two immutable `i32`
/// globals, exported as `RUNTIME_TYPE` and `RUNTIME_VERSION`, the first
/// holding the four tag bytes read least significant first.
pub fn inject_runtime_type(module: Module, runtime_type: [u8; 4], runtime_version: u32) -> (r: Module)
    requires
        module.imports@.len() <= u32::MAX,
        global_import_count(module) + module.globals@.len() + 2 <= u32::MAX,
    ensures
        runtime_typed(module, r, runtime_type@, runtime_version),
{
    let tag: Vec<u8> = vec![runtime_type[0], runtime_type[1], runtime_type[2], runtime_type[3]];
    let rt = read_u32_le(&tag);
    proof {
        assert(tag@ =~= runtime_type@);
    }
    let total = global_import_count_of(&module) + module.globals.len() as u32;
    let mut m = module;
    let g0 = m.globals.len();
    let e0 = m.exports.len();
    m.globals.push(
        GlobalEntry {
            global_type: GlobalType { content_type: ValueType::I32, is_mutable: false },
            init_expr: vec![Instruction::I32Const(rt as i32), Instruction::End],
        },
    );
    m.exports.push(ExportEntry { field: "RUNTIME_TYPE".to_owned(), internal: Internal::Global(total) });
    m.globals.push(
        GlobalEntry {
            global_type: GlobalType { content_type: ValueType::I32, is_mutable: false },
            init_expr: vec![Instruction::I32Const(runtime_version as i32), Instruction::End],
        },
    );
    m.exports.push(
        ExportEntry { field: "RUNTIME_VERSION".to_owned(), internal: Internal::Global(total + 1) },
    );
    proof {
        assert(m.globals@.subrange(0, g0 as int) =~= module.globals@);
        assert(m.exports@.subrange(0, e0 as int) =~= module.exports@);
    }
    m
}

/// Positions, among the first `n` exports, of those that name a defined
/// function and whose name is in `names`: the functions to import instead.
pub open spec fn externalized(m: Module, names: Seq<String>, n: nat) -> Seq<nat>
    decreases n,
{
    if n == 0 || n > m.exports@.len() {
        Seq::empty()
    } else {
        let prev = externalized(m, names, (n - 1) as nat);
        let e = m.exports@[n - 1];
        match e.internal {
            Internal::Function(x) => if names_contain(names, e.field) && func_import_count(m) <= x
                < functions_space(m) {
                prev.push((n - 1) as nat)
            } else {
                prev
            },
            _ => prev,
        }
    }
}

pub open spec fn export_func(m: Module, pos: nat) -> u32 {
    m.exports@[pos as int].internal->Function_0
}

/// Where a call of `x` goes: to the new import of `x` if it has one, else
/// to `x` moved past the new imports.
pub open spec fn external_call(x: u32, fic: nat, reps: Seq<u32>) -> u32 {
    match position(reps, x) {
        Some(p) => (fic + p) as u32,
        None => if x >= fic {
            x.wrapping_add(reps.len() as u32)
        } else {
            x
        },
    }
}

pub open spec fn moved(x: u32, fic: nat, k: nat) -> u32 {
    if x >= fic {
        x.wrapping_add(k as u32)
    } else {
        x
    }
}

/// Imports each exported function named in `replaced_funcs` from `env` under
/// its export name, with the same type, and makes every call of it call the
/// import; the other function indices move past the new imports.
pub fn externalize(module: Module, replaced_funcs: Vec<String>) -> (r: Module)
    requires
        functions_space(module) + module.exports@.len() <= u32::MAX,
        module.imports@.len() + module.exports@.len() <= u32::MAX,
    ensures
        ({
            let pos = externalized(module, replaced_funcs@, module.exports@.len());
            let reps = pos.map_values(|p: nat| export_func(module, p));
            let fic = func_import_count(module);
            let k = pos.len();
            &&& r.imports@.subrange(0, module.imports@.len() as int) == module.imports@
            &&& r.imports@.len() == module.imports@.len() + k
            &&& forall|j: int|
                0 <= j < k ==> (#[trigger] r.imports@[module.imports@.len() + j]).module@ == "env"@
                    && r.imports@[module.imports@.len() + j].field == module.exports@[pos[j] as int].field
                    && r.imports@[module.imports@.len() + j].external == External::Function(
                    module.functions@[reps[j] - fic],
                )
            &&& r.code@.len() == module.code@.len()
            &&& forall|i: int|
                0 <= i < module.code@.len() ==> (#[trigger] r.code@[i]).locals == module.code@[i].locals
                    && r.code@[i].code@ == module.code@[i].code@.map_values(
                    |ins: Instruction|
                        match ins {
                            Instruction::Call(x) => Instruction::Call(external_call(x, fic, reps)),
                            _ => ins,
                        },
                )
            &&& r.exports@.len() == module.exports@.len()
            &&& forall|i: int|
                0 <= i < module.exports@.len() ==> (#[trigger] r.exports@[i]).field == module.exports@[i].field
                    && r.exports@[i].internal == match module.exports@[i].internal {
                    Internal::Function(x) => Internal::Function(moved(x, fic, k)),
                    e => e,
                }
            &&& r.elements@.len() == module.elements@.len()
            &&& forall|i: int|
                0 <= i < module.elements@.len() ==> (#[trigger] r.elements@[i]).index
                    == module.elements@[i].index && r.elements@[i].offset == module.elements@[i].offset
                    && r.elements@[i].members@ == module.elements@[i].members@.map_values(
                    |x: u32| moved(x, fic, k),
                )
            &&& r.start == match module.start {
                Some(x) => Some(moved(x, fic, k)),
                None => None,
            }
        }),
        r.types == module.types,
        r.functions == module.functions,
        r.tables == module.tables,
        r.memories == module.memories,
        r.globals == module.globals,
        r.data == module.data,
{
    let ghost m0 = module;
    proof {
        crate::elements::lemma_func_imports_bounded(module.imports@, module.imports@.len() as int);
    }
    let fic = func_import_count_of(&module);
    let fs = fic + module.functions.len() as u32;
    let mut pos: Vec<usize> = Vec::new();
    let mut reps: Vec<u32> = Vec::new();
    let mut i: usize = 0;
    while i < module.exports.len()
        invariant
            module == m0,
            fic == func_import_count(m0),
            fs == functions_space(m0),
            i <= m0.exports@.len(),
            pos@.len() == reps@.len(),
            pos@.len() <= i,
            pos@.map_values(|p: usize| p as nat) == externalized(m0, replaced_funcs@, i as nat),
            forall|j: int| 0 <= j < reps@.len() ==> #[trigger] reps@[j] == export_func(m0, pos@[j] as nat),
            forall|q: int| 0 <= q < pos@.len() ==> pos@[q] < m0.exports@.len() && fic <= reps@[q] < fs,
        decreases m0.exports@.len() - i,
    {
        if let Internal::Function(x) = module.exports[i].internal {
            let mut named = false;
            let mut j: usize = 0;
            while j < replaced_funcs.len()
                invariant
                    j <= replaced_funcs@.len(),
                    i < module.exports@.len(),
                    named == exists|q: int| 0 <= q < j && (#[trigger] replaced_funcs@[q])@ == module.exports@[i as int].field@,
                decreases replaced_funcs@.len() - j,
            {
                if replaced_funcs[j] == module.exports[i].field {
                    named = true;
                }
                j = j + 1;
            }
            if named && fic <= x && x < fs {
                let ghost before = pos@.map_values(|p: usize| p as nat);
                pos.push(i);
                reps.push(x);
                proof {
                    assert(pos@.map_values(|p: usize| p as nat) =~= before.push(i as nat));
                }
            }
        }
        i = i + 1;
    }
    let k = reps.len() as u32;
    let mut m = module;
    let mut j: usize = 0;
    let ghost imports0 = m.imports@;
    while j < pos.len()
        invariant
            j <= pos@.len(),
            pos@.len() == reps@.len(),
            m.imports@.len() == imports0.len() + j,
            m.imports@.subrange(0, imports0.len() as int) == imports0,
            imports0 == m0.imports@,
            m.exports == m0.exports,
            m.functions == m0.functions,
            m.types == m0.types && m.code == m0.code && m.elements == m0.elements && m.start == m0.start
                && m.tables == m0.tables && m.memories == m0.memories && m.globals == m0.globals
                && m.data == m0.data,
            fic == func_import_count(m0),
            fs == functions_space(m0),
            pos@.map_values(|p: usize| p as nat) == externalized(m0, replaced_funcs@, m0.exports@.len()),
            forall|q: int| 0 <= q < reps@.len() ==> #[trigger] reps@[q] == export_func(m0, pos@[q] as nat),
            forall|q: int| 0 <= q < pos@.len() ==> pos@[q] < m0.exports@.len() && fic <= reps@[q] < fs,
            forall|q: int|
                0 <= q < j ==> (#[trigger] m.imports@[imports0.len() + q]).module@ == "env"@
                    && m.imports@[imports0.len() + q].field == m0.exports@[pos@[q] as int].field
                    && m.imports@[imports0.len() + q].external == External::Function(
                    m0.functions@[reps@[q] - fic],
                ),
        decreases pos@.len() - j,
    {
        let x = reps[j];
        let t = m.functions[(x - fic) as usize];
        let field = m.exports[pos[j]].field.clone();
        m.imports.push(ImportEntry { module: "env".to_owned(), field, external: External::Function(t) });
        j = j + 1;
    }
    proof {
        assert(pos@.map_values(|p: usize| p as nat).map_values(|p: nat| export_func(m0, p)) =~= reps@);
    }

    let mut bodies: Vec<FuncBody> = Vec::new();
    std::mem::swap(&mut bodies, &mut m.code);
    let n = bodies.len();
    let mut rev = reversed(bodies);
    let mut out: Vec<FuncBody> = Vec::new();
    let mut i: usize = 0;
    while i < n
        invariant
            n == m0.code@.len(),
            i <= n,
            fic + reps@.len() <= u32::MAX,
            forall|q: int| 0 <= q < reps@.len() ==> fic <= #[trigger] reps@[q] < fs,
            fs + reps@.len() <= u32::MAX,
            rev@.len() == n - i,
            forall|j: int| 0 <= j < rev@.len() ==> rev@[j] == m0.code@[n - 1 - j],
            out@.len() == i,
            forall|j: int|
                0 <= j < i ==> (#[trigger] out@[j]).locals == m0.code@[j].locals && out@[j].code@
                    == m0.code@[j].code@.map_values(
                    |ins: Instruction|
                        match ins {
                            Instruction::Call(x) => Instruction::Call(external_call(x, fic as nat, reps@)),
                            _ => ins,
                        },
                ),
        decreases n - i,
    {
        let body = rev.pop().unwrap();
        let mut code = body.code;
        let ghost orig = code@;
        let mut q: usize = 0;
        while q < code.len()
            invariant
                code@.len() == orig.len(),
                q <= orig.len(),
                fic + reps@.len() <= u32::MAX,
                forall|p: int| 0 <= p < reps@.len() ==> fic <= #[trigger] reps@[p] < fs,
                fs + reps@.len() <= u32::MAX,
                forall|p: int| 0 <= p < q ==> code@[p] == match orig[p] {
                    Instruction::Call(x) => Instruction::Call(external_call(x, fic as nat, reps@)),
                    ins => ins,
                },
                forall|p: int| q <= p < orig.len() ==> code@[p] == orig[p],
            decreases orig.len() - q,
        {
            if let Instruction::Call(x) = code[q] {
                let y = external_call_of(&reps, fic, fs, x);
                code.set(q, Instruction::Call(y));
            }
            q = q + 1;
        }
        proof {
            assert(code@ =~= orig.map_values(
                |ins: Instruction|
                    match ins {
                        Instruction::Call(x) => Instruction::Call(external_call(x, fic as nat, reps@)),
                        _ => ins,
                    },
            ));
        }
        out.push(FuncBody { locals: body.locals, code });
        i = i + 1;
    }
    m.code = out;

    let mut exports: Vec<ExportEntry> = Vec::new();
    std::mem::swap(&mut exports, &mut m.exports);
    let n = exports.len();
    let mut rev = reversed(exports);
    let mut out: Vec<ExportEntry> = Vec::new();
    let mut i: usize = 0;
    while i < n
        invariant
            n == m0.exports@.len(),
            i <= n,
            k == reps@.len(),
            rev@.len() == n - i,
            forall|j: int| 0 <= j < rev@.len() ==> rev@[j] == m0.exports@[n - 1 - j],
            out@.len() == i,
            forall|j: int|
                0 <= j < i ==> (#[trigger] out@[j]).field == m0.exports@[j].field && out@[j].internal
                    == match m0.exports@[j].internal {
                    Internal::Function(x) => Internal::Function(moved(x, fic as nat, k as nat)),
                    e => e,
                },
        decreases n - i,
    {
        let e = rev.pop().unwrap();
        let internal = match e.internal {
            Internal::Function(x) => Internal::Function(moved_of(x, fic, k)),
            other => other,
        };
        out.push(ExportEntry { field: e.field, internal });
        i = i + 1;
    }
    m.exports = out;

    let mut segs: Vec<ElementSegment> = Vec::new();
    std::mem::swap(&mut segs, &mut m.elements);
    let n = segs.len();
    let mut rev = reversed(segs);
    let mut out: Vec<ElementSegment> = Vec::new();
    let mut i: usize = 0;
    while i < n
        invariant
            n == m0.elements@.len(),
            i <= n,
            rev@.len() == n - i,
            forall|j: int| 0 <= j < rev@.len() ==> rev@[j] == m0.elements@[n - 1 - j],
            out@.len() == i,
            forall|j: int|
                0 <= j < i ==> (#[trigger] out@[j]).index == m0.elements@[j].index && out@[j].offset
                    == m0.elements@[j].offset && out@[j].members@ == m0.elements@[j].members@.map_values(
                    |x: u32| moved(x, fic as nat, k as nat),
                ),
        decreases n - i,
    {
        let seg = rev.pop().unwrap();
        let mut members = seg.members;
        let ghost om = members@;
        let mut q: usize = 0;
        while q < members.len()
            invariant
                members@.len() == om.len(),
                q <= om.len(),
                forall|p: int| 0 <= p < q ==> members@[p] == moved(om[p], fic as nat, k as nat),
                forall|p: int| q <= p < om.len() ==> members@[p] == om[p],
            decreases om.len() - q,
        {
            let y = moved_of(members[q], fic, k);
            members.set(q, y);
            q = q + 1;
        }
        proof {
            assert(members@ =~= om.map_values(|x: u32| moved(x, fic as nat, k as nat)));
        }
        out.push(ElementSegment { index: seg.index, offset: seg.offset, members });
        i = i + 1;
    }
    m.elements = out;
    m.start = match m.start {
        Some(x) => Some(moved_of(x, fic, k)),
        None => None,
    };
    m
}

fn moved_of(x: u32, fic: u32, k: u32) -> (r: u32)
    ensures
        r == moved(x, fic as nat, k as nat),
{
    if x >= fic {
        x.wrapping_add(k)
    } else {
        x
    }
}

fn external_call_of(reps: &Vec<u32>, fic: u32, fs: u32, x: u32) -> (r: u32)
    requires
        fic + reps@.len() <= u32::MAX,
        fs + reps@.len() <= u32::MAX,
    ensures
        r == external_call(x, fic as nat, reps@),
{
    let n = reps.len();
    let mut j: usize = 0;
    proof {
        assert(reps@.subrange(0, n as int) =~= reps@);
    }
    while j < n
        invariant
            n == reps@.len(),
            j <= n,
            fic + n <= u32::MAX,
            position(reps@, x) == match position(reps@.subrange(j as int, n as int), x) {
                Some(p) => Some((p + j) as nat),
                None => None,
            },
        decreases n - j,
    {
        proof {
            assert(reps@.subrange(j as int, n as int).drop_first() =~= reps@.subrange(j + 1, n as int));
        }
        if reps[j] == x {
            return fic + j as u32;
        }
        j = j + 1;
    }
    if x >= fic {
        x.wrapping_add(n as u32)
    } else {
        x
    }
}

} // verus!
