//! Dead code elimination: keeps the entries reachable from a chosen set of
//! exports, from element and data segments and from the start function,
//! drops the rest and renumbers every index that survives.
use vstd::prelude::*;

use crate::elements::{
    func_imports_in, functions_space, global_imports_in, globals_space, is_func_import,
    is_global_import, reversed, DataSegment, ElementSegment, ExportEntry, External,
    FuncBody, GlobalEntry, ImportEntry, Instruction, Internal, Module,
};
use crate::symbols::{
    all_code_symbols, code_symbols, count_false, expand_symbols, in_range, instruction_symbols,
    is_closure, is_marked, lemma_reach_step, marks_fit, push_code_symbols, resolve_func,
    resolve_func_from, resolve_function, resolve_glob, resolve_global_from, successors, Marks, Symbol,
};

verus! {

#[derive(Debug)]
pub enum Error {
    /// Exports were asked to stay, but the module has none.
    NoExportSection,
}

/// The items of the first `n` of `s` whose flag in `keep` is set.
pub open spec fn keep_by<T>(s: Seq<T>, keep: Seq<bool>, n: nat) -> Seq<T>
    decreases n,
{
    if n == 0 || n > s.len() {
        Seq::empty()
    } else {
        let prev = keep_by(s, keep, (n - 1) as nat);
        if n - 1 < keep.len() && keep[n - 1] {
            prev.push(s[n - 1])
        } else {
            prev
        }
    }
}

pub open spec fn kept<T>(s: Seq<T>, keep: Seq<bool>) -> Seq<T> {
    keep_by(s, keep, s.len())
}

/// New index of entry `x` once the entries whose flag is unset are gone:
/// `x` less the number of them below it.
pub open spec fn new_index(keep: Seq<bool>, x: int) -> int {
    x - count_false(keep.subrange(0, x))
}

/// Where index `x` goes under the renumbering `table`.
pub open spec fn remap(table: Seq<u32>, x: u32) -> u32 {
    if x < table.len() {
        table[x as int]
    } else {
        x
    }
}

/// `table` renumbers the entries of a section kept by `keep`.
pub open spec fn is_renumbering(table: Seq<u32>, keep: Seq<bool>) -> bool {
    &&& table.len() == keep.len()
    &&& forall|x: int| 0 <= x < keep.len() ==> #[trigger] table[x] == new_index(keep, x)
}

pub open spec fn remap_instruction(i: Instruction, ft: Seq<u32>, gt: Seq<u32>, tt: Seq<u32>) -> Instruction {
    match i {
        Instruction::Call(x) => Instruction::Call(remap(ft, x)),
        Instruction::CallIndirect(t, r) => Instruction::CallIndirect(remap(tt, t), r),
        Instruction::GetGlobal(x) => Instruction::GetGlobal(remap(gt, x)),
        Instruction::SetGlobal(x) => Instruction::SetGlobal(remap(gt, x)),
        _ => i,
    }
}

/// `code` with functions, globals and types renumbered.
pub open spec fn remap_code(code: Seq<Instruction>, ft: Seq<u32>, gt: Seq<u32>, tt: Seq<u32>) -> Seq<
    Instruction,
> {
    code.map_values(|i: Instruction| remap_instruction(i, ft, gt, tt))
}

/// Flags of the imports among the first `n` that satisfy `kind`, in order.
pub open spec fn import_flags(imports: Seq<ImportEntry>, flags: Seq<bool>, n: int, funcs: bool) -> Seq<
    bool,
>
    decreases n,
{
    if n <= 0 {
        Seq::empty()
    } else {
        let prev = import_flags(imports, flags, n - 1, funcs);
        if (funcs && is_func_import(imports[n - 1])) || (!funcs && is_global_import(imports[n - 1])) {
            prev.push(flags[n - 1])
        } else {
            prev
        }
    }
}

/// Which functions of the combined index space stay.
pub open spec fn func_keep(m: Module, mk: Marks) -> Seq<bool> {
    import_flags(m.imports@, mk.imports@, m.imports@.len() as int, true) + mk.functions@
}

/// Which globals of the combined index space stay.
pub open spec fn global_keep(m: Module, mk: Marks) -> Seq<bool> {
    import_flags(m.imports@, mk.imports@, m.imports@.len() as int, false) + mk.globals@
}

/// Which imports stay: a function or global import if marked, any other always.
pub open spec fn import_keep(m: Module, mk: Marks) -> Seq<bool> {
    Seq::new(
        m.imports@.len(),
        |i: int|
            if is_func_import(m.imports@[i]) || is_global_import(m.imports@[i]) {
                mk.imports@[i]
            } else {
                true
            },
    )
}

/// Whether `name` is one of `names`.
pub open spec fn names_contain(names: Seq<String>, name: String) -> bool {
    exists|j: int| 0 <= j < names.len() && (#[trigger] names[j])@ == name@
}

/// Exports among the first `n` whose name is in `names`.
pub open spec fn export_seeds(exports: Seq<ExportEntry>, names: Seq<String>, n: nat) -> Seq<Symbol>
    decreases n,
{
    if n == 0 || n > exports.len() {
        Seq::empty()
    } else {
        let prev = export_seeds(exports, names, (n - 1) as nat);
        if names_contain(names, exports[n - 1].field) {
            prev.push(Symbol::Export((n - 1) as usize))
        } else {
            prev
        }
    }
}

/// Symbols of the offsets of the first `n` data segments.
pub open spec fn data_seeds(m: Module, n: nat) -> Seq<Symbol>
    decreases n,
{
    if n == 0 || n > m.data@.len() {
        Seq::empty()
    } else {
        data_seeds(m, (n - 1) as nat) + all_code_symbols(m, m.data@[n - 1].offset@)
    }
}

/// Symbols of the offsets and members of the first `n` element segments.
pub open spec fn element_seeds(m: Module, n: nat) -> Seq<Symbol>
    decreases n,
{
    if n == 0 || n > m.elements@.len() {
        Seq::empty()
    } else {
        element_seeds(m, (n - 1) as nat) + all_code_symbols(m, m.elements@[n - 1].offset@)
            + m.elements@[n - 1].members@.map_values(|x: u32| resolve_func(m, x))
    }
}

/// What the optimizer starts from: the exports named in `names`, what data
/// and element segments refer to, and the start function.
pub open spec fn seeds(m: Module, names: Seq<String>) -> Seq<Symbol> {
    export_seeds(m.exports@, names, m.exports@.len()) + data_seeds(m, m.data@.len()) + element_seeds(
        m,
        m.elements@.len(),
    ) + match m.start {
        Some(x) => seq![resolve_func(m, x)],
        None => Seq::empty(),
    }
}

/// Whether `m2` is `m` with only the entries that `mk` marks (and the imports
/// that are neither functions nor globals), renumbered by `ft`, `gt`, `tt`.
pub open spec fn pruned(m: Module, m2: Module, mk: Marks, ft: Seq<u32>, gt: Seq<u32>, tt: Seq<u32>) -> bool {
    let imports = kept(m.imports@, import_keep(m, mk));
    let globals = kept(m.globals@, mk.globals@);
    let code = kept(m.code@, mk.functions@);
    let exports = kept(m.exports@, mk.exports@);
    &&& is_renumbering(ft, func_keep(m, mk))
    &&& is_renumbering(gt, global_keep(m, mk))
    &&& is_renumbering(tt, mk.types@)
    &&& m2.types@ == kept(m.types@, mk.types@)
    &&& m2.imports@.len() == imports.len()
    &&& forall|i: int|
        0 <= i < imports.len() ==> (#[trigger] m2.imports@[i]).module == imports[i].module
            && m2.imports@[i].field == imports[i].field && m2.imports@[i].external == match imports[i].external {
            External::Function(t) => External::Function(remap(tt, t)),
            e => e,
        }
    &&& m2.functions@ == kept(m.functions@, mk.functions@).map_values(|t: u32| remap(tt, t))
    &&& m2.tables == m.tables
    &&& m2.memories == m.memories
    &&& m2.globals@.len() == globals.len()
    &&& forall|i: int|
        0 <= i < globals.len() ==> (#[trigger] m2.globals@[i]).global_type == globals[i].global_type
            && m2.globals@[i].init_expr@ == remap_code(globals[i].init_expr@, ft, gt, tt)
    &&& m2.code@.len() == code.len()
    &&& forall|i: int|
        0 <= i < code.len() ==> (#[trigger] m2.code@[i]).locals == code[i].locals
            && m2.code@[i].code@ == remap_code(code[i].code@, ft, gt, tt)
    &&& m2.exports@.len() == exports.len()
    &&& forall|i: int|
        0 <= i < exports.len() ==> (#[trigger] m2.exports@[i]).field == exports[i].field
            && m2.exports@[i].internal == match exports[i].internal {
            Internal::Function(x) => Internal::Function(remap(ft, x)),
            Internal::Global(x) => Internal::Global(remap(gt, x)),
            e => e,
        }
    &&& m2.elements@.len() == m.elements@.len()
    &&& forall|i: int|
        0 <= i < m.elements@.len() ==> (#[trigger] m2.elements@[i]).index == m.elements@[i].index
            && m2.elements@[i].offset@ == remap_code(m.elements@[i].offset@, ft, gt, tt)
            && m2.elements@[i].members@ == m.elements@[i].members@.map_values(|x: u32| remap(ft, x))
    &&& m2.data@.len() == m.data@.len()
    &&& forall|i: int|
        0 <= i < m.data@.len() ==> (#[trigger] m2.data@[i]).index == m.data@[i].index
            && m2.data@[i].value == m.data@[i].value && m2.data@[i].offset@ == remap_code(
            m.data@[i].offset@,
            ft,
            gt,
            tt,
        )
    &&& m2.start == match m.start {
        Some(x) => Some(remap(ft, x)),
        None => None,
    }
}

/// The items of `v` whose flag in `keep` is set, in order.
fn compact<T>(v: Vec<T>, keep: &Vec<bool>) -> (r: Vec<T>)
    ensures
        r@ == kept(v@, keep@),
{
    let ghost orig = v@;
    let n = v.len();
    let mut rev = reversed(v);
    let mut out: Vec<T> = Vec::new();
    let mut i: usize = 0;
    while i < n
        invariant
            n == orig.len(),
            i <= n,
            rev@.len() == n - i,
            forall|j: int| 0 <= j < rev@.len() ==> rev@[j] == orig[n - 1 - j],
            out@ == keep_by(orig, keep@, i as nat),
        decreases n - i,
    {
        let x = rev.pop().unwrap();
        if i < keep.len() && keep[i] {
            out.push(x);
        }
        i = i + 1;
    }
    out
}

/// The renumbering of a section kept by `keep`.
fn renumbering(keep: &Vec<bool>) -> (r: Vec<u32>)
    requires
        keep@.len() <= u32::MAX,
    ensures
        is_renumbering(r@, keep@),
{
    let mut r: Vec<u32> = Vec::new();
    let mut removed: u32 = 0;
    let mut x: usize = 0;
    while x < keep.len()
        invariant
            x <= keep@.len() <= u32::MAX,
            removed == count_false(keep@.subrange(0, x as int)),
            removed <= x,
            r@.len() == x,
            forall|y: int| 0 <= y < x ==> #[trigger] r@[y] == new_index(keep@, y),
        decreases keep@.len() - x,
    {
        r.push(x as u32 - removed);
        proof {
            assert(keep@.subrange(0, x + 1).drop_last() =~= keep@.subrange(0, x as int));
        }
        if !keep[x] {
            removed = removed + 1;
        }
        x = x + 1;
    }
    r
}

fn remap_of(table: &Vec<u32>, x: u32) -> (r: u32)
    ensures
        r == remap(table@, x),
{
    if (x as usize) < table.len() {
        table[x as usize]
    } else {
        x
    }
}

/// Renumbers the functions, globals and types that `code` refers to.
fn remap_code_in(code: &mut Vec<Instruction>, ft: &Vec<u32>, gt: &Vec<u32>, tt: &Vec<u32>)
    ensures
        final(code)@ == remap_code(old(code)@, ft@, gt@, tt@),
{
    let ghost orig = code@;
    let mut i: usize = 0;
    while i < code.len()
        invariant
            code@.len() == orig.len(),
            i <= orig.len(),
            forall|j: int| 0 <= j < i ==> code@[j] == remap_instruction(orig[j], ft@, gt@, tt@),
            forall|j: int| i <= j < orig.len() ==> code@[j] == orig[j],
        decreases orig.len() - i,
    {
        match code[i] {
            Instruction::Call(x) => code.set(i, Instruction::Call(remap_of(ft, x))),
            Instruction::CallIndirect(t, r) => code.set(i, Instruction::CallIndirect(remap_of(tt, t), r)),
            Instruction::GetGlobal(x) => code.set(i, Instruction::GetGlobal(remap_of(gt, x))),
            Instruction::SetGlobal(x) => code.set(i, Instruction::SetGlobal(remap_of(gt, x))),
            _ => {},
        }
        i = i + 1;
    }
    proof {
        assert(code@ =~= remap_code(orig, ft@, gt@, tt@));
    }
}

proof fn lemma_import_flags_len(imports: Seq<ImportEntry>, flags: Seq<bool>, n: int, funcs: bool)
    requires
        0 <= n <= imports.len(),
    ensures
        import_flags(imports, flags, n, funcs).len() == if funcs {
            func_imports_in(imports, n)
        } else {
            global_imports_in(imports, n)
        },
    decreases n,
{
    if n > 0 {
        lemma_import_flags_len(imports, flags, n - 1, funcs);
    }
}

fn import_flags_of(m: &Module, flags: &Vec<bool>, funcs: bool) -> (r: Vec<bool>)
    requires
        flags@.len() == m.imports@.len(),
    ensures
        r@ == import_flags(m.imports@, flags@, m.imports@.len() as int, funcs),
{
    let mut r: Vec<bool> = Vec::new();
    let mut i: usize = 0;
    while i < m.imports.len()
        invariant
            i <= m.imports@.len(),
            flags@.len() == m.imports@.len(),
            r@ == import_flags(m.imports@, flags@, i as int, funcs),
        decreases m.imports@.len() - i,
    {
        let take = match m.imports[i].external {
            External::Function(_) => funcs,
            External::Global(_) => !funcs,
            _ => false,
        };
        if take {
            r.push(flags[i]);
        }
        i = i + 1;
    }
    r
}

fn append_flags(r: &mut Vec<bool>, flags: &Vec<bool>)
    ensures
        final(r)@ == old(r)@ + flags@,
{
    let ghost r0 = r@;
    let mut i: usize = 0;
    while i < flags.len()
        invariant
            i <= flags@.len(),
            r@ == r0 + flags@.subrange(0, i as int),
        decreases flags@.len() - i,
    {
        r.push(flags[i]);
        i = i + 1;
        proof {
            assert(r@ =~= r0 + flags@.subrange(0, i as int));
        }
    }
    proof {
        assert(flags@.subrange(0, flags@.len() as int) =~= flags@);
    }
}

fn import_keep_of(m: &Module, mk: &Marks) -> (r: Vec<bool>)
    requires
        marks_fit(*m, *mk),
    ensures
        r@ == import_keep(*m, *mk),
{
    let mut r: Vec<bool> = Vec::new();
    let mut i: usize = 0;
    while i < m.imports.len()
        invariant
            i <= m.imports@.len(),
            marks_fit(*m, *mk),
            r@.len() == i,
            forall|j: int| 0 <= j < i ==> #[trigger] r@[j] == import_keep(*m, *mk)[j],
        decreases m.imports@.len() - i,
    {
        let k = match m.imports[i].external {
            External::Function(_) | External::Global(_) => mk.imports[i],
            _ => true,
        };
        r.push(k);
        i = i + 1;
    }
    proof {
        assert(r@ =~= import_keep(*m, *mk));
    }
    r
}

fn names_contain_of(names: &Vec<String>, name: &String) -> (r: bool)
    ensures
        r == names_contain(names@, *name),
{
    let mut j: usize = 0;
    while j < names.len()
        invariant
            j <= names@.len(),
            forall|k: int| 0 <= k < j ==> (#[trigger] names@[k])@ != name@,
        decreases names@.len() - j,
    {
        if names[j] == *name {
            return true;
        }
        j = j + 1;
    }
    false
}

/// What the optimizer starts from.
fn collect_seeds(m: &Module, names: &Vec<String>) -> (r: Vec<Symbol>)
    ensures
        r@ == seeds(*m, names@),
{
    let mut r: Vec<Symbol> = Vec::new();
    let mut i: usize = 0;
    while i < m.exports.len()
        invariant
            i <= m.exports@.len(),
            r@ == export_seeds(m.exports@, names@, i as nat),
        decreases m.exports@.len() - i,
    {
        if names_contain_of(names, &m.exports[i].field) {
            r.push(Symbol::Export(i));
        }
        i = i + 1;
    }
    let ghost e = r@;
    let mut i: usize = 0;
    while i < m.data.len()
        invariant
            i <= m.data@.len(),
            r@ == e + data_seeds(*m, i as nat),
        decreases m.data@.len() - i,
    {
        push_code_symbols(m, &m.data[i].offset, &mut r);
        proof {
            assert(r@ =~= e + data_seeds(*m, (i + 1) as nat));
        }
        i = i + 1;
    }
    let ghost ed = r@;
    let mut i: usize = 0;
    while i < m.elements.len()
        invariant
            i <= m.elements@.len(),
            r@ == ed + element_seeds(*m, i as nat),
        decreases m.elements@.len() - i,
    {
        let ghost before = r@;
        push_code_symbols(m, &m.elements[i].offset, &mut r);
        let ghost mid = r@;
        let members = &m.elements[i].members;
        let mut j: usize = 0;
        while j < members.len()
            invariant
                j <= members@.len(),
                r@ == mid + members@.subrange(0, j as int).map_values(|x: u32| resolve_func(*m, x)),
            decreases members@.len() - j,
        {
            r.push(resolve_function(m, members[j]));
            j = j + 1;
            proof {
                assert(r@ =~= mid + members@.subrange(0, j as int).map_values(
                    |x: u32| resolve_func(*m, x),
                ));
            }
        }
        proof {
            assert(members@.subrange(0, members@.len() as int) =~= members@);
            assert(r@ =~= ed + element_seeds(*m, (i + 1) as nat));
        }
        i = i + 1;
    }
    let ghost edl = r@;
    if let Some(x) = m.start {
        r.push(resolve_function(m, x));
    }
    proof {
        assert(r@ =~= seeds(*m, names@));
    }
    r
}

/// Whether `m2` is what optimizing `m` for the exports `names` gives.
pub open spec fn optimized(m: Module, m2: Module, names: Seq<String>) -> bool {
    exists|mk: Marks, ft: Seq<u32>, gt: Seq<u32>, tt: Seq<u32>|
        is_closure(m, seeds(m, names), mk) && #[trigger] pruned(m, m2, mk, ft, gt, tt)
}

/// Removes every function, global, import, type and export that is not
/// reachable from the exports named in `used_exports`, from the element and
/// data segments or from the start function, and renumbers what stays.
///
/// Fails, leaving the module as it was, when exports are asked for and the
/// module has none.
pub fn optimize(module: &mut Module, used_exports: Vec<String>) -> (r: Result<(), Error>)
    requires
        functions_space(*old(module)) <= u32::MAX,
        globals_space(*old(module)) <= u32::MAX,
        old(module).types@.len() <= u32::MAX,
    ensures
        old(module).exports@.len() == 0 && used_exports@.len() > 0 ==> r is Err && *final(module)
            == *old(module),
        !(old(module).exports@.len() == 0 && used_exports@.len() > 0) ==> r is Ok && optimized(
            *old(module),
            *final(module),
            used_exports@,
        ),
{
    if module.exports.len() == 0 && used_exports.len() > 0 {
        return Err(Error::NoExportSection);
    }
    let ghost m0 = *module;
    let seed_list = collect_seeds(module, &used_exports);
    let mk = expand_symbols(module, &seed_list);
    let mut fk = import_flags_of(module, &mk.imports, true);
    append_flags(&mut fk, &mk.functions);
    let mut gk = import_flags_of(module, &mk.imports, false);
    append_flags(&mut gk, &mk.globals);
    let ik = import_keep_of(module, &mk);
    proof {
        lemma_import_flags_len(m0.imports@, mk.imports@, m0.imports@.len() as int, true);
        lemma_import_flags_len(m0.imports@, mk.imports@, m0.imports@.len() as int, false);
    }
    let ft = renumbering(&fk);
    let gt = renumbering(&gk);
    let tt = renumbering(&mk.types);

    let mut types = Vec::new();
    std::mem::swap(&mut types, &mut module.types);
    module.types = compact(types, &mk.types);

    let mut imports = Vec::new();
    std::mem::swap(&mut imports, &mut module.imports);
    let imports = compact(imports, &ik);
    let ghost ki = imports@;
    let n = imports.len();
    let mut rev = reversed(imports);
    let mut out: Vec<ImportEntry> = Vec::new();
    let mut i: usize = 0;
    while i < n
        invariant
            n == ki.len(),
            i <= n,
            rev@.len() == n - i,
            forall|j: int| 0 <= j < rev@.len() ==> rev@[j] == ki[n - 1 - j],
            out@.len() == i,
            forall|j: int|
                0 <= j < i ==> (#[trigger] out@[j]).module == ki[j].module && out@[j].field
                    == ki[j].field && out@[j].external == match ki[j].external {
                    External::Function(t) => External::Function(remap(tt@, t)),
                    e => e,
                },
        decreases n - i,
    {
        let e = rev.pop().unwrap();
        let external = match e.external {
            External::Function(t) => External::Function(remap_of(&tt, t)),
            other => other,
        };
        out.push(ImportEntry { module: e.module, field: e.field, external });
        i = i + 1;
    }
    module.imports = out;

    let mut functions = Vec::new();
    std::mem::swap(&mut functions, &mut module.functions);
    let mut functions = compact(functions, &mk.functions);
    let ghost kf = functions@;
    let mut i: usize = 0;
    while i < functions.len()
        invariant
            functions@.len() == kf.len(),
            i <= kf.len(),
            forall|j: int| 0 <= j < i ==> functions@[j] == remap(tt@, kf[j]),
            forall|j: int| i <= j < kf.len() ==> functions@[j] == kf[j],
        decreases kf.len() - i,
    {
        let t = remap_of(&tt, functions[i]);
        functions.set(i, t);
        i = i + 1;
    }
    proof {
        assert(functions@ =~= kf.map_values(|t: u32| remap(tt@, t)));
    }
    module.functions = functions;

    let mut globals = Vec::new();
    std::mem::swap(&mut globals, &mut module.globals);
    let globals = compact(globals, &mk.globals);
    let ghost kg = globals@;
    let n = globals.len();
    let mut rev = reversed(globals);
    let mut out: Vec<GlobalEntry> = Vec::new();
    let mut i: usize = 0;
    while i < n
        invariant
            n == kg.len(),
            i <= n,
            rev@.len() == n - i,
            forall|j: int| 0 <= j < rev@.len() ==> rev@[j] == kg[n - 1 - j],
            out@.len() == i,
            forall|j: int|
                0 <= j < i ==> (#[trigger] out@[j]).global_type == kg[j].global_type
                    && out@[j].init_expr@ == remap_code(kg[j].init_expr@, ft@, gt@, tt@),
        decreases n - i,
    {
        let g = rev.pop().unwrap();
        let mut init = g.init_expr;
        remap_code_in(&mut init, &ft, &gt, &tt);
        out.push(GlobalEntry { global_type: g.global_type, init_expr: init });
        i = i + 1;
    }
    module.globals = out;

    let mut code = Vec::new();
    std::mem::swap(&mut code, &mut module.code);
    let code = compact(code, &mk.functions);
    let ghost kc = code@;
    let n = code.len();
    let mut rev = reversed(code);
    let mut out: Vec<FuncBody> = Vec::new();
    let mut i: usize = 0;
    while i < n
        invariant
            n == kc.len(),
            i <= n,
            rev@.len() == n - i,
            forall|j: int| 0 <= j < rev@.len() ==> rev@[j] == kc[n - 1 - j],
            out@.len() == i,
            forall|j: int|
                0 <= j < i ==> (#[trigger] out@[j]).locals == kc[j].locals && out@[j].code@
                    == remap_code(kc[j].code@, ft@, gt@, tt@),
        decreases n - i,
    {
        let b = rev.pop().unwrap();
        let mut c = b.code;
        remap_code_in(&mut c, &ft, &gt, &tt);
        out.push(FuncBody { locals: b.locals, code: c });
        i = i + 1;
    }
    module.code = out;

    let mut exports = Vec::new();
    std::mem::swap(&mut exports, &mut module.exports);
    let exports = compact(exports, &mk.exports);
    let ghost ke = exports@;
    let n = exports.len();
    let mut rev = reversed(exports);
    let mut out: Vec<ExportEntry> = Vec::new();
    let mut i: usize = 0;
    while i < n
        invariant
            n == ke.len(),
            i <= n,
            rev@.len() == n - i,
            forall|j: int| 0 <= j < rev@.len() ==> rev@[j] == ke[n - 1 - j],
            out@.len() == i,
            forall|j: int|
                0 <= j < i ==> (#[trigger] out@[j]).field == ke[j].field && out@[j].internal
                    == match ke[j].internal {
                    Internal::Function(x) => Internal::Function(remap(ft@, x)),
                    Internal::Global(x) => Internal::Global(remap(gt@, x)),
                    e => e,
                },
        decreases n - i,
    {
        let e = rev.pop().unwrap();
        let internal = match e.internal {
            Internal::Function(x) => Internal::Function(remap_of(&ft, x)),
            Internal::Global(x) => Internal::Global(remap_of(&gt, x)),
            other => other,
        };
        out.push(ExportEntry { field: e.field, internal });
        i = i + 1;
    }
    module.exports = out;

    let mut segs = Vec::new();
    std::mem::swap(&mut segs, &mut module.elements);
    let n = segs.len();
    let mut rev = reversed(segs);
    let mut out: Vec<ElementSegment> = Vec::new();
    let mut i: usize = 0;
    while i < n
        invariant
            n == m0.elements@.len(),
            i <= n,
            rev@.len() == n - i,
            forall|j: int| 0 <= j < rev@.len() ==> rev@[j] == m0.elements@[n - 1 - j],
            out@.len() == i,
            forall|j: int|
                0 <= j < i ==> (#[trigger] out@[j]).index == m0.elements@[j].index
                    && out@[j].offset@ == remap_code(m0.elements@[j].offset@, ft@, gt@, tt@)
                    && out@[j].members@ == m0.elements@[j].members@.map_values(
                    |x: u32| remap(ft@, x),
                ),
        decreases n - i,
    {
        let seg = rev.pop().unwrap();
        let mut offset = seg.offset;
        remap_code_in(&mut offset, &ft, &gt, &tt);
        let mut members = seg.members;
        let ghost om = members@;
        let mut j: usize = 0;
        while j < members.len()
            invariant
                members@.len() == om.len(),
                j <= om.len(),
                forall|q: int| 0 <= q < j ==> members@[q] == remap(ft@, om[q]),
                forall|q: int| j <= q < om.len() ==> members@[q] == om[q],
            decreases om.len() - j,
        {
            let y = remap_of(&ft, members[j]);
            members.set(j, y);
            j = j + 1;
        }
        proof {
            assert(members@ =~= om.map_values(|x: u32| remap(ft@, x)));
        }
        out.push(ElementSegment { index: seg.index, offset, members });
        i = i + 1;
    }
    module.elements = out;

    let mut data = Vec::new();
    std::mem::swap(&mut data, &mut module.data);
    let n = data.len();
    let mut rev = reversed(data);
    let mut out: Vec<DataSegment> = Vec::new();
    let mut i: usize = 0;
    while i < n
        invariant
            n == m0.data@.len(),
            i <= n,
            rev@.len() == n - i,
            forall|j: int| 0 <= j < rev@.len() ==> rev@[j] == m0.data@[n - 1 - j],
            out@.len() == i,
            forall|j: int|
                0 <= j < i ==> (#[trigger] out@[j]).index == m0.data@[j].index && out@[j].value
                    == m0.data@[j].value && out@[j].offset@ == remap_code(
                    m0.data@[j].offset@,
                    ft@,
                    gt@,
                    tt@,
                ),
        decreases n - i,
    {
        let seg = rev.pop().unwrap();
        let mut offset = seg.offset;
        remap_code_in(&mut offset, &ft, &gt, &tt);
        out.push(DataSegment { index: seg.index, offset, value: seg.value });
        i = i + 1;
    }
    module.data = out;

    module.start = match module.start {
        Some(x) => Some(remap_of(&ft, x)),
        None => None,
    };
    proof {
        assert(pruned(m0, *module, mk, ft@, gt@, tt@));
    }
    Ok(())
}

pub open spec fn count_true(keep: Seq<bool>, n: int) -> nat
    decreases n,
{
    if n <= 0 {
        0
    } else {
        count_true(keep, n - 1) + if keep[n - 1] {
            1nat
        } else {
            0nat
        }
    }
}

proof fn lemma_kept_len<T>(s: Seq<T>, keep: Seq<bool>, n: nat)
    requires
        n <= s.len(),
        n <= keep.len(),
    ensures
        keep_by(s, keep, n).len() == count_true(keep, n as int),
        forall|k: int|
            0 <= k < keep_by(s, keep, n).len() ==> exists|i: int|
                0 <= i < n && keep[i] && #[trigger] keep_by(s, keep, n)[k] == s[i]
                    && new_index(keep, i) == k,
    decreases n,
{
    if n > 0 {
        lemma_kept_len(s, keep, (n - 1) as nat);
        lemma_new_index_step(keep, n - 1);
        let prev = keep_by(s, keep, (n - 1) as nat);
        let cur = keep_by(s, keep, n);
        assert forall|k: int|
            0 <= k < cur.len() implies exists|i: int|
                0 <= i < n && keep[i] && #[trigger] cur[k] == s[i] && new_index(keep, i) == k by {
            if k < prev.len() {
                let i = choose|i: int|
                    0 <= i < n - 1 && keep[i] && #[trigger] prev[k] == s[i] && new_index(keep, i) == k;
                assert(cur[k] == prev[k]);
            } else {
                assert(cur[k] == s[n - 1]);
            }
        }
    }
}

proof fn lemma_new_index_step(keep: Seq<bool>, x: int)
    requires
        0 <= x < keep.len(),
    ensures
        new_index(keep, x) == x - (x - count_true(keep, x)),
        count_false(keep.subrange(0, x)) + count_true(keep, x) == x,
    decreases x,
{
    if x > 0 {
        lemma_new_index_step(keep, x - 1);
        assert(keep.subrange(0, x).drop_last() =~= keep.subrange(0, x - 1));
    }
}

/// The renumbering of a section moves each kept entry to its position among
/// the kept entries: into the new section, and in the same order.
pub proof fn lemma_renumbering_in_range<T>(s: Seq<T>, keep: Seq<bool>, table: Seq<u32>, x: int)
    requires
        s.len() == keep.len(),
        is_renumbering(table, keep),
        0 <= x < keep.len(),
        keep[x],
    ensures
        table[x] < kept(s, keep).len(),
        kept(s, keep)[table[x] as int] == s[x],
        forall|y: int| 0 <= y < x && keep[y] ==> #[trigger] table[y] < table[x],
{
    lemma_kept_len(s, keep, s.len());
    lemma_count_true_mono(keep, x + 1, s.len() as int);
    lemma_new_index_step(keep, x);
    assert(count_true(keep, x + 1) == count_true(keep, x) + 1);
    lemma_kept_at(s, keep, s.len(), x);
    assert forall|y: int| 0 <= y < x && keep[y] implies #[trigger] table[y] < table[x] by {
        lemma_new_index_step(keep, y);
        lemma_count_true_mono(keep, y + 1, x);
        assert(count_true(keep, y + 1) == count_true(keep, y) + 1);
    }
}

proof fn lemma_count_true_mono(keep: Seq<bool>, a: int, b: int)
    requires
        0 <= a <= b <= keep.len(),
    ensures
        count_true(keep, a) <= count_true(keep, b),
    decreases b - a,
{
    if a < b {
        lemma_count_true_mono(keep, a, b - 1);
    }
}

/// The kept item at the new index of a kept entry is that entry.
proof fn lemma_kept_at<T>(s: Seq<T>, keep: Seq<bool>, n: nat, x: int)
    requires
        n <= s.len(),
        n <= keep.len(),
        0 <= x < n,
        keep[x],
    ensures
        count_true(keep, x) < keep_by(s, keep, n).len(),
        keep_by(s, keep, n)[count_true(keep, x) as int] == s[x],
    decreases n,
{
    lemma_kept_len(s, keep, n);
    lemma_kept_len(s, keep, (x + 1) as nat);
    if x < n - 1 {
        lemma_kept_at(s, keep, (n - 1) as nat, x);
        lemma_kept_len(s, keep, (n - 1) as nat);
    }
}

proof fn lemma_code_symbols_has(m: Module, code: Seq<Instruction>, n: nat, p: int)
    requires
        n <= code.len(),
        0 <= p < n,
        code[p] is Call,
    ensures
        code_symbols(m, code, n).contains(resolve_func(m, code[p]->Call_0)),
    decreases n,
{
    let prev = code_symbols(m, code, (n - 1) as nat);
    let cur = code_symbols(m, code, n);
    assert(cur == prev + instruction_symbols(m, code[n - 1]));
    if p < n - 1 {
        lemma_code_symbols_has(m, code, (n - 1) as nat, p);
        let q = choose|q: int| 0 <= q < prev.len() && prev[q] == resolve_func(m, code[p]->Call_0);
        assert(cur[q] == prev[q]);
    } else {
        assert(cur[prev.len() as int] == resolve_func(m, code[p]->Call_0));
    }
}

/// The flag of the `x`-th function import, from position `i` on.
proof fn lemma_import_flags_at(imports: Seq<ImportEntry>, flags: Seq<bool>, n: int, j: int)
    requires
        0 <= j < n <= imports.len(),
        is_func_import(imports[j]),
    ensures
        crate::elements::func_imports_in(imports, j) < import_flags(imports, flags, n, true).len(),
        import_flags(imports, flags, n, true)[crate::elements::func_imports_in(imports, j) as int] == flags[j],
    decreases n,
{
    lemma_import_flags_len(imports, flags, n, true);
    lemma_import_flags_len(imports, flags, j + 1, true);
    if j < n - 1 {
        lemma_import_flags_at(imports, flags, n - 1, j);
        lemma_import_flags_len(imports, flags, n - 1, true);
    } else {
        lemma_import_flags_len(imports, flags, n - 1, true);
    }
}

/// Resolving a function index reaches the import whose flag `func_keep` holds
/// at that index, or the defined function after the imports.
proof fn lemma_resolve_keep(m: Module, mk: Marks, x: u32, i: int)
    requires
        marks_fit(m, mk),
        m.imports@.len() <= u32::MAX,
        0 <= i <= m.imports@.len(),
        crate::elements::func_imports_in(m.imports@, i) <= x,
        x < crate::elements::functions_space(m),
        forall|j: int| 0 <= j < i && is_func_import(m.imports@[j]) ==> crate::elements::func_imports_in(m.imports@, j) < x,
    ensures
        ({
            let s = resolve_func_from(m.imports@, x, i, crate::elements::func_imports_in(m.imports@, i));
            &&& in_range(m, s)
            &&& (is_marked(mk, s) <==> func_keep(m, mk)[x as int])
        }),
    decreases m.imports@.len() - i,
{
    let imports = m.imports@;
    let fic = crate::elements::func_import_count(m);
    lemma_import_flags_len(imports, mk.imports@, imports.len() as int, true);
    crate::elements::lemma_func_imports_bounded(imports, imports.len() as int);
    if i < imports.len() {
        let c = crate::elements::func_imports_in(imports, i);
        if is_func_import(imports[i]) {
            if c == x {
                lemma_import_flags_at(imports, mk.imports@, imports.len() as int, i);
                lemma_func_imports_mono(imports, i + 1, imports.len() as int);
                let flags = import_flags(imports, mk.imports@, imports.len() as int, true);
                assert(resolve_func_from(imports, x, i, c) == Symbol::Import(i as usize));
                assert(func_keep(m, mk)[x as int] == flags[x as int]);
            } else {
                assert(crate::elements::func_imports_in(imports, i + 1) == c + 1);
                assert(resolve_func_from(imports, x, i, c) == resolve_func_from(imports, x, i + 1, c + 1));
                lemma_resolve_keep(m, mk, x, i + 1);
            }
        } else {
            assert(crate::elements::func_imports_in(imports, i + 1) == c);
            assert(resolve_func_from(imports, x, i, c) == resolve_func_from(imports, x, i + 1, c));
            lemma_resolve_keep(m, mk, x, i + 1);
        }
    } else {
        let flags = import_flags(imports, mk.imports@, imports.len() as int, true);
        assert(flags.len() == fic);
        assert(x >= fic);
        assert(resolve_func_from(imports, x, i, fic) == Symbol::Function((x - fic) as usize));
        assert(func_keep(m, mk)[x as int] == mk.functions@[x - fic]);
    }
}

proof fn lemma_func_imports_mono(imports: Seq<ImportEntry>, a: int, b: int)
    requires
        0 <= a <= b <= imports.len(),
    ensures
        crate::elements::func_imports_in(imports, a) <= crate::elements::func_imports_in(imports, b),
    decreases b - a,
{
    if a < b {
        lemma_func_imports_mono(imports, a, b - 1);
    }
}

proof fn lemma_count_true_concat(a: Seq<bool>, b: Seq<bool>, n: int)
    requires
        0 <= n <= b.len(),
    ensures
        count_true(a + b, a.len() + n) == count_true(a, a.len() as int) + count_true(b, n),
    decreases n,
{
    if n > 0 {
        lemma_count_true_concat(a, b, n - 1);
        assert((a + b)[a.len() + n - 1] == b[n - 1]);
    } else {
        lemma_count_true_prefix(a, b, a.len() as int);
    }
}

proof fn lemma_count_true_prefix(a: Seq<bool>, b: Seq<bool>, n: int)
    requires
        0 <= n <= a.len(),
    ensures
        count_true(a + b, n) == count_true(a, n),
    decreases n,
{
    if n > 0 {
        lemma_count_true_prefix(a, b, n - 1);
        assert((a + b)[n - 1] == a[n - 1]);
    }
}

proof fn lemma_same_func_kinds(a: Seq<ImportEntry>, b: Seq<ImportEntry>, n: int)
    requires
        0 <= n <= a.len(),
        a.len() == b.len(),
        forall|i: int| 0 <= i < a.len() ==> is_func_import(#[trigger] a[i]) == is_func_import(b[i]),
    ensures
        crate::elements::func_imports_in(a, n) == crate::elements::func_imports_in(b, n),
    decreases n,
{
    if n > 0 {
        lemma_same_func_kinds(a, b, n - 1);
        assert(is_func_import(a[n - 1]) == is_func_import(b[n - 1]));
    }
}

proof fn lemma_kept_func_imports(m: Module, mk: Marks, n: int)
    requires
        marks_fit(m, mk),
        0 <= n <= m.imports@.len(),
    ensures
        ({
            let kept_imports = keep_by(m.imports@, import_keep(m, mk), n as nat);
            let flags = import_flags(m.imports@, mk.imports@, n, true);
            crate::elements::func_imports_in(kept_imports, kept_imports.len() as int) == count_true(flags, flags.len() as int)
        }),
    decreases n,
{
    if n > 0 {
        lemma_kept_func_imports(m, mk, n - 1);
        let ik = import_keep(m, mk);
        let prev = keep_by(m.imports@, ik, (n - 1) as nat);
        let pflags = import_flags(m.imports@, mk.imports@, n - 1, true);
        let e = m.imports@[n - 1];
        crate::elements::lemma_imports_push(prev, e);
        if is_func_import(e) {
            assert(import_flags(m.imports@, mk.imports@, n, true) == pflags.push(mk.imports@[n - 1]));
            lemma_count_true_prefix(pflags, seq![mk.imports@[n - 1]], pflags.len() as int);
            assert(pflags.push(mk.imports@[n - 1]) == pflags + seq![mk.imports@[n - 1]]);
            assert(ik[n - 1] == mk.imports@[n - 1]);
        } else {
            assert(import_flags(m.imports@, mk.imports@, n, true) == pflags);
        }
    }
}

proof fn lemma_element_seeds_has(m: Module, n: nat, i: int, j: int)
    requires
        n <= m.elements@.len(),
        0 <= i < n,
        0 <= j < m.elements@[i].members@.len(),
    ensures
        element_seeds(m, n).contains(resolve_func(m, m.elements@[i].members@[j])),
    decreases n,
{
    let prev = element_seeds(m, (n - 1) as nat);
    let off = all_code_symbols(m, m.elements@[n - 1].offset@);
    let mem = m.elements@[n - 1].members@.map_values(|x: u32| resolve_func(m, x));
    let cur = element_seeds(m, n);
    assert(cur == prev + off + mem);
    if i < n - 1 {
        lemma_element_seeds_has(m, (n - 1) as nat, i, j);
        let q = choose|q: int| 0 <= q < prev.len() && prev[q] == resolve_func(m, m.elements@[i].members@[j]);
        assert(cur[q] == prev[q]);
    } else {
        assert(cur[prev.len() + off.len() + j] == mem[j]);
    }
}

/// Every function index of `m` names a function: calls, exports, element
/// segments and the start function.
pub open spec fn func_refs_valid(m: Module) -> bool {
    let fs = crate::elements::functions_space(m);
    &&& forall|i: int| 0 <= i < m.code@.len() ==> crate::gas::calls_below(#[trigger] m.code@[i].code@, fs)
    &&& forall|i: int| 0 <= i < m.exports@.len() ==> ((#[trigger] m.exports@[i]).internal matches Internal::Function(x) ==> x < fs)
    &&& forall|i: int, j: int|
        0 <= i < m.elements@.len() && 0 <= j < m.elements@[i].members@.len() ==> #[trigger] m.elements@[i].members@[j] < fs
    &&& (m.start matches Some(x) ==> x < fs)
}

/// After optimization of a module whose function indices all name
/// functions, every call, exported function, element segment member and the
/// start function name a function of the optimized module.
pub proof fn lemma_function_refs_resolve(m: Module, m2: Module, names: Seq<String>)
    requires
        m.imports@.len() <= u32::MAX,
        m.exports@.len() <= u32::MAX,
        crate::elements::functions_space(m) <= u32::MAX,
        m.code@.len() == m.functions@.len(),
        func_refs_valid(m),
        optimized(m, m2, names),
    ensures
        func_refs_valid(m2),
{
    let (mk, ft, gt, tt) = choose|mk: Marks, ft: Seq<u32>, gt: Seq<u32>, tt: Seq<u32>|
        is_closure(m, seeds(m, names), mk) && #[trigger] pruned(m, m2, mk, ft, gt, tt);
    let fs = crate::elements::functions_space(m);
    let fk = func_keep(m, mk);
    crate::elements::lemma_func_imports_bounded(m.imports@, m.imports@.len() as int);
    let flags = import_flags(m.imports@, mk.imports@, m.imports@.len() as int, true);
    lemma_import_flags_len(m.imports@, mk.imports@, m.imports@.len() as int, true);
    // the size of the new function space
    let ik = import_keep(m, mk);
    let kept_imports = kept(m.imports@, ik);
    lemma_kept_func_imports(m, mk, m.imports@.len() as int);
    assert forall|i: int| 0 <= i < m2.imports@.len() implies is_func_import(#[trigger] m2.imports@[i]) == is_func_import(kept_imports[i]) by {
    }
    lemma_same_func_kinds(m2.imports@, kept_imports, m2.imports@.len() as int);
    lemma_kept_len(m.functions@, mk.functions@, m.functions@.len());
    lemma_count_true_concat(flags, mk.functions@, mk.functions@.len() as int);
    assert(crate::elements::functions_space(m2) == count_true(fk, fk.len() as int));
    lemma_kept_len(m.code@, mk.functions@, m.code@.len());
    lemma_kept_len(fk, fk, fk.len());
    assert forall|k: int| 0 <= k < m2.code@.len() implies crate::gas::calls_below(#[trigger] m2.code@[k].code@, crate::elements::functions_space(m2)) by {
        let kc = kept(m.code@, mk.functions@);
        let i = choose|i: int| 0 <= i < m.code@.len() && mk.functions@[i] && #[trigger] kc[k] == m.code@[i] && new_index(mk.functions@, i) == k;
        let code = m.code@[i].code@;
        assert forall|p: int| 0 <= p < m2.code@[k].code@.len() implies (#[trigger] m2.code@[k].code@[p] matches Instruction::Call(y) ==> y < crate::elements::functions_space(m2)) by {
            if let Instruction::Call(y) = m2.code@[k].code@[p] {
                assert(m2.code@[k].code@[p] == remap_instruction(code[p], ft, gt, tt));
                let x = code[p]->Call_0;
                assert(code[p] is Call);
                assert(x < fs);
                let f = Symbol::Function(i as usize);
                assert(is_marked(mk, f));
                lemma_code_symbols_has(m, code, code.len(), p);
                assert(successors(m, f).contains(resolve_func(m, x))) by {
                    let a = all_code_symbols(m, code);
                    let q = choose|q: int| 0 <= q < a.len() && a[q] == resolve_func(m, x);
                    assert(successors(m, f)[q] == a[q]);
                }
                lemma_resolve_keep(m, mk, x, 0);
                lemma_reach_step(m, seeds(m, names), f, resolve_func(m, x));
                assert(fk[x as int]);
                lemma_renumbering_in_range(fk, fk, ft, x as int);
            }
        }
    }
    let sd = seeds(m, names);
    let es = export_seeds(m.exports@, names, m.exports@.len());
    let ds = data_seeds(m, m.data@.len());
    let els = element_seeds(m, m.elements@.len());
    let st: Seq<Symbol> = match m.start {
        Some(x) => seq![resolve_func(m, x)],
        None => Seq::empty(),
    };
    assert(sd == es + ds + els + st);
    assert forall|i: int, j: int|
        0 <= i < m2.elements@.len() && 0 <= j < m2.elements@[i].members@.len() implies #[trigger] m2.elements@[i].members@[j]
            < crate::elements::functions_space(m2) by {
        let x = m.elements@[i].members@[j];
        assert(m2.elements@[i].members@[j] == remap(ft, x));
        lemma_element_seeds_has(m, m.elements@.len(), i, j);
        let q = choose|q: int| 0 <= q < els.len() && els[q] == resolve_func(m, x);
        assert(sd[es.len() + ds.len() + q] == els[q]);
        lemma_resolve_keep(m, mk, x, 0);
        assert(crate::symbols::reach(m, sd, 0).contains(resolve_func(m, x)));
        assert(fk[x as int]);
        lemma_renumbering_in_range(fk, fk, ft, x as int);
    }
    if let Some(x) = m.start {
        assert(sd[(es.len() + ds.len() + els.len()) as int] == resolve_func(m, x));
        lemma_resolve_keep(m, mk, x, 0);
        assert(crate::symbols::reach(m, sd, 0).contains(resolve_func(m, x)));
        assert(fk[x as int]);
        lemma_renumbering_in_range(fk, fk, ft, x as int);
    }
    let ke = kept(m.exports@, mk.exports@);
    lemma_kept_len(m.exports@, mk.exports@, m.exports@.len());
    assert forall|k: int| 0 <= k < m2.exports@.len() implies ((#[trigger] m2.exports@[k]).internal matches Internal::Function(y)
        ==> y < crate::elements::functions_space(m2)) by {
        if let Internal::Function(y) = m2.exports@[k].internal {
            let e = choose|e: int| 0 <= e < m.exports@.len() && mk.exports@[e] && #[trigger] ke[k] == m.exports@[e] && new_index(mk.exports@, e) == k;
            let x = m.exports@[e].internal->Function_0;
            assert(m.exports@[e].internal is Function);
            let sym = Symbol::Export(e as usize);
            assert(is_marked(mk, sym));
            assert(successors(m, sym)[0] == resolve_func(m, x));
            lemma_resolve_keep(m, mk, x, 0);
            lemma_reach_step(m, sd, sym, resolve_func(m, x));
            assert(fk[x as int]);
            lemma_renumbering_in_range(fk, fk, ft, x as int);
        }
    }
}

proof fn lemma_code_symbols_has_type(m: Module, code: Seq<Instruction>, n: nat, p: int)
    requires
        n <= code.len(),
        0 <= p < n,
        code[p] is CallIndirect,
    ensures
        code_symbols(m, code, n).contains(Symbol::Type(code[p]->CallIndirect_0 as usize)),
    decreases n,
{
    let prev = code_symbols(m, code, (n - 1) as nat);
    let cur = code_symbols(m, code, n);
    assert(cur == prev + instruction_symbols(m, code[n - 1]));
    if p < n - 1 {
        lemma_code_symbols_has_type(m, code, (n - 1) as nat, p);
        let q = choose|q: int| 0 <= q < prev.len() && prev[q] == Symbol::Type(code[p]->CallIndirect_0 as usize);
        assert(cur[q] == prev[q]);
    } else {
        assert(cur[prev.len() as int] == Symbol::Type(code[p]->CallIndirect_0 as usize));
    }
}

/// Every type index of `m` names a type: function type references, function
/// imports and indirect calls.
pub open spec fn type_refs_valid(m: Module) -> bool {
    let nt = m.types@.len();
    &&& forall|i: int| 0 <= i < m.functions@.len() ==> #[trigger] m.functions@[i] < nt
    &&& forall|i: int| 0 <= i < m.imports@.len() ==> ((#[trigger] m.imports@[i]).external matches External::Function(t) ==> t < nt)
    &&& forall|i: int, p: int|
        0 <= i < m.code@.len() && 0 <= p < m.code@[i].code@.len() ==> (#[trigger] m.code@[i].code@[p] matches Instruction::CallIndirect(t, _) ==> t < nt)
}

/// After optimization of a module whose type indices all name types, every
/// type index of the optimized module names one of its types.
pub proof fn lemma_type_refs_resolve(m: Module, m2: Module, names: Seq<String>)
    requires
        m.imports@.len() <= u32::MAX,
        m.types@.len() <= u32::MAX,
        crate::elements::functions_space(m) <= u32::MAX,
        m.code@.len() == m.functions@.len(),
        type_refs_valid(m),
        optimized(m, m2, names),
    ensures
        type_refs_valid(m2),
{
    let (mk, ft, gt, tt) = choose|mk: Marks, ft: Seq<u32>, gt: Seq<u32>, tt: Seq<u32>|
        is_closure(m, seeds(m, names), mk) && #[trigger] pruned(m, m2, mk, ft, gt, tt);
    let sd = seeds(m, names);
    crate::elements::lemma_func_imports_bounded(m.imports@, m.imports@.len() as int);
    lemma_kept_len(m.functions@, mk.functions@, m.functions@.len());
    lemma_kept_len(m.code@, mk.functions@, m.code@.len());
    lemma_kept_len(m.imports@, import_keep(m, mk), m.imports@.len());
    lemma_kept_len(m.types@, mk.types@, m.types@.len());
    let kf = kept(m.functions@, mk.functions@);
    assert forall|k: int| 0 <= k < m2.functions@.len() implies #[trigger] m2.functions@[k] < m2.types@.len() by {
        let i = choose|i: int| 0 <= i < m.functions@.len() && mk.functions@[i] && #[trigger] kf[k] == m.functions@[i] && new_index(mk.functions@, i) == k;
        let t = m.functions@[i];
        let f = Symbol::Function(i as usize);
        assert(is_marked(mk, f));
        let sf = successors(m, f);
        let a = if (i as usize) < m.code@.len() { all_code_symbols(m, m.code@[i].code@) } else { Seq::empty() };
        assert(sf[a.len() as int] == Symbol::Type(t as usize));
        lemma_reach_step(m, sd, f, Symbol::Type(t as usize));
        assert(is_marked(mk, Symbol::Type(t as usize)));
        lemma_renumbering_in_range(m.types@, mk.types@, tt, t as int);
    }
    let ki = kept(m.imports@, import_keep(m, mk));
    assert forall|k: int| 0 <= k < m2.imports@.len() implies ((#[trigger] m2.imports@[k]).external matches External::Function(t2) ==> t2 < m2.types@.len()) by {
        if let External::Function(t2) = m2.imports@[k].external {
            let j = choose|j: int| 0 <= j < m.imports@.len() && import_keep(m, mk)[j] && #[trigger] ki[k] == m.imports@[j] && new_index(import_keep(m, mk), j) == k;
            let t = m.imports@[j].external->Function_0;
            assert(m.imports@[j].external is Function);
            let sym = Symbol::Import(j as usize);
            assert(is_marked(mk, sym));
            assert(successors(m, sym)[0] == Symbol::Type(t as usize));
            lemma_reach_step(m, sd, sym, Symbol::Type(t as usize));
            assert(is_marked(mk, Symbol::Type(t as usize)));
            lemma_renumbering_in_range(m.types@, mk.types@, tt, t as int);
        }
    }
    let kc = kept(m.code@, mk.functions@);
    assert forall|k: int, p: int|
        0 <= k < m2.code@.len() && 0 <= p < m2.code@[k].code@.len() implies (#[trigger] m2.code@[k].code@[p] matches Instruction::CallIndirect(t2, _) ==> t2 < m2.types@.len()) by {
        if let Instruction::CallIndirect(t2, _) = m2.code@[k].code@[p] {
            let i = choose|i: int| 0 <= i < m.code@.len() && mk.functions@[i] && #[trigger] kc[k] == m.code@[i] && new_index(mk.functions@, i) == k;
            let code = m.code@[i].code@;
            assert(m2.code@[k].code@[p] == remap_instruction(code[p], ft, gt, tt));
            assert(code[p] is CallIndirect);
            let t = code[p]->CallIndirect_0;
            let f = Symbol::Function(i as usize);
            assert(is_marked(mk, f));
            lemma_code_symbols_has_type(m, code, code.len(), p);
            assert(successors(m, f).contains(Symbol::Type(t as usize))) by {
                let a = all_code_symbols(m, code);
                let q = choose|q: int| 0 <= q < a.len() && a[q] == Symbol::Type(t as usize);
                assert(successors(m, f)[q] == a[q]);
            }
            lemma_reach_step(m, sd, f, Symbol::Type(t as usize));
            assert(is_marked(mk, Symbol::Type(t as usize)));
            lemma_renumbering_in_range(m.types@, mk.types@, tt, t as int);
        }
    }
}

proof fn lemma_global_flags_at(imports: Seq<ImportEntry>, flags: Seq<bool>, n: int, j: int)
    requires
        0 <= j < n <= imports.len(),
        is_global_import(imports[j]),
    ensures
        crate::elements::global_imports_in(imports, j) < import_flags(imports, flags, n, false).len(),
        import_flags(imports, flags, n, false)[crate::elements::global_imports_in(imports, j) as int] == flags[j],
    decreases n,
{
    lemma_import_flags_len(imports, flags, n, false);
    lemma_import_flags_len(imports, flags, j + 1, false);
    lemma_import_flags_len(imports, flags, n - 1, false);
    if j < n - 1 {
        lemma_global_flags_at(imports, flags, n - 1, j);
    }
}

proof fn lemma_global_imports_mono(imports: Seq<ImportEntry>, a: int, b: int)
    requires
        0 <= a <= b <= imports.len(),
    ensures
        crate::elements::global_imports_in(imports, a) <= crate::elements::global_imports_in(imports, b),
    decreases b - a,
{
    if a < b {
        lemma_global_imports_mono(imports, a, b - 1);
    }
}

proof fn lemma_resolve_glob_keep(m: Module, mk: Marks, x: u32, i: int)
    requires
        marks_fit(m, mk),
        m.imports@.len() <= u32::MAX,
        0 <= i <= m.imports@.len(),
        crate::elements::global_imports_in(m.imports@, i) <= x,
        x < crate::elements::globals_space(m),
    ensures
        ({
            let s = resolve_global_from(m.imports@, x, i, crate::elements::global_imports_in(m.imports@, i));
            &&& in_range(m, s)
            &&& (is_marked(mk, s) <==> global_keep(m, mk)[x as int])
        }),
    decreases m.imports@.len() - i,
{
    let imports = m.imports@;
    let gic = crate::elements::global_import_count(m);
    lemma_import_flags_len(imports, mk.imports@, imports.len() as int, false);
    crate::elements::lemma_func_imports_bounded(imports, imports.len() as int);
    if i < imports.len() {
        let c = crate::elements::global_imports_in(imports, i);
        if is_global_import(imports[i]) {
            if c == x {
                lemma_global_flags_at(imports, mk.imports@, imports.len() as int, i);
                let flags = import_flags(imports, mk.imports@, imports.len() as int, false);
                assert(resolve_global_from(imports, x, i, c) == Symbol::Import(i as usize));
                assert(global_keep(m, mk)[x as int] == flags[x as int]);
            } else {
                assert(crate::elements::global_imports_in(imports, i + 1) == c + 1);
                assert(resolve_global_from(imports, x, i, c) == resolve_global_from(imports, x, i + 1, c + 1));
                lemma_resolve_glob_keep(m, mk, x, i + 1);
            }
        } else {
            assert(crate::elements::global_imports_in(imports, i + 1) == c);
            assert(resolve_global_from(imports, x, i, c) == resolve_global_from(imports, x, i + 1, c));
            lemma_resolve_glob_keep(m, mk, x, i + 1);
        }
    } else {
        let flags = import_flags(imports, mk.imports@, imports.len() as int, false);
        assert(flags.len() == gic);
        assert(resolve_global_from(imports, x, i, gic) == Symbol::Global((x - gic) as usize));
        assert(global_keep(m, mk)[x as int] == mk.globals@[x - gic]);
    }
}

proof fn lemma_same_global_kinds(a: Seq<ImportEntry>, b: Seq<ImportEntry>, n: int)
    requires
        0 <= n <= a.len(),
        a.len() == b.len(),
        forall|i: int| 0 <= i < a.len() ==> is_global_import(#[trigger] a[i]) == is_global_import(b[i]),
    ensures
        crate::elements::global_imports_in(a, n) == crate::elements::global_imports_in(b, n),
    decreases n,
{
    if n > 0 {
        lemma_same_global_kinds(a, b, n - 1);
        assert(is_global_import(a[n - 1]) == is_global_import(b[n - 1]));
    }
}

proof fn lemma_kept_global_imports(m: Module, mk: Marks, n: int)
    requires
        marks_fit(m, mk),
        0 <= n <= m.imports@.len(),
    ensures
        ({
            let kept_imports = keep_by(m.imports@, import_keep(m, mk), n as nat);
            let flags = import_flags(m.imports@, mk.imports@, n, false);
            crate::elements::global_imports_in(kept_imports, kept_imports.len() as int) == count_true(flags, flags.len() as int)
        }),
    decreases n,
{
    if n > 0 {
        lemma_kept_global_imports(m, mk, n - 1);
        let ik = import_keep(m, mk);
        let prev = keep_by(m.imports@, ik, (n - 1) as nat);
        let pflags = import_flags(m.imports@, mk.imports@, n - 1, false);
        let e = m.imports@[n - 1];
        crate::elements::lemma_imports_push(prev, e);
        if is_global_import(e) {
            assert(import_flags(m.imports@, mk.imports@, n, false) == pflags.push(mk.imports@[n - 1]));
            lemma_count_true_prefix(pflags, seq![mk.imports@[n - 1]], pflags.len() as int);
            assert(pflags.push(mk.imports@[n - 1]) == pflags + seq![mk.imports@[n - 1]]);
            assert(ik[n - 1] == mk.imports@[n - 1]);
        } else {
            assert(import_flags(m.imports@, mk.imports@, n, false) == pflags);
        }
    }
}

proof fn lemma_code_symbols_has_global(m: Module, code: Seq<Instruction>, n: nat, p: int)
    requires
        n <= code.len(),
        0 <= p < n,
        code[p] is GetGlobal || code[p] is SetGlobal,
    ensures
        code_symbols(m, code, n).contains(resolve_glob(m, global_of(code[p]))),
    decreases n,
{
    let prev = code_symbols(m, code, (n - 1) as nat);
    let cur = code_symbols(m, code, n);
    assert(cur == prev + instruction_symbols(m, code[n - 1]));
    if p < n - 1 {
        lemma_code_symbols_has_global(m, code, (n - 1) as nat, p);
        let q = choose|q: int| 0 <= q < prev.len() && prev[q] == resolve_glob(m, global_of(code[p]));
        assert(cur[q] == prev[q]);
    } else {
        assert(cur[prev.len() as int] == resolve_glob(m, global_of(code[p])));
    }
}

pub open spec fn global_of(i: Instruction) -> u32 {
    match i {
        Instruction::GetGlobal(x) => x,
        Instruction::SetGlobal(x) => x,
        _ => 0,
    }
}

/// Every global named in `code` is below `bound`.
pub open spec fn globals_below(code: Seq<Instruction>, bound: nat) -> bool {
    forall|p: int|
        0 <= p < code.len() ==> ((#[trigger] code[p] is GetGlobal || code[p] is SetGlobal) ==> global_of(code[p]) < bound)
}

/// Every global index of `m` names a global: in bodies, initializers,
/// segment offsets and exports.
pub open spec fn global_refs_valid(m: Module) -> bool {
    let gs = crate::elements::globals_space(m);
    &&& forall|i: int| 0 <= i < m.code@.len() ==> globals_below(#[trigger] m.code@[i].code@, gs)
    &&& forall|i: int| 0 <= i < m.globals@.len() ==> globals_below(#[trigger] m.globals@[i].init_expr@, gs)
    &&& forall|i: int| 0 <= i < m.data@.len() ==> globals_below(#[trigger] m.data@[i].offset@, gs)
    &&& forall|i: int| 0 <= i < m.elements@.len() ==> globals_below(#[trigger] m.elements@[i].offset@, gs)
    &&& forall|i: int| 0 <= i < m.exports@.len() ==> ((#[trigger] m.exports@[i]).internal matches Internal::Global(x) ==> x < gs)
}

/// The symbols of `code` stand at position `k` of `s`.
pub open spec fn holds_at(s: Seq<Symbol>, k: int, a: Seq<Symbol>) -> bool {
    0 <= k && k + a.len() <= s.len() && s.subrange(k, k + a.len()) == a
}

/// A global named in code whose symbols are reachable from the seeds is
/// kept, so its new index lies in the new global space.
proof fn lemma_global_in_code(
    m: Module,
    m2: Module,
    names: Seq<String>,
    mk: Marks,
    ft: Seq<u32>,
    gt: Seq<u32>,
    tt: Seq<u32>,
    code: Seq<Instruction>,
    p: int,
)
    requires
        m.imports@.len() <= u32::MAX,
        is_closure(m, seeds(m, names), mk),
        pruned(m, m2, mk, ft, gt, tt),
        crate::elements::globals_space(m2) == count_true(global_keep(m, mk), global_keep(m, mk).len() as int),
        global_keep(m, mk).len() == crate::elements::globals_space(m),
        forall|t: Symbol|
            all_code_symbols(m, code).contains(t) && in_range(m, t) ==> #[trigger] crate::symbols::reachable(m, seeds(m, names), t),
        0 <= p < code.len(),
        code[p] is GetGlobal || code[p] is SetGlobal,
        global_of(code[p]) < crate::elements::globals_space(m),
    ensures
        remap(gt, global_of(code[p])) < crate::elements::globals_space(m2),
{
    let x = global_of(code[p]);
    let gk = global_keep(m, mk);
    lemma_code_symbols_has_global(m, code, code.len(), p);
    lemma_resolve_glob_keep(m, mk, x, 0);
    assert(crate::symbols::reachable(m, seeds(m, names), resolve_glob(m, x)));
    assert(is_marked(mk, resolve_glob(m, x)));
    assert(gk[x as int]);
    lemma_kept_len(gk, gk, gk.len());
    lemma_renumbering_in_range(gk, gk, gt, x as int);
}

/// What the code of a reachable entry refers to is reachable.
proof fn lemma_successor_code(m: Module, names: Seq<String>, owner: Symbol, code: Seq<Instruction>, k: int)
    requires
        crate::symbols::reachable(m, seeds(m, names), owner),
        holds_at(successors(m, owner), k, all_code_symbols(m, code)),
    ensures
        forall|t: Symbol|
            all_code_symbols(m, code).contains(t) && in_range(m, t) ==> #[trigger] crate::symbols::reachable(m, seeds(m, names), t),
{
    let a = all_code_symbols(m, code);
    assert forall|t: Symbol| a.contains(t) && in_range(m, t) implies #[trigger] crate::symbols::reachable(m, seeds(m, names), t) by {
        let q = choose|q: int| 0 <= q < a.len() && a[q] == t;
        assert(successors(m, owner)[k + q] == a[q]);
        lemma_reach_step(m, seeds(m, names), owner, t);
    }
}

/// What seed code refers to is reachable.
proof fn lemma_seed_code(m: Module, names: Seq<String>, code: Seq<Instruction>, k: int)
    requires
        holds_at(seeds(m, names), k, all_code_symbols(m, code)),
    ensures
        forall|t: Symbol|
            all_code_symbols(m, code).contains(t) && in_range(m, t) ==> #[trigger] crate::symbols::reachable(m, seeds(m, names), t),
{
    let a = all_code_symbols(m, code);
    let sd = seeds(m, names);
    assert forall|t: Symbol| a.contains(t) && in_range(m, t) implies #[trigger] crate::symbols::reachable(m, sd, t) by {
        let q = choose|q: int| 0 <= q < a.len() && a[q] == t;
        assert(sd[k + q] == a[q]);
        assert(crate::symbols::reach(m, sd, 0).contains(t));
    }
}

proof fn lemma_data_seeds_hold(m: Module, n: nat, i: int) -> (k: int)
    requires
        n <= m.data@.len(),
        0 <= i < n,
    ensures
        holds_at(data_seeds(m, n), k, all_code_symbols(m, m.data@[i].offset@)),
    decreases n,
{
    let prev = data_seeds(m, (n - 1) as nat);
    let cur = data_seeds(m, n);
    assert(cur == prev + all_code_symbols(m, m.data@[n - 1].offset@));
    if i < n - 1 {
        let k = lemma_data_seeds_hold(m, (n - 1) as nat, i);
        assert(cur.subrange(k, k + all_code_symbols(m, m.data@[i].offset@).len()) =~= prev.subrange(
            k,
            k + all_code_symbols(m, m.data@[i].offset@).len(),
        ));
        k
    } else {
        assert(cur.subrange(prev.len() as int, cur.len() as int) =~= all_code_symbols(m, m.data@[i].offset@));
        prev.len() as int
    }
}

proof fn lemma_element_seeds_hold(m: Module, n: nat, i: int) -> (k: int)
    requires
        n <= m.elements@.len(),
        0 <= i < n,
    ensures
        holds_at(element_seeds(m, n), k, all_code_symbols(m, m.elements@[i].offset@)),
    decreases n,
{
    let prev = element_seeds(m, (n - 1) as nat);
    let off = all_code_symbols(m, m.elements@[n - 1].offset@);
    let mem = m.elements@[n - 1].members@.map_values(|x: u32| resolve_func(m, x));
    let cur = element_seeds(m, n);
    assert(cur == prev + off + mem);
    if i < n - 1 {
        let k = lemma_element_seeds_hold(m, (n - 1) as nat, i);
        let a = all_code_symbols(m, m.elements@[i].offset@);
        assert(cur.subrange(k, k + a.len()) =~= prev.subrange(k, k + a.len()));
        k
    } else {
        assert(cur.subrange(prev.len() as int, (prev.len() + off.len()) as int) =~= off);
        prev.len() as int
    }
}

/// After optimization of a module whose global indices all name globals,
/// every global index of the optimized module names one of its globals.
pub proof fn lemma_global_refs_resolve(m: Module, m2: Module, names: Seq<String>)
    requires
        m.imports@.len() <= u32::MAX,
        m.exports@.len() <= u32::MAX,
        crate::elements::globals_space(m) <= u32::MAX,
        crate::elements::functions_space(m) <= u32::MAX,
        m.code@.len() == m.functions@.len(),
        global_refs_valid(m),
        optimized(m, m2, names),
    ensures
        global_refs_valid(m2),
{
    let (mk, ft, gt, tt) = choose|mk: Marks, ft: Seq<u32>, gt: Seq<u32>, tt: Seq<u32>|
        is_closure(m, seeds(m, names), mk) && #[trigger] pruned(m, m2, mk, ft, gt, tt);
    let sd = seeds(m, names);
    let gk = global_keep(m, mk);
    let flags = import_flags(m.imports@, mk.imports@, m.imports@.len() as int, false);
    crate::elements::lemma_func_imports_bounded(m.imports@, m.imports@.len() as int);
    lemma_import_flags_len(m.imports@, mk.imports@, m.imports@.len() as int, false);
    let ik = import_keep(m, mk);
    let kept_imports = kept(m.imports@, ik);
    lemma_kept_global_imports(m, mk, m.imports@.len() as int);
    assert forall|i: int| 0 <= i < m2.imports@.len() implies is_global_import(#[trigger] m2.imports@[i]) == is_global_import(kept_imports[i]) by {
    }
    lemma_same_global_kinds(m2.imports@, kept_imports, m2.imports@.len() as int);
    lemma_kept_len(m.globals@, mk.globals@, m.globals@.len());
    lemma_count_true_concat(flags, mk.globals@, mk.globals@.len() as int);
    assert(crate::elements::globals_space(m2) == count_true(gk, gk.len() as int));
    let gs2 = crate::elements::globals_space(m2);

    lemma_kept_len(m.code@, mk.functions@, m.code@.len());
    let kc = kept(m.code@, mk.functions@);
    assert forall|k: int| 0 <= k < m2.code@.len() implies globals_below(#[trigger] m2.code@[k].code@, gs2) by {
        let i = choose|i: int| 0 <= i < m.code@.len() && mk.functions@[i] && #[trigger] kc[k] == m.code@[i] && new_index(mk.functions@, i) == k;
        let code = m.code@[i].code@;
        let f = Symbol::Function(i as usize);
        assert(is_marked(mk, f));
        let a = all_code_symbols(m, code);
        assert(successors(m, f).subrange(0, a.len() as int) =~= a);
        lemma_successor_code(m, names, f, code, 0);
        assert forall|p: int| 0 <= p < m2.code@[k].code@.len() && (#[trigger] m2.code@[k].code@[p] is GetGlobal || m2.code@[k].code@[p] is SetGlobal) implies global_of(m2.code@[k].code@[p]) < gs2 by {
            assert(m2.code@[k].code@[p] == remap_instruction(code[p], ft, gt, tt));
            if code[p] is GetGlobal || code[p] is SetGlobal {
                lemma_global_in_code(m, m2, names, mk, ft, gt, tt, code, p);
            }
        }
    }
    let kg = kept(m.globals@, mk.globals@);
    assert forall|k: int| 0 <= k < m2.globals@.len() implies globals_below(#[trigger] m2.globals@[k].init_expr@, gs2) by {
        let i = choose|i: int| 0 <= i < m.globals@.len() && mk.globals@[i] && #[trigger] kg[k] == m.globals@[i] && new_index(mk.globals@, i) == k;
        let code = m.globals@[i].init_expr@;
        let g = Symbol::Global(i as usize);
        assert(is_marked(mk, g));
        let a = all_code_symbols(m, code);
        assert(successors(m, g).subrange(0, a.len() as int) =~= a);
        lemma_successor_code(m, names, g, code, 0);
        assert forall|p: int| 0 <= p < m2.globals@[k].init_expr@.len() && (#[trigger] m2.globals@[k].init_expr@[p] is GetGlobal || m2.globals@[k].init_expr@[p] is SetGlobal) implies global_of(m2.globals@[k].init_expr@[p]) < gs2 by {
            assert(m2.globals@[k].init_expr@[p] == remap_instruction(code[p], ft, gt, tt));
            if code[p] is GetGlobal || code[p] is SetGlobal {
                lemma_global_in_code(m, m2, names, mk, ft, gt, tt, code, p);
            }
        }
    }
    let es = export_seeds(m.exports@, names, m.exports@.len());
    let ds = data_seeds(m, m.data@.len());
    let els = element_seeds(m, m.elements@.len());
    let st: Seq<Symbol> = match m.start {
        Some(x) => seq![resolve_func(m, x)],
        None => Seq::empty(),
    };
    assert(sd == es + ds + els + st);
    assert forall|k: int| 0 <= k < m2.data@.len() implies globals_below(#[trigger] m2.data@[k].offset@, gs2) by {
        let code = m.data@[k].offset@;
        let a = all_code_symbols(m, code);
        let q = lemma_data_seeds_hold(m, m.data@.len(), k);
        assert(sd.subrange(es.len() + q, es.len() + q + a.len()) =~= ds.subrange(q, q + a.len()));
        lemma_seed_code(m, names, code, es.len() + q);
        assert forall|p: int| 0 <= p < m2.data@[k].offset@.len() && (#[trigger] m2.data@[k].offset@[p] is GetGlobal || m2.data@[k].offset@[p] is SetGlobal) implies global_of(m2.data@[k].offset@[p]) < gs2 by {
            assert(m2.data@[k].offset@[p] == remap_instruction(code[p], ft, gt, tt));
            if code[p] is GetGlobal || code[p] is SetGlobal {
                lemma_global_in_code(m, m2, names, mk, ft, gt, tt, code, p);
            }
        }
    }
    assert forall|k: int| 0 <= k < m2.elements@.len() implies globals_below(#[trigger] m2.elements@[k].offset@, gs2) by {
        let code = m.elements@[k].offset@;
        let a = all_code_symbols(m, code);
        let q = lemma_element_seeds_hold(m, m.elements@.len(), k);
        assert(sd.subrange(es.len() + ds.len() + q, es.len() + ds.len() + q + a.len()) =~= els.subrange(q, q + a.len()));
        lemma_seed_code(m, names, code, es.len() + ds.len() + q);
        assert forall|p: int| 0 <= p < m2.elements@[k].offset@.len() && (#[trigger] m2.elements@[k].offset@[p] is GetGlobal || m2.elements@[k].offset@[p] is SetGlobal) implies global_of(m2.elements@[k].offset@[p]) < gs2 by {
            assert(m2.elements@[k].offset@[p] == remap_instruction(code[p], ft, gt, tt));
            if code[p] is GetGlobal || code[p] is SetGlobal {
                lemma_global_in_code(m, m2, names, mk, ft, gt, tt, code, p);
            }
        }
    }
    let ke = kept(m.exports@, mk.exports@);
    lemma_kept_len(m.exports@, mk.exports@, m.exports@.len());
    lemma_kept_len(gk, gk, gk.len());
    assert forall|k: int| 0 <= k < m2.exports@.len() implies ((#[trigger] m2.exports@[k]).internal matches Internal::Global(y) ==> y < gs2) by {
        if let Internal::Global(y) = m2.exports@[k].internal {
            let e = choose|e: int| 0 <= e < m.exports@.len() && mk.exports@[e] && #[trigger] ke[k] == m.exports@[e] && new_index(mk.exports@, e) == k;
            let x = m.exports@[e].internal->Global_0;
            assert(m.exports@[e].internal is Global);
            let sym = Symbol::Export(e as usize);
            assert(is_marked(mk, sym));
            assert(successors(m, sym)[0] == resolve_glob(m, x));
            lemma_resolve_glob_keep(m, mk, x, 0);
            lemma_reach_step(m, sd, sym, resolve_glob(m, x));
            assert(gk[x as int]);
            lemma_renumbering_in_range(gk, gk, gt, x as int);
        }
    }
}

/// Optimization keeps a module's indices consistent: where every function,
/// type and global index names an entry before, every one of them names an
/// entry of the right kind after.
pub proof fn lemma_index_consistency(m: Module, m2: Module, names: Seq<String>)
    requires
        m.imports@.len() <= u32::MAX,
        m.exports@.len() <= u32::MAX,
        m.types@.len() <= u32::MAX,
        crate::elements::functions_space(m) <= u32::MAX,
        crate::elements::globals_space(m) <= u32::MAX,
        m.code@.len() == m.functions@.len(),
        func_refs_valid(m),
        type_refs_valid(m),
        global_refs_valid(m),
        optimized(m, m2, names),
    ensures
        func_refs_valid(m2),
        type_refs_valid(m2),
        global_refs_valid(m2),
{
    lemma_function_refs_resolve(m, m2, names);
    lemma_type_refs_resolve(m, m2, names);
    lemma_global_refs_resolve(m, m2, names);
}

/// For each entry of a section, whether its symbol is reachable from the
/// seeds of `names`.
pub open spec fn reach_flags(m: Module, names: Seq<String>, n: nat, sym: spec_fn(usize) -> Symbol) -> Seq<bool> {
    Seq::new(n, |i: int| crate::symbols::reachable(m, seeds(m, names), sym(i as usize)))
}

proof fn lemma_flags_are_reach(m: Module, names: Seq<String>, mk: Marks, flags: Seq<bool>, sym: spec_fn(usize) -> Symbol)
    requires
        is_closure(m, seeds(m, names), mk),
        flags.len() <= u32::MAX,
        forall|i: int| 0 <= i < flags.len() ==> is_marked(mk, #[trigger] sym(i as usize)) == flags[i],
    ensures
        flags == reach_flags(m, names, flags.len(), sym),
{
    assert(flags =~= reach_flags(m, names, flags.len(), sym));
}

/// `m2` holds exactly the entries of `m` whose symbols are reachable from
/// the seeds of `names`, in their order, renumbered by `ft`, `gt` and `tt`.
pub open spec fn reachable_kept(m: Module, m2: Module, names: Seq<String>, ft: Seq<u32>, gt: Seq<u32>, tt: Seq<u32>) -> bool {
    let rf = reach_flags(m, names, m.functions@.len(), |i: usize| Symbol::Function(i));
    let rg = reach_flags(m, names, m.globals@.len(), |i: usize| Symbol::Global(i));
    let re = reach_flags(m, names, m.exports@.len(), |i: usize| Symbol::Export(i));
    let rt = reach_flags(m, names, m.types@.len(), |i: usize| Symbol::Type(i));
    &&& m2.types@ == kept(m.types@, rt)
    &&& m2.functions@ == kept(m.functions@, rf).map_values(|t: u32| remap(tt, t))
    &&& m2.code@.len() == kept(m.code@, rf).len()
    &&& forall|i: int|
        0 <= i < m2.code@.len() ==> (#[trigger] m2.code@[i]).locals == kept(m.code@, rf)[i].locals
            && m2.code@[i].code@ == remap_code(kept(m.code@, rf)[i].code@, ft, gt, tt)
    &&& m2.globals@.len() == kept(m.globals@, rg).len()
    &&& forall|i: int|
        0 <= i < m2.globals@.len() ==> (#[trigger] m2.globals@[i]).global_type == kept(m.globals@, rg)[i].global_type
            && m2.globals@[i].init_expr@ == remap_code(kept(m.globals@, rg)[i].init_expr@, ft, gt, tt)
    &&& m2.exports@.len() == kept(m.exports@, re).len()
    &&& forall|i: int| 0 <= i < m2.exports@.len() ==> (#[trigger] m2.exports@[i]).field == kept(m.exports@, re)[i].field
}

/// Optimization keeps exactly the entries reachable from the kept exports,
/// the segments and the start function: the defined functions (bodies and
/// types), globals, types and exports of the result are those of the module
/// whose symbols are reachable, in their order, renumbered.
pub proof fn lemma_optimize_keeps_reachable(m: Module, m2: Module, names: Seq<String>)
    requires
        optimized(m, m2, names),
        m.code@.len() == m.functions@.len(),
        m.functions@.len() <= u32::MAX,
        m.globals@.len() <= u32::MAX,
        m.exports@.len() <= u32::MAX,
        m.types@.len() <= u32::MAX,
    ensures
        exists|ft: Seq<u32>, gt: Seq<u32>, tt: Seq<u32>| #[trigger] reachable_kept(m, m2, names, ft, gt, tt),
{
    let (mk, ft, gt, tt) = choose|mk: Marks, ft: Seq<u32>, gt: Seq<u32>, tt: Seq<u32>|
        is_closure(m, seeds(m, names), mk) && #[trigger] pruned(m, m2, mk, ft, gt, tt);
    lemma_flags_are_reach(m, names, mk, mk.functions@, |i: usize| Symbol::Function(i));
    lemma_flags_are_reach(m, names, mk, mk.globals@, |i: usize| Symbol::Global(i));
    lemma_flags_are_reach(m, names, mk, mk.exports@, |i: usize| Symbol::Export(i));
    lemma_flags_are_reach(m, names, mk, mk.types@, |i: usize| Symbol::Type(i));
    assert(reachable_kept(m, m2, names, ft, gt, tt));
}

} // verus!
