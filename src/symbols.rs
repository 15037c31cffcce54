//! Symbols of a module and what each one refers to, and the closure of a set
//! of symbols under those references.
use vstd::prelude::*;

use crate::elements::{is_func_import, is_global_import, External, ImportEntry, Instruction, Internal, Module};

verus! {

/// An entry of a module: a type, an import, a defined global, a defined
/// function or an export, by its position in its section.
#[derive(PartialEq, Eq, Structural, Hash, Copy, Clone, Debug)]
pub enum Symbol {
    Type(usize),
    Import(usize),
    Global(usize),
    Function(usize),
    Export(usize),
}

/// The symbol of function `index` of the combined index space, scanning the
/// imports from position `i` with `count` function imports already passed.
pub open spec fn resolve_func_from(imports: Seq<ImportEntry>, index: u32, i: int, count: nat) -> Symbol
    decreases imports.len() - i,
{
    if i >= imports.len() {
        Symbol::Function((index - count) as usize)
    } else if is_func_import(imports[i]) {
        if count == index {
            Symbol::Import(i as usize)
        } else {
            resolve_func_from(imports, index, i + 1, count + 1)
        }
    } else {
        resolve_func_from(imports, index, i + 1, count)
    }
}

/// The symbol of global `index` of the combined index space, scanning the
/// imports from position `i` with `count` global imports already passed.
pub open spec fn resolve_global_from(imports: Seq<ImportEntry>, index: u32, i: int, count: nat) -> Symbol
    decreases imports.len() - i,
{
    if i >= imports.len() {
        Symbol::Global((index - count) as usize)
    } else if is_global_import(imports[i]) {
        if count == index {
            Symbol::Import(i as usize)
        } else {
            resolve_global_from(imports, index, i + 1, count + 1)
        }
    } else {
        resolve_global_from(imports, index, i + 1, count)
    }
}

/// The symbol that function `index` of the combined index space stands for:
/// an import if it is one, else a defined function.
pub open spec fn resolve_func(m: Module, index: u32) -> Symbol {
    resolve_func_from(m.imports@, index, 0, 0)
}

/// The symbol that global `index` of the combined index space stands for.
pub open spec fn resolve_glob(m: Module, index: u32) -> Symbol {
    resolve_global_from(m.imports@, index, 0, 0)
}

/// The symbols that one instruction refers to.
pub open spec fn instruction_symbols(m: Module, i: Instruction) -> Seq<Symbol> {
    match i {
        Instruction::Call(x) => seq![resolve_func(m, x)],
        Instruction::CallIndirect(t, _) => seq![Symbol::Type(t as usize)],
        Instruction::GetGlobal(x) => seq![resolve_glob(m, x)],
        Instruction::SetGlobal(x) => seq![resolve_glob(m, x)],
        _ => Seq::empty(),
    }
}

/// The symbols that the first `n` instructions of `code` refer to, in order.
pub open spec fn code_symbols(m: Module, code: Seq<Instruction>, n: nat) -> Seq<Symbol>
    decreases n,
{
    if n == 0 || n > code.len() {
        Seq::empty()
    } else {
        code_symbols(m, code, (n - 1) as nat) + instruction_symbols(m, code[n - 1])
    }
}

pub open spec fn all_code_symbols(m: Module, code: Seq<Instruction>) -> Seq<Symbol> {
    code_symbols(m, code, code.len())
}

/// What symbol `s` refers to: an export its internal, a function import its
/// type, a defined function the symbols of its body and its type, a defined
/// global the symbols of its initializer.
pub open spec fn successors(m: Module, s: Symbol) -> Seq<Symbol> {
    match s {
        Symbol::Export(i) => if i < m.exports@.len() {
            match m.exports@[i as int].internal {
                Internal::Function(x) => seq![resolve_func(m, x)],
                Internal::Global(x) => seq![resolve_glob(m, x)],
                _ => Seq::empty(),
            }
        } else {
            Seq::empty()
        },
        Symbol::Import(i) => if i < m.imports@.len() {
            match m.imports@[i as int].external {
                External::Function(t) => seq![Symbol::Type(t as usize)],
                _ => Seq::empty(),
            }
        } else {
            Seq::empty()
        },
        Symbol::Function(i) => (if i < m.code@.len() {
            all_code_symbols(m, m.code@[i as int].code@)
        } else {
            Seq::empty()
        }) + (if i < m.functions@.len() {
            seq![Symbol::Type(m.functions@[i as int] as usize)]
        } else {
            Seq::empty()
        }),
        Symbol::Global(i) => if i < m.globals@.len() {
            all_code_symbols(m, m.globals@[i as int].init_expr@)
        } else {
            Seq::empty()
        },
        Symbol::Type(_) => Seq::empty(),
    }
}

/// Resolves function `index` of the combined index space.
pub fn resolve_function(module: &Module, index: u32) -> (r: Symbol)
    ensures
        r == resolve_func(*module, index),
{
    let mut count: u32 = 0;
    let mut i: usize = 0;
    while i < module.imports.len()
        invariant
            i <= module.imports@.len(),
            count <= index,
            resolve_func(*module, index) == resolve_func_from(module.imports@, index, i as int, count as nat),
        decreases module.imports@.len() - i,
    {
        if let External::Function(_) = module.imports[i].external {
            if count == index {
                return Symbol::Import(i);
            }
            count = count + 1;
        }
        i = i + 1;
    }
    Symbol::Function((index - count) as usize)
}

/// Resolves global `index` of the combined index space.
pub fn resolve_global(module: &Module, index: u32) -> (r: Symbol)
    ensures
        r == resolve_glob(*module, index),
{
    let mut count: u32 = 0;
    let mut i: usize = 0;
    while i < module.imports.len()
        invariant
            i <= module.imports@.len(),
            count <= index,
            resolve_glob(*module, index) == resolve_global_from(module.imports@, index, i as int, count as nat),
        decreases module.imports@.len() - i,
    {
        if let External::Global(_) = module.imports[i].external {
            if count == index {
                return Symbol::Import(i);
            }
            count = count + 1;
        }
        i = i + 1;
    }
    Symbol::Global((index - count) as usize)
}

/// Appends to `dest` the symbols that `code` refers to.
pub fn push_code_symbols(module: &Module, code: &Vec<Instruction>, dest: &mut Vec<Symbol>)
    ensures
        final(dest)@ == old(dest)@ + all_code_symbols(*module, code@),
{
    let ghost d0 = dest@;
    let mut i: usize = 0;
    while i < code.len()
        invariant
            i <= code@.len(),
            dest@ == d0 + code_symbols(*module, code@, i as nat),
        decreases code@.len() - i,
    {
        let ghost before = dest@;
        match code[i] {
            Instruction::Call(x) => dest.push(resolve_function(module, x)),
            Instruction::CallIndirect(t, _) => dest.push(Symbol::Type(t as usize)),
            Instruction::GetGlobal(x) => dest.push(resolve_global(module, x)),
            Instruction::SetGlobal(x) => dest.push(resolve_global(module, x)),
            _ => {},
        }
        proof {
            assert(dest@ =~= before + instruction_symbols(*module, code@[i as int]));
            assert(d0 + code_symbols(*module, code@, (i + 1) as nat) =~= d0 + code_symbols(
                *module,
                code@,
                i as nat,
            ) + instruction_symbols(*module, code@[i as int]));
        }
        i = i + 1;
    }
}

/// The symbols that symbol `s` refers to.
fn successors_of(m: &Module, s: Symbol) -> (r: Vec<Symbol>)
    ensures
        r@ == successors(*m, s),
{
    let mut r: Vec<Symbol> = Vec::new();
    match s {
        Symbol::Export(i) => {
            if i < m.exports.len() {
                match m.exports[i].internal {
                    Internal::Function(x) => r.push(resolve_function(m, x)),
                    Internal::Global(x) => r.push(resolve_global(m, x)),
                    _ => {},
                }
            }
        },
        Symbol::Import(i) => {
            if i < m.imports.len() {
                if let External::Function(t) = m.imports[i].external {
                    r.push(Symbol::Type(t as usize));
                }
            }
        },
        Symbol::Function(i) => {
            if i < m.code.len() {
                push_code_symbols(m, &m.code[i].code, &mut r);
            }
            if i < m.functions.len() {
                r.push(Symbol::Type(m.functions[i] as usize));
            }
        },
        Symbol::Global(i) => {
            if i < m.globals.len() {
                push_code_symbols(m, &m.globals[i].init_expr, &mut r);
            }
        },
        Symbol::Type(_) => {},
    }
    proof {
        assert(r@ =~= successors(*m, s));
    }
    r
}

/// Which symbols of a module are marked, one flag per entry of each section.
pub struct Marks {
    pub types: Vec<bool>,
    pub imports: Vec<bool>,
    pub globals: Vec<bool>,
    pub functions: Vec<bool>,
    pub exports: Vec<bool>,
}

/// The flags of `mk` have one entry per entry of `m`.
pub open spec fn marks_fit(m: Module, mk: Marks) -> bool {
    &&& mk.types@.len() == m.types@.len()
    &&& mk.imports@.len() == m.imports@.len()
    &&& mk.globals@.len() == m.globals@.len()
    &&& mk.functions@.len() == m.functions@.len()
    &&& mk.exports@.len() == m.exports@.len()
}

/// Whether `s` names an entry of `m`.
pub open spec fn in_range(m: Module, s: Symbol) -> bool {
    match s {
        Symbol::Type(i) => i < m.types@.len(),
        Symbol::Import(i) => i < m.imports@.len(),
        Symbol::Global(i) => i < m.globals@.len(),
        Symbol::Function(i) => i < m.functions@.len(),
        Symbol::Export(i) => i < m.exports@.len(),
    }
}

pub open spec fn is_marked(mk: Marks, s: Symbol) -> bool {
    match s {
        Symbol::Type(i) => i < mk.types@.len() && mk.types@[i as int],
        Symbol::Import(i) => i < mk.imports@.len() && mk.imports@[i as int],
        Symbol::Global(i) => i < mk.globals@.len() && mk.globals@[i as int],
        Symbol::Function(i) => i < mk.functions@.len() && mk.functions@[i as int],
        Symbol::Export(i) => i < mk.exports@.len() && mk.exports@[i as int],
    }
}

/// The symbols of `m` reachable from `seeds` in at most `n` steps.
pub open spec fn reach(m: Module, seeds: Seq<Symbol>, n: nat) -> Set<Symbol>
    decreases n,
{
    if n == 0 {
        seeds.to_set().filter(|s: Symbol| in_range(m, s))
    } else {
        let r = reach(m, seeds, (n - 1) as nat);
        r.union(
            Set::new(
                |t: Symbol|
                    in_range(m, t) && exists|s: Symbol| #[trigger]
                        r.contains(s) && successors(m, s).contains(t),
            ),
        )
    }
}

/// Whether `t` names an entry of `m` reachable from `seeds`.
pub open spec fn reachable(m: Module, seeds: Seq<Symbol>, t: Symbol) -> bool {
    exists|n: nat| #[trigger] reach(m, seeds, n).contains(t)
}

/// `mk` marks exactly the symbols reachable from `seeds`.
pub open spec fn is_closure(m: Module, seeds: Seq<Symbol>, mk: Marks) -> bool {
    &&& marks_fit(m, mk)
    &&& forall|s: Symbol| #[trigger] is_marked(mk, s) <==> reachable(m, seeds, s)
}

pub open spec fn count_false(v: Seq<bool>) -> nat
    decreases v.len(),
{
    if v.len() == 0 {
        0
    } else {
        count_false(v.drop_last()) + if v.last() {
            0nat
        } else {
            1nat
        }
    }
}

pub open spec fn unmarked(mk: Marks) -> nat {
    count_false(mk.types@) + count_false(mk.imports@) + count_false(mk.globals@) + count_false(
        mk.functions@,
    ) + count_false(mk.exports@)
}

proof fn lemma_count_false_set(v: Seq<bool>, i: int)
    requires
        0 <= i < v.len(),
        !v[i],
    ensures
        count_false(v.update(i, true)) + 1 == count_false(v),
    decreases v.len(),
{
    let w = v.update(i, true);
    if i < v.len() - 1 {
        assert(w.drop_last() =~= v.drop_last().update(i, true));
        lemma_count_false_set(v.drop_last(), i);
    } else {
        assert(w.drop_last() =~= v.drop_last());
    }
}

fn all_false(n: usize) -> (r: Vec<bool>)
    ensures
        r@.len() == n,
        forall|i: int| 0 <= i < n ==> !r@[i],
{
    let mut r: Vec<bool> = Vec::new();
    while r.len() < n
        invariant
            r@.len() <= n,
            forall|i: int| 0 <= i < r@.len() ==> !r@[i],
        decreases n - r@.len(),
    {
        r.push(false);
    }
    r
}

fn set_flag(v: &mut Vec<bool>, i: usize) -> (newly: bool)
    ensures
        final(v)@.len() == old(v)@.len(),
        newly == (i < old(v)@.len() && !old(v)@[i as int]),
        newly ==> final(v)@ == old(v)@.update(i as int, true) && count_false(final(v)@) + 1
            == count_false(old(v)@),
        !newly ==> final(v)@ == old(v)@,
{
    if i < v.len() && !v[i] {
        proof {
            lemma_count_false_set(v@, i as int);
        }
        v.set(i, true);
        true
    } else {
        false
    }
}

/// Marks `s` if it names an entry of `m`; whether it was unmarked before.
fn mark(mk: &mut Marks, s: Symbol) -> (newly: bool)
    ensures
        newly == (!is_marked(*old(mk), s) && match s {
            Symbol::Type(i) => i < old(mk).types@.len(),
            Symbol::Import(i) => i < old(mk).imports@.len(),
            Symbol::Global(i) => i < old(mk).globals@.len(),
            Symbol::Function(i) => i < old(mk).functions@.len(),
            Symbol::Export(i) => i < old(mk).exports@.len(),
        }),
        forall|t: Symbol| #[trigger] is_marked(*final(mk), t) == (is_marked(*old(mk), t) || (newly && t == s)),
        newly ==> unmarked(*final(mk)) + 1 == unmarked(*old(mk)),
        !newly ==> unmarked(*final(mk)) == unmarked(*old(mk)),
        final(mk).types@.len() == old(mk).types@.len(),
        final(mk).imports@.len() == old(mk).imports@.len(),
        final(mk).globals@.len() == old(mk).globals@.len(),
        final(mk).functions@.len() == old(mk).functions@.len(),
        final(mk).exports@.len() == old(mk).exports@.len(),
{
    match s {
        Symbol::Type(i) => set_flag(&mut mk.types, i),
        Symbol::Import(i) => set_flag(&mut mk.imports, i),
        Symbol::Global(i) => set_flag(&mut mk.globals, i),
        Symbol::Function(i) => set_flag(&mut mk.functions, i),
        Symbol::Export(i) => set_flag(&mut mk.exports, i),
    }
}

/// What a reachable symbol refers to, within the module, is reachable.
pub proof fn lemma_reach_step(m: Module, seeds: Seq<Symbol>, s: Symbol, t: Symbol)
    requires
        reachable(m, seeds, s),
        successors(m, s).contains(t),
        in_range(m, t),
    ensures
        reachable(m, seeds, t),
{
    let n = choose|n: nat| #[trigger] reach(m, seeds, n).contains(s);
    assert(reach(m, seeds, n + 1).contains(t));
}

proof fn lemma_closed_covers(m: Module, seeds: Seq<Symbol>, mk: Marks, n: nat)
    requires
        forall|s: Symbol| seeds.contains(s) && in_range(m, s) ==> #[trigger] is_marked(mk, s),
        forall|s: Symbol, t: Symbol|
            #[trigger] is_marked(mk, s) && #[trigger] successors(m, s).contains(t) && in_range(m, t)
                ==> is_marked(mk, t),
    ensures
        forall|t: Symbol| #[trigger] reach(m, seeds, n).contains(t) ==> is_marked(mk, t),
    decreases n,
{
    if n > 0 {
        lemma_closed_covers(m, seeds, mk, (n - 1) as nat);
        let r = reach(m, seeds, (n - 1) as nat);
        assert forall|t: Symbol| #[trigger] reach(m, seeds, n).contains(t) implies is_marked(mk, t) by {
            if !r.contains(t) {
                let s = choose|s: Symbol| #[trigger] r.contains(s) && successors(m, s).contains(t);
                assert(is_marked(mk, s));
            }
        }
    } else {
        assert forall|t: Symbol| #[trigger] reach(m, seeds, n).contains(t) implies is_marked(mk, t) by {
            assert(seeds.to_set().contains(t));
        }
    }
}

/// Marks every symbol of `module` reachable from `seeds`, and no other.
pub fn expand_symbols(module: &Module, seeds: &Vec<Symbol>) -> (mk: Marks)
    ensures
        is_closure(*module, seeds@, mk),
{
    let m = module;
    let mut mk = Marks {
        types: all_false(m.types.len()),
        imports: all_false(m.imports.len()),
        globals: all_false(m.globals.len()),
        functions: all_false(m.functions.len()),
        exports: all_false(m.exports.len()),
    };
    let mut fringe: Vec<Symbol> = Vec::new();
    let mut i: usize = 0;
    while i < seeds.len()
        invariant
            i <= seeds@.len(),
            marks_fit(*m, mk),
            forall|s: Symbol| #[trigger] is_marked(mk, s) ==> reachable(*m, seeds@, s),
            forall|s: Symbol| #[trigger] is_marked(mk, s) ==> fringe@.contains(s),
            forall|j: int| 0 <= j < fringe@.len() ==> is_marked(mk, #[trigger] fringe@[j]),
            forall|j: int| 0 <= j < i && in_range(*m, seeds@[j]) ==> is_marked(mk, #[trigger] seeds@[j]),
        decreases seeds@.len() - i,
    {
        let s = seeds[i];
        let ghost mk0 = mk;
        let ghost fr0 = fringe@;
        if mark(&mut mk, s) {
            proof {
                assert(reach(*m, seeds@, 0).contains(s));
            }
            fringe.push(s);
        }
        proof {
            assert forall|t: Symbol| #[trigger] is_marked(mk, t) implies fringe@.contains(t) by {
                if is_marked(mk0, t) {
                    assert(fr0.contains(t));
                    let q = choose|q: int| 0 <= q < fr0.len() && fr0[q] == t;
                    assert(fringe@[q] == t);
                } else {
                    assert(fringe@[fringe@.len() - 1] == t);
                }
            }
        }
        i = i + 1;
    }
    proof {
        assert forall|s: Symbol| seeds@.contains(s) && in_range(*m, s) implies #[trigger] is_marked(mk, s) by {
            let j = choose|j: int| 0 <= j < seeds@.len() && seeds@[j] == s;
            assert(is_marked(mk, seeds@[j]));
        }
    }
    while fringe.len() > 0
        invariant
            marks_fit(*m, mk),
            forall|s: Symbol| #[trigger] is_marked(mk, s) ==> reachable(*m, seeds@, s),
            forall|j: int| 0 <= j < fringe@.len() ==> is_marked(mk, #[trigger] fringe@[j]),
            forall|s: Symbol| seeds@.contains(s) && in_range(*m, s) ==> #[trigger] is_marked(mk, s),
            forall|s: Symbol, t: Symbol|
                #[trigger] is_marked(mk, s) && #[trigger] successors(*m, s).contains(t) && in_range(*m, t)
                    && !fringe@.contains(s) ==> is_marked(mk, t),
        decreases 2 * unmarked(mk) + fringe@.len(),
    {
        let ghost frp = fringe@;
        let s = fringe.pop().unwrap();
        let ghost base = 2 * unmarked(mk) + fringe@.len();
        let ghost fr0 = fringe@;
        proof {
            assert(frp == fr0.push(s));
            assert forall|u: Symbol| frp.contains(u) && u != s implies fr0.contains(u) by {
                let q = choose|q: int| 0 <= q < frp.len() && frp[q] == u;
                assert(fr0[q] == u);
            }
        }
        let succ = successors_of(m, s);
        let mut k: usize = 0;
        while k < succ.len()
            invariant
                k <= succ@.len(),
                succ@ == successors(*m, s),
                is_marked(mk, s),
                marks_fit(*m, mk),
                forall|u: Symbol| #[trigger] is_marked(mk, u) ==> reachable(*m, seeds@, u),
                forall|j: int| 0 <= j < fringe@.len() ==> is_marked(mk, #[trigger] fringe@[j]),
                forall|u: Symbol| seeds@.contains(u) && in_range(*m, u) ==> #[trigger] is_marked(mk, u),
                forall|u: Symbol, t: Symbol|
                    #[trigger] is_marked(mk, u) && #[trigger] successors(*m, u).contains(t) && in_range(*m, t)
                        && !fringe@.contains(u) && u != s ==> is_marked(mk, t),
                forall|j: int| 0 <= j < k && in_range(*m, succ@[j]) ==> is_marked(mk, #[trigger] succ@[j]),
                2 * unmarked(mk) + fringe@.len() <= base,
                forall|j: int| 0 <= j < fr0.len() ==> fringe@.contains(#[trigger] fr0[j]),
            decreases succ@.len() - k,
        {
            let t = succ[k];
            let ghost fr1 = fringe@;
            let ghost mk1 = mk;
            if mark(&mut mk, t) {
                proof {
                    assert(succ@.contains(t)) by {
                        assert(succ@[k as int] == t);
                    }
                    lemma_reach_step(*m, seeds@, s, t);
                }
                fringe.push(t);
                proof {
                    assert forall|j: int| 0 <= j < fr0.len() implies fringe@.contains(#[trigger] fr0[j]) by {
                        assert(fr1.contains(fr0[j]));
                        let q = choose|q: int| 0 <= q < fr1.len() && fr1[q] == fr0[j];
                        assert(fringe@[q] == fr0[j]);
                    }
                }
            }
            proof {
                assert forall|u: Symbol, t2: Symbol|
                    #[trigger] is_marked(mk, u) && #[trigger] successors(*m, u).contains(t2) && in_range(*m, t2)
                        && !fringe@.contains(u) && u != s implies is_marked(mk, t2) by {
                    if !fr1.contains(u) && is_marked(mk1, u) {
                        assert(is_marked(mk1, t2));
                    } else if fr1.contains(u) {
                        let q = choose|q: int| 0 <= q < fr1.len() && fr1[q] == u;
                        assert(fringe@[q] == u);
                    } else {
                        assert(u == t);
                        assert(fringe@[fringe@.len() - 1] == u);
                    }
                }
            }
            k = k + 1;
        }
        proof {
            assert forall|u: Symbol, t: Symbol|
                #[trigger] is_marked(mk, u) && #[trigger] successors(*m, u).contains(t) && in_range(*m, t)
                    && !fringe@.contains(u) implies is_marked(mk, t) by {
                if u == s {
                    let j = choose|j: int| 0 <= j < succ@.len() && succ@[j] == t;
                    assert(is_marked(mk, succ@[j]));
                }
            }
        }
    }
    proof {
        assert forall|t: Symbol| #[trigger] is_marked(mk, t) <==> reachable(*m, seeds@, t) by {
            if reachable(*m, seeds@, t) {
                let n = choose|n: nat| #[trigger] reach(*m, seeds@, n).contains(t);
                lemma_closed_covers(*m, seeds@, mk, n);
            }
        }
    }
    mk
}

} // verus!
