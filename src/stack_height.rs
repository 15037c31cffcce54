//! Stack height limiting: a global counts the stack in use, every call adds
//! the callee's static stack cost before it and takes it off after it, and a
//! call that would pass the limit traps.
//!
//! The stack cost of a defined function is its number of locals plus the
//! greatest height its value stack reaches; imports cost nothing. Exported
//! functions and table entries are reached through thunks, which wrap the
//! call the same way.
use vstd::prelude::*;

use crate::elements::{
    func_import_count, func_imports_in, functions_space, global_import_count_of, globals_space, reversed, BlockType, ElementSegment,
    ExportEntry, External, FuncBody, GlobalEntry, GlobalType, ImportEntry, Instruction, Internal,
    Module, ValueType, I32_ADD, I32_GT_U, I32_SUB,
};

verus! {

/// The module is invalid: a body does not type its stack, or an index does
/// not resolve.
#[derive(Debug)]
pub struct Error(pub String);

/// A control frame: the stack height at its entry, how many values it leaves,
/// and whether an unconditional branch made the rest of it unreachable.
#[derive(Clone, Copy, Debug, PartialEq, Eq)]
pub struct Frame {
    pub start_height: u32,
    pub end_arity: u32,
    pub polymorphic: bool,
}

/// Type indices of the function imports among the first `n` imports, in order.
pub open spec fn import_func_types(imports: Seq<ImportEntry>, n: int) -> Seq<u32>
    decreases n,
{
    if n <= 0 {
        Seq::empty()
    } else {
        let prev = import_func_types(imports, n - 1);
        match imports[n - 1].external {
            External::Function(t) => prev.push(t),
            _ => prev,
        }
    }
}

/// The type index of each function of the combined index space.
pub open spec fn func_type_indices(m: Module) -> Seq<u32> {
    import_func_types(m.imports@, m.imports@.len() as int) + m.functions@
}

/// Parameter and result counts of type `t`, if `m` has it.
pub open spec fn type_arity(m: Module, t: u32) -> Option<(nat, nat)> {
    if t < m.types@.len() && m.types@[t as int].params@.len() < u32::MAX {
        let ty = m.types@[t as int];
        Some((ty.params@.len(), if ty.return_type is Some { 1nat } else { 0nat }))
    } else {
        None
    }
}

/// Parameter and result counts of function `f`, if it and its type exist.
pub open spec fn func_arity(m: Module, f: u32) -> Option<(nat, nat)> {
    if f < func_type_indices(m).len() {
        type_arity(m, func_type_indices(m)[f as int])
    } else {
        None
    }
}

pub open spec fn block_arity(bt: BlockType) -> u32 {
    match bt {
        BlockType::NoResult => 0,
        BlockType::Value(_) => 1,
    }
}

/// Values popped and pushed by a numeric instruction, by its opcode.
pub open spec fn numeric_arity(op: u8) -> Option<(nat, nat)> {
    if op == 0x45 || op == 0x50 || (0x67 <= op <= 0x69) || (0x79 <= op <= 0x7b) || (0x8b <= op
        <= 0x91) || (0x99 <= op <= 0x9f) || (0xa7 <= op <= 0xbf) {
        Some((1, 1))
    } else if (0x46 <= op <= 0x4f) || (0x51 <= op <= 0x66) || (0x6a <= op <= 0x78) || (0x7c <= op
        <= 0x8a) || (0x92 <= op <= 0x98) || (0xa0 <= op <= 0xa6) {
        Some((2, 1))
    } else {
        None
    }
}

/// Values popped and pushed by an instruction that neither branches nor
/// opens or closes a frame.
pub open spec fn plain_arity(m: Module, i: Instruction) -> Option<(nat, nat)> {
    match i {
        Instruction::Nop => Some((0, 0)),
        Instruction::BrIf(_) => Some((1, 0)),
        Instruction::Call(f) => func_arity(m, f),
        Instruction::CallIndirect(t, _) => match type_arity(m, t) {
            Some((p, r)) => Some((p + 1, r)),
            None => None,
        },
        Instruction::Drop => Some((1, 0)),
        Instruction::Select => Some((3, 1)),
        Instruction::GetLocal(_) => Some((0, 1)),
        Instruction::SetLocal(_) => Some((1, 0)),
        Instruction::TeeLocal(_) => Some((1, 1)),
        Instruction::GetGlobal(_) => Some((0, 1)),
        Instruction::SetGlobal(_) => Some((1, 0)),
        Instruction::Load(_, _, _) => Some((1, 1)),
        Instruction::Store(_, _, _) => Some((2, 0)),
        Instruction::CurrentMemory(_) => Some((0, 1)),
        Instruction::GrowMemory(_) => Some((1, 1)),
        Instruction::I32Const(_) => Some((0, 1)),
        Instruction::I64Const(_) => Some((0, 1)),
        Instruction::F32Const(_) => Some((0, 1)),
        Instruction::F64Const(_) => Some((0, 1)),
        Instruction::Numeric(op) => numeric_arity(op),
        _ => None,
    }
}

/// The height after popping `n` values in the top frame `f`: below the
/// frame's entry only once it is unreachable, where popping stops there.
pub open spec fn pop_height(height: u32, f: Frame, n: nat) -> Option<u32> {
    if height >= f.start_height + n {
        Some((height - n) as u32)
    } else if f.polymorphic {
        Some(f.start_height)
    } else {
        None
    }
}

/// Height, maximal height and control frames after one instruction.
pub open spec fn stack_step(m: Module, st: (u32, u32, Seq<Frame>), i: Instruction) -> Option<
    (u32, u32, Seq<Frame>),
> {
    let (height, max, frames) = st;
    if frames.len() == 0 {
        None
    } else {
        let top = frames.last();
        match i {
            Instruction::Unreachable | Instruction::Br(_) | Instruction::BrTable(_, _)
            | Instruction::Return => Some(
                (
                    top.start_height,
                    max,
                    frames.drop_last().push(
                        Frame {
                            start_height: top.start_height,
                            end_arity: top.end_arity,
                            polymorphic: true,
                        },
                    ),
                ),
            ),
            Instruction::Block(bt) | Instruction::Loop(bt) => Some(
                (
                    height,
                    max,
                    frames.push(
                        Frame { start_height: height, end_arity: block_arity(bt), polymorphic: false },
                    ),
                ),
            ),
            Instruction::If(bt) => match pop_height(height, top, 1) {
                Some(h) => Some(
                    (
                        h,
                        max,
                        frames.push(
                            Frame { start_height: h, end_arity: block_arity(bt), polymorphic: false },
                        ),
                    ),
                ),
                None => None,
            },
            Instruction::Else => Some(
                (
                    top.start_height,
                    max,
                    frames.drop_last().push(
                        Frame {
                            start_height: top.start_height,
                            end_arity: top.end_arity,
                            polymorphic: false,
                        },
                    ),
                ),
            ),
            Instruction::End => if top.start_height + top.end_arity > u32::MAX {
                None
            } else {
                let h = (top.start_height + top.end_arity) as u32;
                Some((h, if h > max { h } else { max }, frames.drop_last()))
            },
            _ => match plain_arity(m, i) {
                Some((pops, pushes)) => match pop_height(height, top, pops) {
                    Some(h) => if h + pushes > u32::MAX {
                        None
                    } else {
                        let h2 = (h + pushes) as u32;
                        Some((h2, if h2 > max { h2 } else { max }, frames))
                    },
                    None => None,
                },
                None => None,
            },
        }
    }
}

/// The state after the first `n` instructions of `code`, run from `init`.
pub open spec fn stack_run(m: Module, code: Seq<Instruction>, init: (u32, u32, Seq<Frame>), n: nat) -> Option<
    (u32, u32, Seq<Frame>),
>
    decreases n,
{
    if n == 0 {
        Some(init)
    } else {
        match stack_run(m, code, init, (n - 1) as nat) {
            Some(st) => stack_step(m, st, code[n - 1]),
            None => None,
        }
    }
}

/// The greatest height that the value stack of defined function `d` reaches,
/// or `None` if its body does not type its stack or leaves a frame open.
pub open spec fn max_height(m: Module, d: nat) -> Option<u32> {
    if d < m.code@.len() && func_import_count(m) + d < func_type_indices(m).len() {
        match func_arity(m, (func_import_count(m) + d) as u32) {
            Some((_, results)) => {
                let code = m.code@[d as int].code@;
                let init = (0u32, 0u32, seq![Frame { start_height: 0, end_arity: results as u32, polymorphic: false }]);
                match stack_run(m, code, init, code.len()) {
                    Some((_, max, frames)) => if frames.len() == 0 {
                        Some(max)
                    } else {
                        None
                    },
                    None => None,
                }
            },
            None => None,
        }
    } else {
        None
    }
}

/// Stack cost of defined function `d`: its locals plus the greatest height
/// of its value stack; `None` where that cannot be computed or overflows.
pub open spec fn cost_of(m: Module, d: nat) -> Option<u32> {
    match max_height(m, d) {
        Some(h) => if m.code@[d as int].locals@.len() + h <= u32::MAX {
            Some((m.code@[d as int].locals@.len() + h) as u32)
        } else {
            None
        },
        None => None,
    }
}

/// `costs` holds the stack cost of each function of the combined index space:
/// 0 for imports.
pub open spec fn stack_costs_ok(m: Module, costs: Seq<u32>) -> bool {
    &&& costs.len() == functions_space(m)
    &&& forall|f: int| 0 <= f < func_import_count(m) ==> #[trigger] costs[f] == 0
    &&& forall|d: int|
        0 <= d < m.functions@.len() ==> cost_of(m, d as nat) == Some(
            #[trigger] costs[func_import_count(m) + d],
        )
}

/// Some defined function's stack cost cannot be computed.
pub open spec fn some_cost_fails(m: Module) -> bool {
    exists|d: int| 0 <= d < m.functions@.len() && #[trigger] cost_of(m, d as nat) is None
}

proof fn lemma_stack_run_none(m: Module, code: Seq<Instruction>, init: (u32, u32, Seq<Frame>), a: nat, b: nat)
    requires
        a <= b,
        stack_run(m, code, init, a) is None,
    ensures
        stack_run(m, code, init, b) is None,
    decreases b - a,
{
    if a < b {
        lemma_stack_run_none(m, code, init, a, (b - 1) as nat);
    }
}

proof fn lemma_import_func_types_len(imports: Seq<ImportEntry>, n: int)
    requires
        0 <= n <= imports.len(),
    ensures
        import_func_types(imports, n).len() == func_imports_in(imports, n),
    decreases n,
{
    if n > 0 {
        lemma_import_func_types_len(imports, n - 1);
    }
}

/// The type index of each function of the combined index space.
pub(crate) fn function_type_indices(m: &Module) -> (r: Vec<u32>)
    ensures
        r@ == func_type_indices(*m),
        r@.len() == functions_space(*m),
{
    let mut r: Vec<u32> = Vec::new();
    let mut i: usize = 0;
    while i < m.imports.len()
        invariant
            i <= m.imports@.len(),
            r@ == import_func_types(m.imports@, i as int),
        decreases m.imports@.len() - i,
    {
        if let External::Function(t) = m.imports[i].external {
            r.push(t);
        }
        i = i + 1;
    }
    let mut j: usize = 0;
    while j < m.functions.len()
        invariant
            j <= m.functions@.len(),
            r@ == import_func_types(m.imports@, m.imports@.len() as int) + m.functions@.subrange(
                0,
                j as int,
            ),
        decreases m.functions@.len() - j,
    {
        r.push(m.functions[j]);
        j = j + 1;
        proof {
            assert(r@ =~= import_func_types(m.imports@, m.imports@.len() as int)
                + m.functions@.subrange(0, j as int));
        }
    }
    proof {
        assert(m.functions@.subrange(0, m.functions@.len() as int) =~= m.functions@);
        lemma_import_func_types_len(m.imports@, m.imports@.len() as int);
    }
    r
}

fn type_arity_of(m: &Module, t: u32) -> (r: Option<(u32, u32)>)
    ensures
        match type_arity(*m, t) {
            Some((p, q)) => r == Some((p as u32, q as u32)) && p < u32::MAX,
            None => r is None,
        },
{
    if (t as usize) < m.types.len() {
        let ty = &m.types[t as usize];
        if ty.params.len() >= u32::MAX as usize {
            return None;
        }
        let results: u32 = match ty.return_type {
            Some(_) => 1,
            None => 0,
        };
        Some((ty.params.len() as u32, results))
    } else {
        None
    }
}

fn numeric_arity_of(op: u8) -> (r: Option<(u32, u32)>)
    ensures
        match numeric_arity(op) {
            Some((p, q)) => r == Some((p as u32, q as u32)),
            None => r is None,
        },
{
    if op == 0x45 || op == 0x50 || (0x67 <= op && op <= 0x69) || (0x79 <= op && op <= 0x7b) || (
    0x8b <= op && op <= 0x91) || (0x99 <= op && op <= 0x9f) || (0xa7 <= op && op <= 0xbf) {
        Some((1, 1))
    } else if (0x46 <= op && op <= 0x4f) || (0x51 <= op && op <= 0x66) || (0x6a <= op && op
        <= 0x78) || (0x7c <= op && op <= 0x8a) || (0x92 <= op && op <= 0x98) || (0xa0 <= op && op
        <= 0xa6) {
        Some((2, 1))
    } else {
        None
    }
}

fn plain_arity_of(m: &Module, types: &Vec<u32>, ins: &Instruction) -> (r: Option<(u32, u32)>)
    requires
        types@ == func_type_indices(*m),
    ensures
        match plain_arity(*m, *ins) {
            Some((p, q)) => p <= u32::MAX && q <= u32::MAX && r == Some((p as u32, q as u32)),
            None => r is None,
        },
{
    match ins {
        Instruction::Nop => Some((0, 0)),
        Instruction::BrIf(_) => Some((1, 0)),
        Instruction::Call(f) => if (*f as usize) < types.len() {
            type_arity_of(m, types[*f as usize])
        } else {
            None
        },
        Instruction::CallIndirect(t, _) => match type_arity_of(m, *t) {
            Some((p, q)) => if p < u32::MAX {
                Some((p + 1, q))
            } else {
                None
            },
            None => None,
        },
        Instruction::Drop => Some((1, 0)),
        Instruction::Select => Some((3, 1)),
        Instruction::GetLocal(_) => Some((0, 1)),
        Instruction::SetLocal(_) => Some((1, 0)),
        Instruction::TeeLocal(_) => Some((1, 1)),
        Instruction::GetGlobal(_) => Some((0, 1)),
        Instruction::SetGlobal(_) => Some((1, 0)),
        Instruction::Load(_, _, _) => Some((1, 1)),
        Instruction::Store(_, _, _) => Some((2, 0)),
        Instruction::CurrentMemory(_) => Some((0, 1)),
        Instruction::GrowMemory(_) => Some((1, 1)),
        Instruction::I32Const(_) => Some((0, 1)),
        Instruction::I64Const(_) => Some((0, 1)),
        Instruction::F32Const(_) => Some((0, 1)),
        Instruction::F64Const(_) => Some((0, 1)),
        Instruction::Numeric(op) => numeric_arity_of(*op),
        _ => None,
    }
}

fn pop_height_of(height: u32, f: Frame, n: u32) -> (r: Option<u32>)
    ensures
        r == pop_height(height, f, n as nat),
{
    if height >= f.start_height && height - f.start_height >= n {
        Some(height - n)
    } else if f.polymorphic {
        Some(f.start_height)
    } else {
        None
    }
}

/// One instruction of the stack run.
fn exec_step(
    m: &Module,
    types: &Vec<u32>,
    height: u32,
    max: u32,
    frames: &mut Vec<Frame>,
    ins: &Instruction,
) -> (r: Option<(u32, u32)>)
    requires
        types@ == func_type_indices(*m),
    ensures
        match stack_step(*m, (height, max, old(frames)@), *ins) {
            Some((h, mx, fr)) => r == Some((h, mx)) && final(frames)@ == fr,
            None => r is None,
        },
{
    if frames.len() == 0 {
        return None;
    }
    let top = frames[frames.len() - 1];
    match ins {
        Instruction::Unreachable | Instruction::Br(_) | Instruction::BrTable(_, _)
        | Instruction::Return => {
            frames.pop();
            frames.push(Frame { start_height: top.start_height, end_arity: top.end_arity, polymorphic: true });
            Some((top.start_height, max))
        },
        Instruction::Block(bt) | Instruction::Loop(bt) => {
            let arity: u32 = match bt {
                BlockType::NoResult => 0,
                BlockType::Value(_) => 1,
            };
            frames.push(Frame { start_height: height, end_arity: arity, polymorphic: false });
            Some((height, max))
        },
        Instruction::If(bt) => {
            let arity: u32 = match bt {
                BlockType::NoResult => 0,
                BlockType::Value(_) => 1,
            };
            match pop_height_of(height, top, 1) {
                Some(h) => {
                    frames.push(Frame { start_height: h, end_arity: arity, polymorphic: false });
                    Some((h, max))
                },
                None => None,
            }
        },
        Instruction::Else => {
            frames.pop();
            frames.push(Frame { start_height: top.start_height, end_arity: top.end_arity, polymorphic: false });
            Some((top.start_height, max))
        },
        Instruction::End => {
            if top.start_height > u32::MAX - top.end_arity {
                return None;
            }
            let h = top.start_height + top.end_arity;
            frames.pop();
            Some((h, if h > max { h } else { max }))
        },
        _ => {
            let (pops, pushes) = match plain_arity_of(m, types, ins) {
                Some(a) => a,
                None => return None,
            };
            let h = match pop_height_of(height, top, pops) {
                Some(h) => h,
                None => return None,
            };
            if h > u32::MAX - pushes {
                return None;
            }
            let h2 = h + pushes;
            Some((h2, if h2 > max { h2 } else { max }))
        },
    }
}

/// Runs the stack of defined function `d` over its body; the greatest height.
fn compute_max_height(m: &Module, types: &Vec<u32>, d: usize) -> (r: Option<u32>)
    requires
        types@ == func_type_indices(*m),
        types@.len() == functions_space(*m),
        functions_space(*m) <= u32::MAX,
        d < m.functions@.len(),
    ensures
        r == max_height(*m, d as nat),
{
    proof {
        crate::elements::lemma_func_imports_bounded(m.imports@, m.imports@.len() as int);
    }
    if d >= m.code.len() {
        return None;
    }
    let f = types.len() - m.functions.len() + d;
    let results = match type_arity_of(m, types[f]) {
        Some((_, q)) => q,
        None => return None,
    };
    let code = &m.code[d].code;
    proof {
        assert(f == func_import_count(*m) + d);
        assert(func_arity(*m, f as u32) == type_arity(*m, types@[f as int]));
    }
    let ghost init = (0u32, 0u32, seq![Frame { start_height: 0, end_arity: results, polymorphic: false }]);
    let mut height: u32 = 0;
    let mut max: u32 = 0;
    let mut frames: Vec<Frame> = vec![Frame { start_height: 0, end_arity: results, polymorphic: false }];
    proof {
        assert(frames@ =~= init.2);
    }
    let mut i: usize = 0;
    while i < code.len()
        invariant
            i <= code@.len(),
            types@ == func_type_indices(*m),
            d < m.code@.len(),
            code@ == m.code@[d as int].code@,
            max_height(*m, d as nat) == match stack_run(*m, code@, init, code@.len()) {
                Some((_, mx, frs)) => if frs.len() == 0 {
                    Some(mx)
                } else {
                    None
                },
                None => None,
            },
            stack_run(*m, code@, init, i as nat) == Some((height, max, frames@)),
        decreases code@.len() - i,
    {
        match exec_step(m, types, height, max, &mut frames, &code[i]) {
            Some((h, mx)) => {
                height = h;
                max = mx;
            },
            None => {
                proof {
                    lemma_stack_run_none(*m, code@, init, (i + 1) as nat, code@.len());
                }
                return None;
            },
        }
        i = i + 1;
    }
    if frames.len() == 0 {
        Some(max)
    } else {
        None
    }
}

/// Stack cost of each function of the combined index space: 0 for imports.
pub open spec fn stack_costs(m: Module) -> Seq<u32> {
    Seq::new(
        functions_space(m),
        |f: int|
            if f < func_import_count(m) {
                0u32
            } else {
                match cost_of(m, (f - func_import_count(m)) as nat) {
                    Some(c) => c,
                    None => 0u32,
                }
            },
    )
}

/// Computes the stack cost of every function.
fn compute_stack_costs(m: &Module) -> (r: Result<Vec<u32>, Error>)
    requires
        functions_space(*m) <= u32::MAX,
    ensures
        match r {
            Ok(c) => c@ == stack_costs(*m) && !some_cost_fails(*m),
            Err(_) => some_cost_fails(*m),
        },
{
    let types = function_type_indices(m);
    proof {
        crate::elements::lemma_func_imports_bounded(m.imports@, m.imports@.len() as int);
    }
    let imports = types.len() - m.functions.len();
    let mut costs: Vec<u32> = Vec::new();
    let mut f: usize = 0;
    while f < types.len()
        invariant
            types@ == func_type_indices(*m),
            types@.len() == functions_space(*m),
            functions_space(*m) <= u32::MAX,
            imports == func_import_count(*m),
            f <= types@.len(),
            costs@.len() == f,
            forall|g: int| 0 <= g < f ==> costs@[g] == stack_costs(*m)[g],
            forall|d: int| 0 <= d < f - imports ==> #[trigger] cost_of(*m, d as nat) is Some,
        decreases types@.len() - f,
    {
        if f < imports {
            costs.push(0);
        } else {
            let d = f - imports;
            let h = match compute_max_height(m, &types, d) {
                Some(h) => h,
                None => {
                    proof {
                        let di: int = d as int;
                        assert(cost_of(*m, di as nat) is None);
                        assert(0 <= di < m.functions@.len());
                    }
                    return Err(Error("function body does not type its stack".to_owned()));
                },
            };
            let locals = m.code[d].locals.len();
            if locals > (u32::MAX - h) as usize {
                proof {
                    let di: int = d as int;
                    assert(cost_of(*m, di as nat) is None);
                    assert(0 <= di < m.functions@.len());
                }
                return Err(Error("stack cost overflows".to_owned()));
            }
            costs.push(locals as u32 + h);
        }
        f = f + 1;
    }
    proof {
        assert(costs@ =~= stack_costs(*m));
        assert forall|d: int| 0 <= d < m.functions@.len() implies #[trigger] cost_of(*m, d as nat) is Some by {
            assert(d < f - imports);
        }
    }
    Ok(costs)
}

/// The instructions that wrap a call of `callee`, whose stack cost is `cost`:
/// the global `h` grows by `cost`, execution traps if it passes `limit`, the
/// call runs, and `h` shrinks back.
pub open spec fn instrument_call(callee: u32, cost: u32, h: u32, limit: u32) -> Seq<Instruction> {
    seq![
        Instruction::GetGlobal(h),
        Instruction::I32Const(cost as i32),
        Instruction::Numeric(I32_ADD),
        Instruction::SetGlobal(h),
        Instruction::GetGlobal(h),
        Instruction::I32Const(limit as i32),
        Instruction::Numeric(I32_GT_U),
        Instruction::If(BlockType::NoResult),
        Instruction::Unreachable,
        Instruction::End,
        Instruction::Call(callee),
        Instruction::GetGlobal(h),
        Instruction::I32Const(cost as i32),
        Instruction::Numeric(I32_SUB),
        Instruction::SetGlobal(h),
    ]
}

/// An instruction as instrumentation leaves it: a call of a function with a
/// non-zero cost is wrapped, anything else stays.
pub open spec fn instrument_one(i: Instruction, costs: Seq<u32>, h: u32, limit: u32) -> Seq<Instruction> {
    match i {
        Instruction::Call(f) => if f < costs.len() && costs[f as int] > 0 {
            instrument_call(f, costs[f as int], h, limit)
        } else {
            seq![i]
        },
        _ => seq![i],
    }
}

/// The first `n` instructions of `code`, instrumented.
pub open spec fn instrumented(code: Seq<Instruction>, costs: Seq<u32>, h: u32, limit: u32, n: nat) -> Seq<
    Instruction,
>
    decreases n,
{
    if n == 0 {
        Seq::empty()
    } else {
        instrumented(code, costs, h, limit, (n - 1) as nat) + instrument_one(
            code[n - 1],
            costs,
            h,
            limit,
        )
    }
}

fn push_instrumented_call(out: &mut Vec<Instruction>, callee: u32, cost: u32, h: u32, limit: u32)
    ensures
        final(out)@ == old(out)@ + instrument_call(callee, cost, h, limit),
{
    let ghost o = out@;
    out.push(Instruction::GetGlobal(h));
    out.push(Instruction::I32Const(cost as i32));
    out.push(Instruction::Numeric(I32_ADD));
    out.push(Instruction::SetGlobal(h));
    out.push(Instruction::GetGlobal(h));
    out.push(Instruction::I32Const(limit as i32));
    out.push(Instruction::Numeric(I32_GT_U));
    out.push(Instruction::If(BlockType::NoResult));
    out.push(Instruction::Unreachable);
    out.push(Instruction::End);
    out.push(Instruction::Call(callee));
    out.push(Instruction::GetGlobal(h));
    out.push(Instruction::I32Const(cost as i32));
    out.push(Instruction::Numeric(I32_SUB));
    out.push(Instruction::SetGlobal(h));
    proof {
        assert(out@ =~= o + instrument_call(callee, cost, h, limit));
    }
}

/// Wraps every call of a function with a non-zero stack cost.
fn instrument_function(code: Vec<Instruction>, costs: &Vec<u32>, h: u32, limit: u32) -> (r: Vec<
    Instruction,
>)
    ensures
        r@ == instrumented(code@, costs@, h, limit, code@.len()),
{
    let ghost orig = code@;
    let n = code.len();
    let mut rev = reversed(code);
    let mut out: Vec<Instruction> = Vec::new();
    let mut i: usize = 0;
    while i < n
        invariant
            n == orig.len(),
            i <= n,
            rev@.len() == n - i,
            forall|j: int| 0 <= j < rev@.len() ==> rev@[j] == orig[n - 1 - j],
            out@ == instrumented(orig, costs@, h, limit, i as nat),
        decreases n - i,
    {
        let ins = rev.pop().unwrap();
        let ghost prev = out@;
        match ins {
            Instruction::Call(f) => {
                if (f as usize) < costs.len() && costs[f as usize] > 0 {
                    push_instrumented_call(&mut out, f, costs[f as usize], h, limit);
                } else {
                    out.push(ins);
                    proof {
                        assert(out@ =~= prev + seq![orig[i as int]]);
                    }
                }
            },
            _ => {
                out.push(ins);
                proof {
                    assert(out@ =~= prev + seq![orig[i as int]]);
                }
            },
        }
        i = i + 1;
    }
    out
}

/// `acc` with each item of `xs` that has a non-zero cost and is not there yet
/// added at the end, in order.
pub open spec fn add_targets(acc: Seq<u32>, xs: Seq<u32>, costs: Seq<u32>) -> Seq<u32>
    decreases xs.len(),
{
    if xs.len() == 0 {
        acc
    } else {
        let x = xs[0];
        let acc2 = if x < costs.len() && costs[x as int] != 0 && !acc.contains(x) {
            acc.push(x)
        } else {
            acc
        };
        add_targets(acc2, xs.drop_first(), costs)
    }
}

/// `add_targets` over the functions that the exports name.
pub open spec fn add_export_targets(acc: Seq<u32>, exports: Seq<ExportEntry>, costs: Seq<u32>) -> Seq<
    u32,
>
    decreases exports.len(),
{
    if exports.len() == 0 {
        acc
    } else {
        let acc2 = match exports[0].internal {
            Internal::Function(x) => add_targets(acc, seq![x], costs),
            _ => acc,
        };
        add_export_targets(acc2, exports.drop_first(), costs)
    }
}

/// `add_targets` over the members of the element segments.
pub open spec fn add_segment_targets(acc: Seq<u32>, segs: Seq<ElementSegment>, costs: Seq<u32>) -> Seq<
    u32,
>
    decreases segs.len(),
{
    if segs.len() == 0 {
        acc
    } else {
        add_segment_targets(add_targets(acc, segs[0].members@, costs), segs.drop_first(), costs)
    }
}

/// The functions that get a thunk: those that an export or an element
/// segment names and whose stack cost is not zero, each once, in the order
/// in which they are first named.
pub open spec fn thunk_targets(m: Module, costs: Seq<u32>) -> Seq<u32> {
    add_segment_targets(add_export_targets(Seq::empty(), m.exports@, costs), m.elements@, costs)
}

/// Position of the first `x` in `s`, if it is there.
pub open spec fn position(s: Seq<u32>, x: u32) -> Option<nat>
    decreases s.len(),
{
    if s.len() == 0 {
        None
    } else if s[0] == x {
        Some(0)
    } else {
        match position(s.drop_first(), x) {
            Some(p) => Some(p + 1),
            None => None,
        }
    }
}

/// Where a reference to function `x` points once thunks are in place.
pub open spec fn redirect(targets: Seq<u32>, first_thunk: nat, x: u32) -> u32 {
    match position(targets, x) {
        Some(p) => (first_thunk + p) as u32,
        None => x,
    }
}

/// Body of the thunk of `callee`, which takes `params` parameters.
pub open spec fn thunk_code(params: nat, callee: u32, cost: u32, h: u32, limit: u32) -> Seq<Instruction> {
    Seq::new(params, |j: int| Instruction::GetLocal(j as u32)) + instrument_call(callee, cost, h, limit)
        + seq![Instruction::End]
}

proof fn lemma_add_one(acc: Seq<u32>, x: u32, costs: Seq<u32>)
    ensures
        add_targets(acc, seq![x], costs) == if x < costs.len() && costs[x as int] != 0
            && !acc.contains(x) {
            acc.push(x)
        } else {
            acc
        },
{
    assert(seq![x].drop_first() =~= Seq::<u32>::empty());
    reveal_with_fuel(add_targets, 2);
}

fn add_target(acc: &mut Vec<u32>, x: u32, costs: &Vec<u32>)
    ensures
        final(acc)@ == add_targets(old(acc)@, seq![x], costs@),
{
    proof {
        lemma_add_one(acc@, x, costs@);
    }
    if (x as usize) < costs.len() && costs[x as usize] != 0 {
        let mut j: usize = 0;
        while j < acc.len()
            invariant
                j <= acc@.len(),
                acc@ == old(acc)@,
                forall|k: int| 0 <= k < j ==> acc@[k] != x,
            decreases acc@.len() - j,
        {
            if acc[j] == x {
                proof {
                    assert(acc@.contains(x));
                    lemma_add_one(acc@, x, costs@);
                }
                return;
            }
            j = j + 1;
        }
        acc.push(x);
    }
}

/// The functions that get a thunk.
fn collect_targets(m: &Module, costs: &Vec<u32>) -> (r: Vec<u32>)
    ensures
        r@ == thunk_targets(*m, costs@),
{
    let mut acc: Vec<u32> = Vec::new();
    let n = m.exports.len();
    let mut i: usize = 0;
    proof {
        assert(m.exports@.subrange(0, n as int) =~= m.exports@);
    }
    while i < n
        invariant
            n == m.exports@.len(),
            i <= n,
            add_export_targets(acc@, m.exports@.subrange(i as int, n as int), costs@)
                == add_export_targets(Seq::empty(), m.exports@, costs@),
        decreases n - i,
    {
        proof {
            assert(m.exports@.subrange(i as int, n as int).drop_first() =~= m.exports@.subrange(
                i + 1,
                n as int,
            ));
        }
        if let Internal::Function(x) = m.exports[i].internal {
            add_target(&mut acc, x, costs);
        }
        i = i + 1;
    }
    proof {
        assert(m.exports@.subrange(0, n as int) =~= m.exports@);
        assert(m.exports@.subrange(n as int, n as int).len() == 0);
    }
    let ns = m.elements.len();
    let mut i: usize = 0;
    proof {
        assert(m.elements@.subrange(0, ns as int) =~= m.elements@);
    }
    while i < ns
        invariant
            ns == m.elements@.len(),
            i <= ns,
            add_segment_targets(acc@, m.elements@.subrange(i as int, ns as int), costs@)
                == thunk_targets(*m, costs@),
        decreases ns - i,
    {
        proof {
            assert(m.elements@.subrange(i as int, ns as int).drop_first() =~= m.elements@.subrange(
                i + 1,
                ns as int,
            ));
        }
        let members = &m.elements[i].members;
        let nm = members.len();
        let mut j: usize = 0;
        proof {
            assert(members@.subrange(0, nm as int) =~= members@);
        }
        let ghost acc0 = acc@;
        while j < nm
            invariant
                nm == members@.len(),
                j <= nm,
                add_targets(acc@, members@.subrange(j as int, nm as int), costs@) == add_targets(
                    acc0,
                    members@,
                    costs@,
                ),
            decreases nm - j,
        {
            proof {
                assert(members@.subrange(j as int, nm as int).drop_first() =~= members@.subrange(
                    j + 1,
                    nm as int,
                ));
            }
            let ghost before = acc@;
            add_target(&mut acc, members[j], costs);
            proof {
                let x = members@[j as int];
                lemma_add_one(before, x, costs@);
                assert(members@.subrange(j as int, nm as int)[0] == x);
            }
            j = j + 1;
        }
        proof {
            assert(members@.subrange(nm as int, nm as int).len() == 0);
        }
        i = i + 1;
    }
    proof {
        assert(m.elements@.subrange(ns as int, ns as int).len() == 0);
    }
    acc
}

fn redirect_of(targets: &Vec<u32>, first_thunk: u32, x: u32) -> (r: u32)
    requires
        first_thunk + targets@.len() <= u32::MAX,
    ensures
        r == redirect(targets@, first_thunk as nat, x),
{
    let n = targets.len();
    let mut j: usize = 0;
    proof {
        assert(targets@.subrange(0, n as int) =~= targets@);
    }
    while j < n
        invariant
            n == targets@.len(),
            j <= n,
            first_thunk + n <= u32::MAX,
            position(targets@, x) == match position(targets@.subrange(j as int, n as int), x) {
                Some(p) => Some((p + j) as nat),
                None => None,
            },
        decreases n - j,
    {
        proof {
            assert(targets@.subrange(j as int, n as int).drop_first() =~= targets@.subrange(
                j + 1,
                n as int,
            ));
        }
        if targets[j] == x {
            return first_thunk + j as u32;
        }
        j = j + 1;
    }
    x
}

pub open spec fn all_costly(s: Seq<u32>, costs: Seq<u32>) -> bool {
    forall|j: int| 0 <= j < s.len() ==> #[trigger] s[j] < costs.len() && costs[s[j] as int] != 0
}

proof fn lemma_add_targets_cost(acc: Seq<u32>, xs: Seq<u32>, costs: Seq<u32>)
    requires
        all_costly(acc, costs),
    ensures
        all_costly(add_targets(acc, xs, costs), costs),
    decreases xs.len(),
{
    if xs.len() > 0 {
        let x = xs[0];
        let acc2 = if x < costs.len() && costs[x as int] != 0 && !acc.contains(x) {
            acc.push(x)
        } else {
            acc
        };
        assert forall|j: int| 0 <= j < acc2.len() implies #[trigger] acc2[j] < costs.len() && costs[acc2[j] as int] != 0 by {
            if j < acc.len() {
                assert(acc2[j] == acc[j]);
            }
        }
        lemma_add_targets_cost(acc2, xs.drop_first(), costs);
        assert(add_targets(acc, xs, costs) == add_targets(acc2, xs.drop_first(), costs));
    }
}

proof fn lemma_export_targets_cost(acc: Seq<u32>, exports: Seq<ExportEntry>, costs: Seq<u32>)
    requires
        all_costly(acc, costs),
    ensures
        all_costly(add_export_targets(acc, exports, costs), costs),
    decreases exports.len(),
{
    if exports.len() > 0 {
        let acc2 = match exports[0].internal {
            Internal::Function(x) => add_targets(acc, seq![x], costs),
            _ => acc,
        };
        if let Internal::Function(x) = exports[0].internal {
            lemma_add_targets_cost(acc, seq![x], costs);
        }
        lemma_export_targets_cost(acc2, exports.drop_first(), costs);
    }
}

proof fn lemma_segment_targets_cost(acc: Seq<u32>, segs: Seq<ElementSegment>, costs: Seq<u32>)
    requires
        all_costly(acc, costs),
    ensures
        all_costly(add_segment_targets(acc, segs, costs), costs),
    decreases segs.len(),
{
    if segs.len() > 0 {
        lemma_add_targets_cost(acc, segs[0].members@, costs);
        lemma_segment_targets_cost(add_targets(acc, segs[0].members@, costs), segs.drop_first(), costs);
    }
}

/// Every function that gets a thunk has a non-zero stack cost.
proof fn lemma_targets_have_cost(m: Module, costs: Seq<u32>, k: int)
    requires
        0 <= k < thunk_targets(m, costs).len(),
    ensures
        thunk_targets(m, costs)[k] < costs.len(),
        costs[thunk_targets(m, costs)[k] as int] != 0,
{
    lemma_export_targets_cost(Seq::empty(), m.exports@, costs);
    lemma_segment_targets_cost(add_export_targets(Seq::empty(), m.exports@, costs), m.elements@, costs);
    assert(all_costly(thunk_targets(m, costs), costs));
    let t = thunk_targets(m, costs);
    assert(t[k] < costs.len() && costs[t[k] as int] != 0);
}

/// A function that gets a thunk has a defined type.
proof fn lemma_target_type(m: Module, x: u32)
    requires
        x < stack_costs(m).len(),
        stack_costs(m)[x as int] != 0,
        functions_space(m) <= u32::MAX,
    ensures
        x >= func_import_count(m),
        func_arity(m, x) is Some,
        x < func_type_indices(m).len(),
        func_type_indices(m)[x as int] < m.types@.len(),
{
    let fic = func_import_count(m);
    let d = (x - fic) as nat;
    assert(cost_of(m, d) is Some);
    crate::elements::lemma_func_imports_bounded(m.imports@, m.imports@.len() as int);
    lemma_import_func_types_len(m.imports@, m.imports@.len() as int);
}

/// Whether `m2` is `m` with the stack height limiter in place: global `h`,
/// every call instrumented, and thunks for exported and table functions.
pub open spec fn limiter_applied(m: Module, m2: Module, limit: u32) -> bool {
    let costs = stack_costs(m);
    let h = globals_space(m) as u32;
    let targets = thunk_targets(m, costs);
    let fs = functions_space(m);
    let types = func_type_indices(m);
    let n = m.code@.len();
    &&& m2.types == m.types
    &&& m2.imports == m.imports
    &&& m2.tables == m.tables
    &&& m2.memories == m.memories
    &&& m2.data == m.data
    &&& m2.start == m.start
    &&& m2.globals@.len() == m.globals@.len() + 1
    &&& m2.globals@.drop_last() == m.globals@
    &&& m2.globals@.last().global_type == GlobalType { content_type: ValueType::I32, is_mutable: true }
    &&& m2.globals@.last().init_expr@ == seq![Instruction::I32Const(0), Instruction::End]
    &&& m2.functions@ == m.functions@ + targets.map_values(|x: u32| types[x as int])
    &&& m2.code@.len() == n + targets.len()
    &&& forall|i: int|
        0 <= i < n ==> (#[trigger] m2.code@[i]).locals == m.code@[i].locals && m2.code@[i].code@
            == instrumented(m.code@[i].code@, costs, h, limit, m.code@[i].code@.len())
    &&& forall|k: int|
        0 <= k < targets.len() ==> (#[trigger] m2.code@[n + k]).locals@.len() == 0
            && m2.code@[n + k].code@ == thunk_code(
            m.types@[types[targets[k] as int] as int].params@.len(),
            targets[k],
            costs[targets[k] as int],
            h,
            limit,
        )
    &&& m2.exports@.len() == m.exports@.len()
    &&& forall|i: int|
        0 <= i < m.exports@.len() ==> (#[trigger] m2.exports@[i]).field == m.exports@[i].field
            && m2.exports@[i].internal == match m.exports@[i].internal {
            Internal::Function(x) => Internal::Function(redirect(targets, fs, x)),
            other => other,
        }
    &&& m2.elements@.len() == m.elements@.len()
    &&& forall|i: int|
        0 <= i < m.elements@.len() ==> (#[trigger] m2.elements@[i]).index == m.elements@[i].index
            && m2.elements@[i].offset == m.elements@[i].offset && m2.elements@[i].members@
            == m.elements@[i].members@.map_values(|x: u32| redirect(targets, fs, x))
}

/// Instruments `module` with a stack height limit of `stack_limit`.
///
/// Fails where a body does not type its stack or a stack cost overflows, or
/// where the thunks would not fit the function index space.
pub fn inject_limiter(module: Module, stack_limit: u32) -> (r: Result<Module, Error>)
    requires
        functions_space(module) <= u32::MAX,
        globals_space(module) < u32::MAX,
        module.imports@.len() <= u32::MAX,
    ensures
        match r {
            Ok(m2) => limiter_applied(module, m2, stack_limit),
            Err(_) => some_cost_fails(module) || functions_space(module) + thunk_targets(
                module,
                stack_costs(module),
            ).len() > u32::MAX,
        },
{
    let ghost m0 = module;
    let costs = compute_stack_costs(&module)?;
    let types = function_type_indices(&module);
    let targets = collect_targets(&module, &costs);
    let fs = types.len();
    if targets.len() > (u32::MAX as usize) - fs {
        return Err(Error("too many functions for thunks".to_owned()));
    }
    let first_thunk = fs as u32;
    proof {
        crate::elements::lemma_func_imports_bounded(module.imports@, module.imports@.len() as int);
    }
    let h = global_import_count_of(&module) + module.globals.len() as u32;
    let mut m = module;

    m.globals.push(
        GlobalEntry {
            global_type: GlobalType { content_type: ValueType::I32, is_mutable: true },
            init_expr: vec![Instruction::I32Const(0), Instruction::End],
        },
    );

    let mut bodies: Vec<FuncBody> = Vec::new();
    std::mem::swap(&mut bodies, &mut m.code);
    let n = bodies.len();
    let mut rev = reversed(bodies);
    let mut new_bodies: Vec<FuncBody> = Vec::new();
    let mut i: usize = 0;
    while i < n
        invariant
            n == m0.code@.len(),
            i <= n,
            costs@ == stack_costs(m0),
            h == globals_space(m0),
            rev@.len() == n - i,
            forall|j: int| 0 <= j < rev@.len() ==> rev@[j] == m0.code@[n - 1 - j],
            new_bodies@.len() == i,
            forall|j: int|
                0 <= j < i ==> (#[trigger] new_bodies@[j]).locals == m0.code@[j].locals
                    && new_bodies@[j].code@ == instrumented(
                    m0.code@[j].code@,
                    costs@,
                    h,
                    stack_limit,
                    m0.code@[j].code@.len(),
                ),
        decreases n - i,
    {
        let body = rev.pop().unwrap();
        let code = instrument_function(body.code, &costs, h, stack_limit);
        new_bodies.push(FuncBody { locals: body.locals, code });
        i = i + 1;
    }

    let mut k: usize = 0;
    let ghost fns0 = m.functions@;
    let ghost mb = m;
    while k < targets.len()
        invariant
            n == m0.code@.len(),
            fns0 == m0.functions@,
            k <= targets@.len(),
            targets@ == thunk_targets(m0, stack_costs(m0)),
            costs@ == stack_costs(m0),
            types@ == func_type_indices(m0),
            types@.len() == functions_space(m0),
            functions_space(m0) <= u32::MAX,
            h == globals_space(m0),
            new_bodies@.len() == n + k,
            m.functions@.len() == fns0.len() + k,
            forall|j: int|
                0 <= j < n ==> (#[trigger] new_bodies@[j]).locals == m0.code@[j].locals
                    && new_bodies@[j].code@ == instrumented(
                    m0.code@[j].code@,
                    costs@,
                    h,
                    stack_limit,
                    m0.code@[j].code@.len(),
                ),
            forall|j: int| 0 <= j < fns0.len() ==> m.functions@[j] == fns0[j],
            forall|j: int|
                0 <= j < k ==> m.functions@[fns0.len() + j] == types@[targets@[j] as int],
            forall|j: int|
                0 <= j < k ==> (#[trigger] new_bodies@[n + j]).locals@.len() == 0
                    && new_bodies@[n + j].code@ == thunk_code(
                    m0.types@[types@[targets@[j] as int] as int].params@.len(),
                    targets@[j],
                    costs@[targets@[j] as int],
                    h,
                    stack_limit,
                ),
            m.types == m0.types,
            m.types == mb.types && m.imports == mb.imports && m.tables == mb.tables && m.memories
                == mb.memories && m.globals == mb.globals && m.exports == mb.exports && m.elements
                == mb.elements && m.data == mb.data && m.start == mb.start,
        decreases targets@.len() - k,
    {
        let x = targets[k];
        proof {
            lemma_targets_have_cost(m0, stack_costs(m0), k as int);
            lemma_target_type(m0, x);
        }
        let t = types[x as usize];
        let params = m.types[t as usize].params.len();
        let mut code: Vec<Instruction> = Vec::new();
        let mut p: usize = 0;
        while p < params
            invariant
                p <= params,
                params <= u32::MAX,
                code@ == Seq::new(p as nat, |j: int| Instruction::GetLocal(j as u32)),
            decreases params - p,
        {
            code.push(Instruction::GetLocal(p as u32));
            p = p + 1;
            proof {
                assert(code@ =~= Seq::new(p as nat, |j: int| Instruction::GetLocal(j as u32)));
            }
        }
        push_instrumented_call(&mut code, x, costs[x as usize], h, stack_limit);
        code.push(Instruction::End);
        m.functions.push(t);
        new_bodies.push(FuncBody { locals: Vec::new(), code });
        k = k + 1;
    }
    m.code = new_bodies;

    let mut exports: Vec<ExportEntry> = Vec::new();
    std::mem::swap(&mut exports, &mut m.exports);
    let ne = exports.len();
    let mut rev = reversed(exports);
    let mut new_exports: Vec<ExportEntry> = Vec::new();
    let mut i: usize = 0;
    while i < ne
        invariant
            ne == m0.exports@.len(),
            i <= ne,
            first_thunk + targets@.len() <= u32::MAX,
            rev@.len() == ne - i,
            forall|j: int| 0 <= j < rev@.len() ==> rev@[j] == m0.exports@[ne - 1 - j],
            new_exports@.len() == i,
            forall|j: int|
                0 <= j < i ==> (#[trigger] new_exports@[j]).field == m0.exports@[j].field
                    && new_exports@[j].internal == match m0.exports@[j].internal {
                    Internal::Function(x) => Internal::Function(
                        redirect(targets@, first_thunk as nat, x),
                    ),
                    other => other,
                },
        decreases ne - i,
    {
        let e = rev.pop().unwrap();
        let internal = match e.internal {
            Internal::Function(x) => Internal::Function(redirect_of(&targets, first_thunk, x)),
            other => other,
        };
        new_exports.push(ExportEntry { field: e.field, internal });
        i = i + 1;
    }
    m.exports = new_exports;

    let mut segs: Vec<ElementSegment> = Vec::new();
    std::mem::swap(&mut segs, &mut m.elements);
    let ns = segs.len();
    let mut rev = reversed(segs);
    let mut new_segs: Vec<ElementSegment> = Vec::new();
    let mut i: usize = 0;
    while i < ns
        invariant
            ns == m0.elements@.len(),
            i <= ns,
            first_thunk + targets@.len() <= u32::MAX,
            rev@.len() == ns - i,
            forall|j: int| 0 <= j < rev@.len() ==> rev@[j] == m0.elements@[ns - 1 - j],
            new_segs@.len() == i,
            forall|j: int|
                0 <= j < i ==> (#[trigger] new_segs@[j]).index == m0.elements@[j].index
                    && new_segs@[j].offset == m0.elements@[j].offset && new_segs@[j].members@
                    == m0.elements@[j].members@.map_values(
                    |x: u32| redirect(targets@, first_thunk as nat, x),
                ),
        decreases ns - i,
    {
        let seg = rev.pop().unwrap();
        let ghost orig = seg.members@;
        let mut members = seg.members;
        let mut j: usize = 0;
        while j < members.len()
            invariant
                members@.len() == orig.len(),
                j <= orig.len(),
                first_thunk + targets@.len() <= u32::MAX,
                forall|q: int|
                    0 <= q < j ==> members@[q] == redirect(targets@, first_thunk as nat, orig[q]),
                forall|q: int| j <= q < orig.len() ==> members@[q] == orig[q],
            decreases orig.len() - j,
        {
            let y = redirect_of(&targets, first_thunk, members[j]);
            members.set(j, y);
            j = j + 1;
        }
        proof {
            assert(members@ =~= orig.map_values(|x: u32| redirect(targets@, first_thunk as nat, x)));
        }
        new_segs.push(ElementSegment { index: seg.index, offset: seg.offset, members });
        i = i + 1;
    }
    m.elements = new_segs;
    proof {
        assert(m.globals@.drop_last() =~= m0.globals@);
        assert(m.functions@ =~= m0.functions@ + targets@.map_values(|x: u32| types@[x as int]));
    }
    Ok(m)
}

proof fn lemma_add_targets_keeps(acc: Seq<u32>, xs: Seq<u32>, costs: Seq<u32>)
    ensures
        forall|x: u32| acc.contains(x) ==> #[trigger] add_targets(acc, xs, costs).contains(x),
        forall|j: int|
            0 <= j < xs.len() && xs[j] < costs.len() && costs[xs[j] as int] != 0 ==> add_targets(
                acc,
                xs,
                costs,
            ).contains(#[trigger] xs[j]),
    decreases xs.len(),
{
    if xs.len() > 0 {
        let x = xs[0];
        let acc2 = if x < costs.len() && costs[x as int] != 0 && !acc.contains(x) {
            acc.push(x)
        } else {
            acc
        };
        lemma_add_targets_keeps(acc2, xs.drop_first(), costs);
        assert(add_targets(acc, xs, costs) == add_targets(acc2, xs.drop_first(), costs));
        assert forall|y: u32| acc.contains(y) implies acc2.contains(y) by {
            if acc2 != acc {
                let q = choose|q: int| 0 <= q < acc.len() && acc[q] == y;
                assert(acc2[q] == y);
            }
        }
        assert forall|j: int|
            0 <= j < xs.len() && xs[j] < costs.len() && costs[xs[j] as int] != 0 implies add_targets(
                acc,
                xs,
                costs,
            ).contains(#[trigger] xs[j]) by {
            if j == 0 {
                if !acc.contains(x) {
                    assert(acc2[acc.len() as int] == x);
                }
                assert(acc2.contains(x));
            } else {
                assert(xs.drop_first()[j - 1] == xs[j]);
            }
        }
    }
}

proof fn lemma_export_targets_keep(acc: Seq<u32>, exports: Seq<ExportEntry>, costs: Seq<u32>)
    ensures
        forall|x: u32| acc.contains(x) ==> #[trigger] add_export_targets(acc, exports, costs).contains(x),
        forall|i: int|
            0 <= i < exports.len() ==> match (#[trigger] exports[i]).internal {
                Internal::Function(x) => x < costs.len() && costs[x as int] != 0 ==> add_export_targets(
                    acc,
                    exports,
                    costs,
                ).contains(x),
                _ => true,
            },
    decreases exports.len(),
{
    if exports.len() > 0 {
        let acc2 = match exports[0].internal {
            Internal::Function(x) => add_targets(acc, seq![x], costs),
            _ => acc,
        };
        if let Internal::Function(x) = exports[0].internal {
            lemma_add_targets_keeps(acc, seq![x], costs);
            assert(seq![x][0] == x);
        }
        lemma_export_targets_keep(acc2, exports.drop_first(), costs);
        assert(add_export_targets(acc, exports, costs) == add_export_targets(acc2, exports.drop_first(), costs));
        assert forall|i: int| 0 <= i < exports.len() implies match (#[trigger] exports[i]).internal {
            Internal::Function(x) => x < costs.len() && costs[x as int] != 0 ==> add_export_targets(
                acc,
                exports,
                costs,
            ).contains(x),
            _ => true,
        } by {
            if i > 0 {
                assert(exports.drop_first()[i - 1] == exports[i]);
            } else if let Internal::Function(x) = exports[0].internal {
                if x < costs.len() && costs[x as int] != 0 {
                    assert(acc2.contains(x));
                }
            }
        }
    }
}

proof fn lemma_segment_targets_keep(acc: Seq<u32>, segs: Seq<ElementSegment>, costs: Seq<u32>)
    ensures
        forall|x: u32| acc.contains(x) ==> #[trigger] add_segment_targets(acc, segs, costs).contains(x),
        forall|i: int, j: int|
            0 <= i < segs.len() && 0 <= j < segs[i].members@.len() && segs[i].members@[j] < costs.len()
                && costs[segs[i].members@[j] as int] != 0 ==> add_segment_targets(acc, segs, costs).contains(
                #[trigger] segs[i].members@[j],
            ),
    decreases segs.len(),
{
    if segs.len() > 0 {
        let acc2 = add_targets(acc, segs[0].members@, costs);
        lemma_add_targets_keeps(acc, segs[0].members@, costs);
        lemma_segment_targets_keep(acc2, segs.drop_first(), costs);
        assert(add_segment_targets(acc, segs, costs) == add_segment_targets(acc2, segs.drop_first(), costs));
        assert forall|i: int, j: int|
            0 <= i < segs.len() && 0 <= j < segs[i].members@.len() && segs[i].members@[j] < costs.len()
                && costs[segs[i].members@[j] as int] != 0 implies add_segment_targets(acc, segs, costs).contains(
                #[trigger] segs[i].members@[j],
            ) by {
            if i > 0 {
                assert(segs.drop_first()[i - 1] == segs[i]);
                assert(segs.drop_first()[i - 1].members@[j] == segs[i].members@[j]);
            } else {
                assert(acc2.contains(segs[0].members@[j]));
            }
        }
    }
}

proof fn lemma_position_of_contained(s: Seq<u32>, x: u32)
    requires
        s.contains(x),
    ensures
        position(s, x) matches Some(p) && p < s.len() && s[p as int] == x,
    decreases s.len(),
{
    if s[0] != x {
        let q = choose|q: int| 0 <= q < s.len() && s[q] == x;
        assert(s.drop_first()[q - 1] == x);
        lemma_position_of_contained(s.drop_first(), x);
    }
}

/// Every exported function and every function of an element segment whose
/// stack cost is not zero gets a thunk, and its references are moved to it.
pub proof fn lemma_thunks_cover(m: Module)
    ensures
        forall|i: int|
            0 <= i < m.exports@.len() ==> match (#[trigger] m.exports@[i]).internal {
                Internal::Function(x) => has_thunk(m, x),
                _ => true,
            },
        forall|i: int, j: int|
            0 <= i < m.elements@.len() && 0 <= j < m.elements@[i].members@.len() ==> has_thunk(
                m,
                #[trigger] m.elements@[i].members@[j],
            ),
{
    let costs = stack_costs(m);
    let e = add_export_targets(Seq::empty(), m.exports@, costs);
    lemma_export_targets_keep(Seq::empty(), m.exports@, costs);
    lemma_segment_targets_keep(e, m.elements@, costs);
    let targets = thunk_targets(m, costs);
    assert forall|i: int| 0 <= i < m.exports@.len() implies match (#[trigger] m.exports@[i]).internal {
        Internal::Function(x) => has_thunk(m, x),
        _ => true,
    } by {
        if let Internal::Function(x) = m.exports@[i].internal {
            if x < costs.len() && costs[x as int] != 0 {
                assert(e.contains(x));
                lemma_position_of_contained(targets, x);
            }
        }
    }
    assert forall|i: int, j: int|
        0 <= i < m.elements@.len() && 0 <= j < m.elements@[i].members@.len() implies has_thunk(
        m,
        #[trigger] m.elements@[i].members@[j],
    ) by {
        let x = m.elements@[i].members@[j];
        if x < costs.len() && costs[x as int] != 0 {
            lemma_position_of_contained(targets, x);
        }
    }
}

/// Function `x`, if its stack cost is not zero, has a thunk: references to it
/// from exports and tables are moved to the thunk, which calls `x`.
pub open spec fn has_thunk(m: Module, x: u32) -> bool {
    let costs = stack_costs(m);
    let targets = thunk_targets(m, costs);
    x < costs.len() && costs[x as int] != 0 ==> {
        &&& position(targets, x) is Some
        &&& targets[position(targets, x)->Some_0 as int] == x
    }
}

/// In an instrumented body, each call of a function with a non-zero stack
/// cost stands inside the instructions that wrap it: the six-instruction
/// increment and check before the call, the four-instruction decrement after
/// it, both naming the callee's cost and the same global and limit.
pub proof fn lemma_calls_wrapped(code: Seq<Instruction>, costs: Seq<u32>, h: u32, limit: u32, n: nat, j: int)
    requires
        n <= code.len(),
        0 <= j < n,
        code[j] matches Instruction::Call(f) && f < costs.len() && costs[f as int] > 0,
    ensures
        ({
            let out = instrumented(code, costs, h, limit, n);
            let start = instrumented(code, costs, h, limit, j as nat).len() as int;
            let f = code[j]->Call_0;
            &&& start + 15 <= out.len()
            &&& out.subrange(start, start + 15) == instrument_call(f, costs[f as int], h, limit)
            &&& out[start + 10] == Instruction::Call(f)
        }),
    decreases n,
{
    let out = instrumented(code, costs, h, limit, n);
    let prev = instrumented(code, costs, h, limit, (n - 1) as nat);
    let start = instrumented(code, costs, h, limit, j as nat).len() as int;
    let f = code[j]->Call_0;
    if j < n - 1 {
        lemma_calls_wrapped(code, costs, h, limit, (n - 1) as nat, j);
        assert(out == prev + instrument_one(code[n - 1], costs, h, limit));
        assert(out.subrange(start, start + 15) =~= prev.subrange(start, start + 15));
    } else {
        assert(out == prev + instrument_call(f, costs[f as int], h, limit));
        assert(out.subrange(start, start + 15) =~= instrument_call(f, costs[f as int], h, limit));
    }
}

/// In the result of the stack height limiter, every call of a function with
/// a non-zero stack cost, in every original body and in every thunk, stands
/// inside the wrapping instructions that name its cost, the height global
/// and the limit; and every export and table entry that names such a
/// function names its thunk instead, a new function that calls it.
pub proof fn lemma_limiter_guards_calls(m: Module, m2: Module, limit: u32)
    requires
        limiter_applied(m, m2, limit),
    ensures
        ({
            let costs = stack_costs(m);
            let h = globals_space(m) as u32;
            let targets = thunk_targets(m, costs);
            let n = m.code@.len();
            &&& forall|i: int, j: int|
                0 <= i < n && 0 <= j < m.code@[i].code@.len() && (#[trigger] m.code@[i].code@[j] matches Instruction::Call(f)
                    && f < costs.len() && costs[f as int] > 0) ==> {
                    let f = m.code@[i].code@[j]->Call_0;
                    let start = instrumented(m.code@[i].code@, costs, h, limit, j as nat).len() as int;
                    &&& start + 15 <= m2.code@[i].code@.len()
                    &&& m2.code@[i].code@.subrange(start, start + 15) == instrument_call(f, costs[f as int], h, limit)
                }
            &&& forall|k: int|
                0 <= k < targets.len() ==> {
                    let x = targets[k];
                    let p = m.types@[func_type_indices(m)[x as int] as int].params@.len() as int;
                    let body = (#[trigger] m2.code@[n + k]).code@;
                    &&& body.len() == p + 16
                    &&& body.subrange(p, p + 15) == instrument_call(x, costs[x as int], h, limit)
                    &&& body[p + 15] == Instruction::End
                }
            &&& forall|i: int| 0 <= i < m.exports@.len() ==> #[trigger] export_to_thunk(m, m2, i)
        }),
{
    let costs = stack_costs(m);
    let h = globals_space(m) as u32;
    let targets = thunk_targets(m, costs);
    let n = m.code@.len();
    assert forall|i: int, j: int|
        0 <= i < n && 0 <= j < m.code@[i].code@.len() && (#[trigger] m.code@[i].code@[j] matches Instruction::Call(f)
            && f < costs.len() && costs[f as int] > 0) implies {
            let f = m.code@[i].code@[j]->Call_0;
            let start = instrumented(m.code@[i].code@, costs, h, limit, j as nat).len() as int;
            &&& start + 15 <= m2.code@[i].code@.len()
            &&& m2.code@[i].code@.subrange(start, start + 15) == instrument_call(f, costs[f as int], h, limit)
        } by {
        lemma_calls_wrapped(m.code@[i].code@, costs, h, limit, m.code@[i].code@.len(), j);
        assert(m2.code@[i].locals == m.code@[i].locals);
    }
    assert forall|k: int| 0 <= k < targets.len() implies {
        let x = targets[k];
        let p = m.types@[func_type_indices(m)[x as int] as int].params@.len() as int;
        let body = (#[trigger] m2.code@[n + k]).code@;
        &&& body.len() == p + 16
        &&& body.subrange(p, p + 15) == instrument_call(x, costs[x as int], h, limit)
        &&& body[p + 15] == Instruction::End
    } by {
        let x = targets[k];
        let p = m.types@[func_type_indices(m)[x as int] as int].params@.len() as int;
        let body = m2.code@[n + k].code@;
        assert(body == thunk_code(p as nat, x, costs[x as int], h, limit));
        assert(body.subrange(p, p + 15) =~= instrument_call(x, costs[x as int], h, limit));
    }
    lemma_thunks_cover(m);
    assert forall|i: int| 0 <= i < m.exports@.len() implies #[trigger] export_to_thunk(m, m2, i) by {
        assert(m2.exports@[i].field == m.exports@[i].field);
        if let Internal::Function(x) = m.exports@[i].internal {
            assert(has_thunk(m, x));
        }
    }
}

/// Export `i` of `m`, if it names a function with a non-zero stack cost,
/// names in `m2` the thunk of that function.
pub open spec fn export_to_thunk(m: Module, m2: Module, i: int) -> bool {
    let costs = stack_costs(m);
    let targets = thunk_targets(m, costs);
    match m.exports@[i].internal {
        Internal::Function(x) => x < costs.len() && costs[x as int] != 0 ==> {
            &&& position(targets, x) is Some
            &&& targets[position(targets, x)->Some_0 as int] == x
            &&& m2.exports@[i].internal == Internal::Function((functions_space(m) + position(targets, x)->Some_0) as u32)
        },
        _ => true,
    }
}

} // verus!
