//! Gas metering: every block of every function body first charges its static
//! cost to an imported `gas` function.
//!
//! A block is the function body, or the instructions opened by `block`,
//! `loop` or `if` (or `else`) up to the matching `else` or `end`. Its cost is 1
//! plus the cost of the instructions directly in it; `else` and `end` cost
//! nothing, and `block`, `loop` and `if` count towards the enclosing block.
use vstd::prelude::*;

use crate::elements::{
    func_import_count, func_import_count_of, functions_space, reversed, ElementSegment, ExportEntry,
    External, FuncBody, FunctionType, ImportEntry, Instruction, Internal, Module, ValueType,
    I32_MUL,
};
use crate::rules::RuleSet;

verus! {

/// A block of code: the position of its first instruction and its cost.
#[derive(Clone, Copy, Debug, PartialEq, Eq)]
pub struct BlockEntry {
    pub start_pos: usize,
    pub cost: u32,
}

/// `blocks` with `c` added to the cost of the block on top of `stack`, or
/// `None` if there is no open block or the cost overflows.
pub open spec fn add_cost(blocks: Seq<BlockEntry>, stack: Seq<usize>, c: u32) -> Option<
    Seq<BlockEntry>,
> {
    if stack.len() == 0 {
        None
    } else {
        let top = stack.last() as int;
        let b = blocks[top];
        if b.cost + c > u32::MAX {
            None
        } else {
            Some(blocks.update(top, BlockEntry { start_pos: b.start_pos, cost: (b.cost + c) as u32 }))
        }
    }
}

pub open spec fn opens_block(i: Instruction) -> bool {
    i is Block || i is Loop || i is If
}

/// The blocks found, and the stack of open ones, after the first `n`
/// instructions of `code`; `None` once an instruction is forbidden, a cost
/// overflows or an `end` or `else` closes no block.
pub open spec fn count_blocks(rules: RuleSet, code: Seq<Instruction>, n: nat) -> Option<
    (Seq<BlockEntry>, Seq<usize>),
>
    decreases n,
{
    if n == 0 {
        Some((seq![BlockEntry { start_pos: 0, cost: 1 }], seq![0usize]))
    } else {
        match count_blocks(rules, code, (n - 1) as nat) {
            None => None,
            Some((blocks, stack)) => {
                let c = n - 1;
                let ins = code[c];
                if (ins is End || ins is Else) && rules.cost(ins) is None {
                    None
                } else if ins is End {
                    if stack.len() == 0 {
                        None
                    } else {
                        Some((blocks, stack.drop_last()))
                    }
                } else if ins is Else {
                    if stack.len() == 0 {
                        None
                    } else {
                        Some(
                            (
                                blocks.push(BlockEntry { start_pos: (c + 1) as usize, cost: 1 }),
                                stack.drop_last().push(blocks.len() as usize),
                            ),
                        )
                    }
                } else {
                    match rules.cost(ins) {
                        None => None,
                        Some(v) => match add_cost(blocks, stack, v) {
                            None => None,
                            Some(b2) => if opens_block(ins) {
                                Some(
                                    (
                                        b2.push(BlockEntry { start_pos: (c + 1) as usize, cost: 1 }),
                                        stack.push(b2.len() as usize),
                                    ),
                                )
                            } else {
                                Some((b2, stack))
                            },
                        },
                    }
                }
            },
        }
    }
}

/// The blocks of `code` with their costs, in the order in which they start.
pub open spec fn block_costs(rules: RuleSet, code: Seq<Instruction>) -> Option<Seq<BlockEntry>> {
    match count_blocks(rules, code, code.len()) {
        Some((blocks, _)) => Some(blocks),
        None => None,
    }
}

/// `code` from position `i` on, with `i32.const cost; call gas` put before the
/// first instruction of each block from the `b`-th on; `None` if a block
/// starts at no instruction.
pub open spec fn meter(code: Seq<Instruction>, blocks: Seq<BlockEntry>, gas: u32, i: int, b: int) -> Option<
    Seq<Instruction>,
>
    decreases code.len() - i,
{
    if i >= code.len() {
        if b >= blocks.len() {
            Some(Seq::empty())
        } else {
            None
        }
    } else if 0 <= b < blocks.len() && blocks[b].start_pos == i {
        match meter(code, blocks, gas, i + 1, b + 1) {
            Some(rest) => Some(
                seq![Instruction::I32Const(blocks[b].cost as i32), Instruction::Call(gas), code[i]]
                    + rest,
            ),
            None => None,
        }
    } else {
        match meter(code, blocks, gas, i + 1, b) {
            Some(rest) => Some(seq![code[i]] + rest),
            None => None,
        }
    }
}

/// Whether `meter` succeeds on a body of `n` instructions.
pub open spec fn meter_fits(n: int, blocks: Seq<BlockEntry>, i: int, b: int) -> bool
    decreases n - i,
{
    if i >= n {
        b >= blocks.len()
    } else if 0 <= b < blocks.len() && blocks[b].start_pos == i {
        meter_fits(n, blocks, i + 1, b + 1)
    } else {
        meter_fits(n, blocks, i + 1, b)
    }
}

pub open spec fn shift_index(x: u32, at: u32) -> u32 {
    if x >= at {
        (x + 1) as u32
    } else {
        x
    }
}

pub open spec fn shift_call(i: Instruction, at: u32) -> Instruction {
    match i {
        Instruction::Call(x) => Instruction::Call(shift_index(x, at)),
        _ => i,
    }
}

/// `code` with every call to a function at or above `at` moved up by one.
pub open spec fn shift_calls(code: Seq<Instruction>, at: u32) -> Seq<Instruction> {
    code.map_values(|i: Instruction| shift_call(i, at))
}

pub open spec fn replace_grow_one(i: Instruction, f: u32) -> Instruction {
    match i {
        Instruction::GrowMemory(_) => Instruction::Call(f),
        _ => i,
    }
}

/// `code` with every `grow_memory` replaced by a call to `f`.
pub open spec fn replace_grow(code: Seq<Instruction>, f: u32) -> Seq<Instruction> {
    code.map_values(|i: Instruction| replace_grow_one(i, f))
}

/// The metered form of a body: calls at or above `gas` shifted up, a charge at
/// the start of each block, and, where `grow` names a function, each
/// `grow_memory` replaced by a call to it.
pub open spec fn gas_code(rules: RuleSet, code: Seq<Instruction>, gas: u32, grow: Option<u32>) -> Option<
    Seq<Instruction>,
> {
    match block_costs(rules, code) {
        None => None,
        Some(blocks) => match meter(shift_calls(code, gas), blocks, gas, 0, 0) {
            None => None,
            Some(out) => Some(
                match grow {
                    Some(g) => replace_grow(out, g),
                    None => out,
                },
            ),
        },
    }
}

/// Every call in `code` targets a function below `bound`.
pub open spec fn calls_below(code: Seq<Instruction>, bound: nat) -> bool {
    forall|i: int| 0 <= i < code.len() ==> (#[trigger] code[i] matches Instruction::Call(x) ==> x < bound)
}

/// Every function index that the module holds (calls, exports, element
/// segments, start) is below `bound`.
pub open spec fn func_refs_below(m: Module, bound: nat) -> bool {
    &&& forall|i: int| 0 <= i < m.code@.len() ==> calls_below(#[trigger] m.code@[i].code@, bound)
    &&& forall|i: int|
        0 <= i < m.exports@.len() ==> (#[trigger] m.exports@[i].internal matches Internal::Function(
            x,
        ) ==> x < bound)
    &&& forall|i: int, j: int|
        0 <= i < m.elements@.len() && 0 <= j < m.elements@[i].members@.len() ==> #[trigger] m.elements@[i].members@[j]
            < bound
    &&& m.start matches Some(x) ==> x < bound
}

proof fn lemma_count_blocks_none(rules: RuleSet, code: Seq<Instruction>, m: nat, n: nat)
    requires
        m <= n,
        count_blocks(rules, code, m) is None,
    ensures
        count_blocks(rules, code, n) is None,
    decreases n - m,
{
    if m < n {
        lemma_count_blocks_none(rules, code, m, (n - 1) as nat);
    }
}

proof fn lemma_meter_fits(code: Seq<Instruction>, blocks: Seq<BlockEntry>, gas: u32, i: int, b: int)
    ensures
        meter(code, blocks, gas, i, b) is Some <==> meter_fits(code.len() as int, blocks, i, b),
    decreases code.len() - i,
{
    if i < code.len() {
        if 0 <= b < blocks.len() && blocks[b].start_pos == i {
            lemma_meter_fits(code, blocks, gas, i + 1, b + 1);
        } else {
            lemma_meter_fits(code, blocks, gas, i + 1, b);
        }
    }
}

/// Finds the blocks of `code` and their costs; `None` where `block_costs` is.
fn count_costs(code: &Vec<Instruction>, rules: &RuleSet) -> (r: Option<Vec<BlockEntry>>)
    ensures
        match r {
            Some(v) => block_costs(*rules, code@) == Some(v@),
            None => block_costs(*rules, code@) is None,
        },
{
    let mut blocks: Vec<BlockEntry> = vec![BlockEntry { start_pos: 0, cost: 1 }];
    let mut stack: Vec<usize> = vec![0];
    let mut cursor: usize = 0;
    proof {
        assert(blocks@ =~= seq![BlockEntry { start_pos: 0, cost: 1 }]);
        assert(stack@ =~= seq![0usize]);
    }
    while cursor < code.len()
        invariant
            cursor <= code@.len(),
            count_blocks(*rules, code@, cursor as nat) == Some((blocks@, stack@)),
            forall|k: int| 0 <= k < stack@.len() ==> stack@[k] < blocks@.len(),
        decreases code@.len() - cursor,
    {
        let ghost before = (blocks@, stack@);
        let ins = &code[cursor];
        match ins {
            Instruction::End => {
                if rules.process(ins).is_err() || stack.len() == 0 {
                    proof {
                        lemma_count_blocks_none(*rules, code@, (cursor + 1) as nat, code@.len());
                    }
                    return None;
                }
                stack.pop();
            },
            Instruction::Else => {
                if rules.process(ins).is_err() || stack.len() == 0 {
                    proof {
                        lemma_count_blocks_none(*rules, code@, (cursor + 1) as nat, code@.len());
                    }
                    return None;
                }
                stack.pop();
                let idx = blocks.len();
                blocks.push(BlockEntry { start_pos: cursor + 1, cost: 1 });
                stack.push(idx);
            },
            _ => {
                let c = rules.process(ins);
                let v = match c {
                    Ok(v) => v,
                    Err(_) => {
                        proof {
                            lemma_count_blocks_none(*rules, code@, (cursor + 1) as nat, code@.len());
                        }
                        return None;
                    },
                };
                if stack.len() == 0 {
                    proof {
                        lemma_count_blocks_none(*rules, code@, (cursor + 1) as nat, code@.len());
                    }
                    return None;
                }
                let top = stack[stack.len() - 1];
                let b = blocks[top];
                if b.cost > u32::MAX - v {
                    proof {
                        lemma_count_blocks_none(*rules, code@, (cursor + 1) as nat, code@.len());
                    }
                    return None;
                }
                blocks.set(top, BlockEntry { start_pos: b.start_pos, cost: b.cost + v });
                match ins {
                    Instruction::Block(_) | Instruction::Loop(_) | Instruction::If(_) => {
                        let idx = blocks.len();
                        blocks.push(BlockEntry { start_pos: cursor + 1, cost: 1 });
                        stack.push(idx);
                    },
                    _ => {},
                }
            },
        }
        proof {
            assert(stack@ == before.1.drop_last() || stack@ == before.1 || stack@ == before.1.push(
                (blocks@.len() - 1) as usize,
            ) || stack@ == before.1.drop_last().push((blocks@.len() - 1) as usize));
        }
        cursor = cursor + 1;
    }
    Some(blocks)
}

/// Whether metering succeeds on a body of `n` instructions with these blocks.
fn fits(n: usize, blocks: &Vec<BlockEntry>) -> (r: bool)
    ensures
        r == meter_fits(n as int, blocks@, 0, 0),
{
    let mut i: usize = 0;
    let mut b: usize = 0;
    while i < n
        invariant
            i <= n,
            b <= blocks@.len(),
            meter_fits(n as int, blocks@, 0, 0) == meter_fits(n as int, blocks@, i as int, b as int),
        decreases n - i,
    {
        if b < blocks.len() && blocks[b].start_pos == i {
            b = b + 1;
        }
        i = i + 1;
    }
    b >= blocks.len()
}

/// Puts `i32.const cost; call gas_func` before the first instruction of each block.
fn insert_metering_calls(code: Vec<Instruction>, blocks: &Vec<BlockEntry>, gas_func: u32) -> (r: Vec<
    Instruction,
>)
    requires
        meter(code@, blocks@, gas_func, 0, 0) is Some,
    ensures
        meter(code@, blocks@, gas_func, 0, 0) == Some(r@),
{
    let ghost orig = code@;
    let n = code.len();
    let mut rev = reversed(code);
    let mut out: Vec<Instruction> = Vec::new();
    let mut i: usize = 0;
    let mut b: usize = 0;
    while i < n
        invariant
            n == orig.len(),
            i <= n,
            b <= blocks@.len(),
            rev@.len() == n - i,
            forall|j: int| 0 <= j < rev@.len() ==> rev@[j] == orig[n - 1 - j],
            meter(orig, blocks@, gas_func, i as int, b as int) matches Some(rest) && meter(
                orig,
                blocks@,
                gas_func,
                0,
                0,
            ) == Some(out@ + rest),
        decreases n - i,
    {
        let ins = rev.pop().unwrap();
        let ghost out0 = out@;
        if b < blocks.len() && blocks[b].start_pos == i {
            let ghost rest = meter(orig, blocks@, gas_func, i + 1, b + 1)->Some_0;
            out.push(Instruction::I32Const(blocks[b].cost as i32));
            out.push(Instruction::Call(gas_func));
            out.push(ins);
            proof {
                assert(out@ + rest =~= out0 + (seq![
                    Instruction::I32Const(blocks@[b as int].cost as i32),
                    Instruction::Call(gas_func),
                    orig[i as int],
                ] + rest));
            }
            b = b + 1;
        } else {
            let ghost rest = meter(orig, blocks@, gas_func, i + 1, b as int)->Some_0;
            out.push(ins);
            proof {
                assert(out@ + rest =~= out0 + (seq![orig[i as int]] + rest));
            }
        }
        i = i + 1;
    }
    proof {
        assert(out@ + Seq::<Instruction>::empty() =~= out@);
    }
    out
}

/// Moves every call to a function at or above `inserted_index` up by one.
pub fn update_call_index(instructions: &mut Vec<Instruction>, inserted_index: u32)
    requires
        calls_below(old(instructions)@, u32::MAX as nat),
    ensures
        final(instructions)@ == shift_calls(old(instructions)@, inserted_index),
{
    let ghost orig = instructions@;
    let mut i: usize = 0;
    while i < instructions.len()
        invariant
            instructions@.len() == orig.len(),
            i <= orig.len(),
            calls_below(orig, u32::MAX as nat),
            forall|j: int| 0 <= j < i ==> instructions@[j] == shift_call(orig[j], inserted_index),
            forall|j: int| i <= j < orig.len() ==> instructions@[j] == orig[j],
        decreases orig.len() - i,
    {
        if let Instruction::Call(x) = instructions[i] {
            if x >= inserted_index {
                assert(orig[i as int] matches Instruction::Call(y) && y < u32::MAX);
                instructions.set(i, Instruction::Call(x + 1));
            }
        }
        i = i + 1;
    }
    proof {
        assert(instructions@ =~= shift_calls(orig, inserted_index));
    }
}

/// Replaces every `grow_memory` by a call to `grow_counter_func`.
fn inject_grow_counter(instructions: &mut Vec<Instruction>, grow_counter_func: u32)
    ensures
        final(instructions)@ == replace_grow(old(instructions)@, grow_counter_func),
{
    let ghost orig = instructions@;
    let mut i: usize = 0;
    while i < instructions.len()
        invariant
            instructions@.len() == orig.len(),
            i <= orig.len(),
            forall|j: int|
                0 <= j < i ==> instructions@[j] == replace_grow_one(orig[j], grow_counter_func),
            forall|j: int| i <= j < orig.len() ==> instructions@[j] == orig[j],
        decreases orig.len() - i,
    {
        if let Instruction::GrowMemory(_) = instructions[i] {
            instructions.set(i, Instruction::Call(grow_counter_func));
        }
        i = i + 1;
    }
    proof {
        assert(instructions@ =~= replace_grow(orig, grow_counter_func));
    }
}

/// Meters one body: `Err` where `gas_code` gives `None`, leaving it unchanged.
pub fn inject_counter(instructions: &mut Vec<Instruction>, rules: &RuleSet, gas_func: u32) -> (r:
    Result<(), ()>)
    requires
        calls_below(old(instructions)@, u32::MAX as nat),
    ensures
        match gas_code(*rules, old(instructions)@, gas_func, None) {
            Some(out) => r is Ok && final(instructions)@ == out,
            None => r is Err && final(instructions)@ == old(instructions)@,
        },
{
    let blocks = match count_costs(instructions, rules) {
        Some(b) => b,
        None => return Err(()),
    };
    proof {
        lemma_meter_fits(shift_calls(instructions@, gas_func), blocks@, gas_func, 0, 0);
    }
    if !fits(instructions.len(), &blocks) {
        return Err(());
    }
    update_call_index(instructions, gas_func);
    let mut code: Vec<Instruction> = Vec::new();
    std::mem::swap(&mut code, instructions);
    *instructions = insert_metering_calls(code, &blocks, gas_func);
    Ok(())
}

pub open spec fn shift_internal(i: Internal, at: u32) -> Internal {
    match i {
        Internal::Function(x) => Internal::Function(shift_index(x, at)),
        _ => i,
    }
}

pub open spec fn shift_members(members: Seq<u32>, at: u32) -> Seq<u32> {
    members.map_values(|x: u32| shift_index(x, at))
}

/// `m` with every function index at or above `at` moved up by one, as when a
/// function import is added at `at`: calls, exports, element segments and the
/// start function.
pub open spec fn shifted_module(m: Module, m2: Module, at: u32) -> bool {
    &&& m2.types == m.types
    &&& m2.imports == m.imports
    &&& m2.functions == m.functions
    &&& m2.tables == m.tables
    &&& m2.memories == m.memories
    &&& m2.globals == m.globals
    &&& m2.data == m.data
    &&& m2.code@.len() == m.code@.len()
    &&& forall|i: int|
        0 <= i < m.code@.len() ==> (#[trigger] m2.code@[i]).locals == m.code@[i].locals
            && m2.code@[i].code@ == shift_calls(m.code@[i].code@, at)
    &&& m2.exports@.len() == m.exports@.len()
    &&& forall|i: int|
        0 <= i < m.exports@.len() ==> (#[trigger] m2.exports@[i]).field == m.exports@[i].field
            && m2.exports@[i].internal == shift_internal(m.exports@[i].internal, at)
    &&& m2.elements@.len() == m.elements@.len()
    &&& forall|i: int|
        0 <= i < m.elements@.len() ==> (#[trigger] m2.elements@[i]).index == m.elements@[i].index
            && m2.elements@[i].offset == m.elements@[i].offset && m2.elements@[i].members@
            == shift_members(m.elements@[i].members@, at)
    &&& m2.start == match m.start {
        Some(x) => Some(shift_index(x, at)),
        None => None,
    }
}

fn shift_member_list(members: &mut Vec<u32>, at: u32)
    requires
        forall|j: int| 0 <= j < old(members)@.len() ==> old(members)@[j] < u32::MAX,
    ensures
        final(members)@ == shift_members(old(members)@, at),
{
    let ghost orig = members@;
    let mut i: usize = 0;
    while i < members.len()
        invariant
            members@.len() == orig.len(),
            i <= orig.len(),
            forall|j: int| 0 <= j < orig.len() ==> orig[j] < u32::MAX,
            forall|j: int| 0 <= j < i ==> members@[j] == shift_index(orig[j], at),
            forall|j: int| i <= j < orig.len() ==> members@[j] == orig[j],
        decreases orig.len() - i,
    {
        let x = members[i];
        assert(orig[i as int] < u32::MAX);
        if x >= at {
            members.set(i, x + 1);
        }
        i = i + 1;
    }
    proof {
        assert(members@ =~= shift_members(orig, at));
    }
}

/// Moves every function index at or above `at` up by one.
pub fn shift_function_indices(module: Module, at: u32) -> (r: Module)
    requires
        func_refs_below(module, u32::MAX as nat),
    ensures
        shifted_module(module, r, at),
{
    let ghost m0 = module;
    let mut m = module;
    let mut bodies: Vec<FuncBody> = Vec::new();
    std::mem::swap(&mut bodies, &mut m.code);
    let n = bodies.len();
    let mut rev = reversed(bodies);
    let mut new_bodies: Vec<FuncBody> = Vec::new();
    let mut i: usize = 0;
    while i < n
        invariant
            n == m0.code@.len(),
            i <= n,
            func_refs_below(m0, u32::MAX as nat),
            rev@.len() == n - i,
            forall|j: int| 0 <= j < rev@.len() ==> rev@[j] == m0.code@[n - 1 - j],
            new_bodies@.len() == i,
            forall|j: int|
                0 <= j < i ==> (#[trigger] new_bodies@[j]).locals == m0.code@[j].locals
                    && new_bodies@[j].code@ == shift_calls(m0.code@[j].code@, at),
        decreases n - i,
    {
        let body = rev.pop().unwrap();
        assert(calls_below(m0.code@[i as int].code@, u32::MAX as nat));
        let mut code = body.code;
        update_call_index(&mut code, at);
        new_bodies.push(FuncBody { locals: body.locals, code });
        i = i + 1;
    }
    m.code = new_bodies;

    let mut exports: Vec<ExportEntry> = Vec::new();
    std::mem::swap(&mut exports, &mut m.exports);
    let n = exports.len();
    let mut rev = reversed(exports);
    let mut new_exports: Vec<ExportEntry> = Vec::new();
    let mut i: usize = 0;
    while i < n
        invariant
            n == m0.exports@.len(),
            i <= n,
            func_refs_below(m0, u32::MAX as nat),
            rev@.len() == n - i,
            forall|j: int| 0 <= j < rev@.len() ==> rev@[j] == m0.exports@[n - 1 - j],
            new_exports@.len() == i,
            forall|j: int|
                0 <= j < i ==> (#[trigger] new_exports@[j]).field == m0.exports@[j].field
                    && new_exports@[j].internal == shift_internal(m0.exports@[j].internal, at),
        decreases n - i,
    {
        let e = rev.pop().unwrap();
        let internal = match e.internal {
            Internal::Function(x) => {
                assert(m0.exports@[i as int].internal matches Internal::Function(y) && y
                    < u32::MAX);
                Internal::Function(if x >= at { x + 1 } else { x })
            },
            other => other,
        };
        new_exports.push(ExportEntry { field: e.field, internal });
        i = i + 1;
    }
    m.exports = new_exports;

    let mut segs: Vec<ElementSegment> = Vec::new();
    std::mem::swap(&mut segs, &mut m.elements);
    let n = segs.len();
    let mut rev = reversed(segs);
    let mut new_segs: Vec<ElementSegment> = Vec::new();
    let mut i: usize = 0;
    while i < n
        invariant
            n == m0.elements@.len(),
            i <= n,
            func_refs_below(m0, u32::MAX as nat),
            rev@.len() == n - i,
            forall|j: int| 0 <= j < rev@.len() ==> rev@[j] == m0.elements@[n - 1 - j],
            new_segs@.len() == i,
            forall|j: int|
                0 <= j < i ==> (#[trigger] new_segs@[j]).index == m0.elements@[j].index
                    && new_segs@[j].offset == m0.elements@[j].offset && new_segs@[j].members@
                    == shift_members(m0.elements@[j].members@, at),
        decreases n - i,
    {
        let seg = rev.pop().unwrap();
        let mut members = seg.members;
        assert forall|j: int| 0 <= j < members@.len() implies members@[j] < u32::MAX by {
            assert(m0.elements@[i as int].members@[j] < u32::MAX);
        }
        shift_member_list(&mut members, at);
        new_segs.push(ElementSegment { index: seg.index, offset: seg.offset, members });
        i = i + 1;
    }
    m.elements = new_segs;

    m.start = match m.start {
        Some(x) => Some(if x >= at { x + 1 } else { x }),
        None => None,
    };
    m
}

/// Body of the function that charges
/// `grow_memory`: it pays `grow_cost` per requested page, then grows.
pub open spec fn grow_counter_code(grow_cost: u32, gas: u32) -> Seq<Instruction> {
    seq![
        Instruction::GetLocal(0),
        Instruction::GetLocal(0),
        Instruction::I32Const(grow_cost as i32),
        Instruction::Numeric(I32_MUL),
        Instruction::Call(gas),
        Instruction::GrowMemory(0),
        Instruction::End,
    ]
}

/// `e` is the gas import: `env.gas`, a function of type `type_idx`.
pub open spec fn gas_import_ok(e: ImportEntry, type_idx: nat) -> bool {
    &&& e.module@ == "env"@
    &&& e.field@ == "gas"@
    &&& e.external == External::Function(type_idx as u32)
}

/// Whether `m2` is the metered form of `m` under `rules`.
pub open spec fn gas_injected(m: Module, m2: Module, rules: RuleSet) -> bool {
    let gas = func_import_count(m) as u32;
    let nt = m.types@.len();
    let grows = rules.spec_grow() > 0;
    let grow_idx: Option<u32> = if grows {
        Some((functions_space(m) + 1) as u32)
    } else {
        None
    };
    &&& m2.types@.len() == nt + if grows { 2nat } else { 1nat }
    &&& m2.types@.subrange(0, nt as int) == m.types@
    &&& m2.types@[nt as int].params@ == seq![ValueType::I32]
    &&& m2.types@[nt as int].return_type is None
    &&& m2.imports@.len() == m.imports@.len() + 1
    &&& m2.imports@.drop_last() == m.imports@
    &&& gas_import_ok(m2.imports@.last(), nt)
    &&& m2.tables == m.tables
    &&& m2.memories == m.memories
    &&& m2.globals == m.globals
    &&& m2.data == m.data
    &&& m2.code@.len() == m.code@.len() + if grows { 1nat } else { 0nat }
    &&& forall|i: int|
        0 <= i < m.code@.len() ==> (#[trigger] m2.code@[i]).locals == m.code@[i].locals
            && gas_code(rules, m.code@[i].code@, gas, grow_idx) == Some(m2.code@[i].code@)
    &&& m2.exports@.len() == m.exports@.len()
    &&& forall|i: int|
        0 <= i < m.exports@.len() ==> (#[trigger] m2.exports@[i]).field == m.exports@[i].field
            && m2.exports@[i].internal == shift_internal(m.exports@[i].internal, gas)
    &&& m2.elements@.len() == m.elements@.len()
    &&& forall|i: int|
        0 <= i < m.elements@.len() ==> (#[trigger] m2.elements@[i]).index == m.elements@[i].index
            && m2.elements@[i].offset == m.elements@[i].offset && m2.elements@[i].members@
            == shift_members(m.elements@[i].members@, gas)
    &&& m2.start == match m.start {
        Some(x) => Some(shift_index(x, gas)),
        None => None,
    }
    &&& if grows {
        &&& m2.types@[nt + 1int].params@ == seq![ValueType::I32]
        &&& m2.types@[nt + 1int].return_type == Some(ValueType::I32)
        &&& m2.functions@ == m.functions@.push((nt + 1) as u32)
        &&& m2.code@.last().locals@.len() == 0
        &&& m2.code@.last().code@ == grow_counter_code(rules.spec_grow(), gas)
    } else {
        m2.functions == m.functions
    }
}

/// Some body of `m` holds an instruction whose category `rules` forbids.
pub open spec fn has_forbidden(m: Module, rules: RuleSet) -> bool {
    exists|i: int, k: int|
        0 <= i < m.code@.len() && 0 <= k < m.code@[i].code@.len() && rules.cost(
            #[trigger] m.code@[i].code@[k],
        ) is None
}

/// A body that holds a forbidden instruction has no metered form.
pub proof fn lemma_forbidden_has_no_blocks(rules: RuleSet, code: Seq<Instruction>, k: int)
    requires
        0 <= k < code.len(),
        rules.cost(code[k]) is None,
    ensures
        block_costs(rules, code) is None,
        forall|gas: u32, grow: Option<u32>| gas_code(rules, code, gas, grow) is None,
{
    assert(count_blocks(rules, code, (k + 1) as nat) is None);
    lemma_count_blocks_none(rules, code, (k + 1) as nat, code.len());
}

/// Makes every function body charge gas, through an imported `env.gas`
/// function, before each of its blocks; with a non-zero grow cost, a new
/// function also charges each `grow_memory` for the pages it asks for.
///
/// Fails, handing back the module unchanged, where a body holds a forbidden
/// instruction, a block's cost overflows or the body's blocks do not nest.
pub fn inject_gas_counter(module: Module, rules: &RuleSet) -> (r: Result<Module, Module>)
    requires
        func_refs_below(module, functions_space(module)),
        functions_space(module) + 2 <= u32::MAX,
        module.types@.len() + 2 <= u32::MAX,
        module.imports@.len() < u32::MAX,
    ensures
        match r {
            Ok(m2) => gas_injected(module, m2, *rules),
            Err(m2) => m2 == module && exists|i: int|
                0 <= i < module.code@.len() && gas_code(
                    *rules,
                    #[trigger] module.code@[i].code@,
                    func_import_count(module) as u32,
                    None,
                ) is None,
        },
        has_forbidden(module, *rules) ==> r == Err::<Module, Module>(module),
{
    let ghost m0 = module;
    proof {
        crate::elements::lemma_func_imports_bounded(module.imports@, module.imports@.len() as int);
    }
    let gas_func = func_import_count_of(&module);
    let grow_cost = rules.grow_cost();
    let grow_func = gas_func + 1 + module.functions.len() as u32;
    let ghost grow_idx: Option<u32> = if grow_cost > 0 { Some(grow_func) } else { None };

    let mut all_blocks: Vec<Vec<BlockEntry>> = Vec::new();
    let mut i: usize = 0;
    while i < module.code.len()
        invariant
            module == m0,
            gas_func == func_import_count(m0),
            i <= module.code@.len(),
            all_blocks@.len() == i,
            forall|j: int|
                0 <= j < i ==> block_costs(*rules, module.code@[j].code@) == Some(
                    (#[trigger] all_blocks@[j])@,
                ) && meter_fits(module.code@[j].code@.len() as int, all_blocks@[j]@, 0, 0),
        decreases module.code@.len() - i,
    {
        let blocks = match count_costs(&module.code[i].code, rules) {
            Some(b) => b,
            None => {
                proof {
                    assert(gas_code(*rules, module.code@[i as int].code@, gas_func, None) is None);
                }
                return Err(module);
            },
        };
        proof {
            lemma_meter_fits(
                shift_calls(module.code@[i as int].code@, gas_func),
                blocks@,
                gas_func,
                0,
                0,
            );
        }
        if !fits(module.code[i].code.len(), &blocks) {
            proof {
                assert(gas_code(*rules, module.code@[i as int].code@, gas_func, None) is None);
            }
            return Err(module);
        }
        all_blocks.push(blocks);
        i = i + 1;
    }

    let mut m = shift_function_indices(module, gas_func);

    let ghost m1 = m;
    let mut bodies: Vec<FuncBody> = Vec::new();
    std::mem::swap(&mut bodies, &mut m.code);
    let n = bodies.len();
    let mut rev = reversed(bodies);
    let mut new_bodies: Vec<FuncBody> = Vec::new();
    let mut i: usize = 0;
    while i < n
        invariant
            n == m0.code@.len(),
            n == m1.code@.len(),
            i <= n,
            shifted_module(m0, m1, gas_func),
            gas_func == func_import_count(m0),
            grow_idx == if rules.spec_grow() > 0 { Some(grow_func) } else { None },
            grow_cost == rules.spec_grow(),
            all_blocks@.len() == n,
            forall|j: int|
                0 <= j < n ==> block_costs(*rules, m0.code@[j].code@) == Some(
                    (#[trigger] all_blocks@[j])@,
                ) && meter_fits(m0.code@[j].code@.len() as int, all_blocks@[j]@, 0, 0),
            rev@.len() == n - i,
            forall|j: int| 0 <= j < rev@.len() ==> rev@[j] == m1.code@[n - 1 - j],
            new_bodies@.len() == i,
            forall|j: int|
                0 <= j < i ==> (#[trigger] new_bodies@[j]).locals == m0.code@[j].locals
                    && gas_code(*rules, m0.code@[j].code@, gas_func, grow_idx) == Some(
                    new_bodies@[j].code@,
                ),
        decreases n - i,
    {
        let body = rev.pop().unwrap();
        let ghost src = m0.code@[i as int].code@;
        proof {
            lemma_meter_fits(shift_calls(src, gas_func), all_blocks@[i as int]@, gas_func, 0, 0);
        }
        let mut code = insert_metering_calls(body.code, &all_blocks[i], gas_func);
        if grow_cost > 0 {
            inject_grow_counter(&mut code, grow_func);
        }
        new_bodies.push(FuncBody { locals: body.locals, code });
        i = i + 1;
    }
    m.code = new_bodies;

    let sig_idx = m.types.len() as u32;
    m.types.push(FunctionType { params: vec![ValueType::I32], return_type: None });
    m.imports.push(
        ImportEntry {
            module: "env".to_owned(),
            field: "gas".to_owned(),
            external: External::Function(sig_idx),
        },
    );
    if grow_cost > 0 {
        let grow_sig = m.types.len() as u32;
        m.types.push(FunctionType { params: vec![ValueType::I32], return_type: Some(ValueType::I32) });
        m.functions.push(grow_sig);
        m.code.push(
            FuncBody {
                locals: Vec::new(),
                code: vec![
                    Instruction::GetLocal(0),
                    Instruction::GetLocal(0),
                    Instruction::I32Const(grow_cost as i32),
                    Instruction::Numeric(I32_MUL),
                    Instruction::Call(gas_func),
                    Instruction::GrowMemory(0),
                    Instruction::End,
                ],
            },
        );
    }
    proof {
        assert(m.types@.subrange(0, m0.types@.len() as int) =~= m0.types@);
        assert(m.imports@.drop_last() =~= m0.imports@);
        let nt = m0.types@.len();
        assert(m.types@[nt as int].params@ == seq![ValueType::I32]);
        assert(gas_import_ok(m.imports@.last(), nt));
        assert(forall|i: int|
            0 <= i < m0.code@.len() ==> (#[trigger] m.code@[i]).locals == m0.code@[i].locals
                && gas_code(*rules, m0.code@[i].code@, gas_func, grow_idx) == Some(m.code@[i].code@));
        assert(m.exports@.len() == m0.exports@.len());
        assert(m.elements@.len() == m0.elements@.len());
        if has_forbidden(m0, *rules) {
            let (i, k) = choose|i: int, k: int|
                0 <= i < m0.code@.len() && 0 <= k < m0.code@[i].code@.len() && rules.cost(
                    #[trigger] m0.code@[i].code@[k],
                ) is None;
            lemma_forbidden_has_no_blocks(*rules, m0.code@[i].code@, k);
            assert(gas_code(*rules, m0.code@[i].code@, gas_func, grow_idx) == Some(m.code@[i].code@));
            assert(false);
        }
        if grow_cost > 0 {
            assert(m.functions@ == m0.functions@.push((nt + 1) as u32));
            assert(m.code@.last().code@ == grow_counter_code(rules.spec_grow(), gas_func));
        }
    }
    Ok(m)
}

/// Whether every function index that `m` holds names a function of its
/// combined index space.
pub fn function_indices_valid(m: &Module) -> (r: bool)
    requires
        m.imports@.len() <= u32::MAX,
    ensures
        r == func_refs_below(*m, functions_space(*m)),
{
    proof {
        crate::elements::lemma_func_imports_bounded(m.imports@, m.imports@.len() as int);
    }
    let fs: u128 = func_import_count_of(m) as u128 + m.functions.len() as u128;
    let ghost bound = functions_space(*m);
    let mut i: usize = 0;
    while i < m.code.len()
        invariant
            fs == bound,
            bound == functions_space(*m),
            i <= m.code@.len(),
            forall|j: int| 0 <= j < i ==> calls_below(#[trigger] m.code@[j].code@, bound),
        decreases m.code@.len() - i,
    {
        let code = &m.code[i].code;
        let mut k: usize = 0;
        while k < code.len()
            invariant
                fs == bound,
                bound == functions_space(*m),
                i < m.code@.len(),
                code@ == m.code@[i as int].code@,
                k <= code@.len(),
                forall|q: int| 0 <= q < k ==> (#[trigger] code@[q] matches Instruction::Call(x) ==> x < bound),
            decreases code@.len() - k,
        {
            if let Instruction::Call(x) = code[k] {
                if x as u128 >= fs {
                    proof {
                        assert(code@[k as int] matches Instruction::Call(y) && y >= bound);
                        assert(!calls_below(m.code@[i as int].code@, bound));
                        assert(!func_refs_below(*m, bound));
                    }
                    return false;
                }
            }
            k = k + 1;
        }
        i = i + 1;
    }
    let mut i: usize = 0;
    while i < m.exports.len()
        invariant
            fs == bound,
            bound == functions_space(*m),
            i <= m.exports@.len(),
            forall|j: int| 0 <= j < m.code@.len() ==> calls_below(#[trigger] m.code@[j].code@, bound),
            forall|j: int| 0 <= j < i ==> (#[trigger] m.exports@[j].internal matches Internal::Function(x) ==> x < bound),
        decreases m.exports@.len() - i,
    {
        if let Internal::Function(x) = m.exports[i].internal {
            if x as u128 >= fs {
                return false;
            }
        }
        i = i + 1;
    }
    let mut i: usize = 0;
    while i < m.elements.len()
        invariant
            fs == bound,
            bound == functions_space(*m),
            i <= m.elements@.len(),
            forall|j: int| 0 <= j < m.code@.len() ==> calls_below(#[trigger] m.code@[j].code@, bound),
            forall|j: int| 0 <= j < m.exports@.len() ==> (#[trigger] m.exports@[j].internal matches Internal::Function(x) ==> x < bound),
            forall|j: int, q: int| 0 <= j < i && 0 <= q < m.elements@[j].members@.len() ==> #[trigger] m.elements@[j].members@[q] < bound,
        decreases m.elements@.len() - i,
    {
        let members = &m.elements[i].members;
        let mut k: usize = 0;
        while k < members.len()
            invariant
                fs == bound,
                bound == functions_space(*m),
                i < m.elements@.len(),
                k <= members@.len(),
                members@ == m.elements@[i as int].members@,
                forall|q: int| 0 <= q < k ==> #[trigger] members@[q] < bound,
            decreases members@.len() - k,
        {
            if members[k] as u128 >= fs {
                proof {
                    assert(m.elements@[i as int].members@[k as int] >= bound);
                    assert(!func_refs_below(*m, bound));
                }
                return false;
            }
            k = k + 1;
        }
        i = i + 1;
    }
    match m.start {
        Some(x) => (x as u128) < fs,
        None => true,
    }
}

/// Where instruction `j` of `code` lands in `meter(code, blocks, gas, i, b)`.
pub open spec fn meter_pos(code: Seq<Instruction>, blocks: Seq<BlockEntry>, i: int, b: int, j: int) -> int
    decreases code.len() - i,
{
    if i >= code.len() || j < i {
        0
    } else {
        let starts = 0 <= b < blocks.len() && blocks[b].start_pos == i;
        if j == i {
            if starts {
                2
            } else {
                0
            }
        } else if starts {
            3 + meter_pos(code, blocks, i + 1, b + 1, j)
        } else {
            1 + meter_pos(code, blocks, i + 1, b, j)
        }
    }
}

proof fn lemma_meter_layout(code: Seq<Instruction>, blocks: Seq<BlockEntry>, gas: u32, i: int, b: int)
    requires
        0 <= i <= code.len(),
        0 <= b,
        meter(code, blocks, gas, i, b) is Some,
    ensures
        ({
            let out = meter(code, blocks, gas, i, b)->Some_0;
            &&& forall|j: int|
                i <= j < code.len() ==> 0 <= #[trigger] meter_pos(code, blocks, i, b, j) < out.len()
                    && out[meter_pos(code, blocks, i, b, j)] == code[j]
            &&& forall|j1: int, j2: int|
                i <= j1 < j2 < code.len() ==> #[trigger] meter_pos(code, blocks, i, b, j1)
                    < #[trigger] meter_pos(code, blocks, i, b, j2)
            &&& forall|k: int|
                b <= k < blocks.len() ==> {
                    let p = meter_pos(code, blocks, i, b, (#[trigger] blocks[k]).start_pos as int);
                    &&& i <= blocks[k].start_pos < code.len()
                    &&& p >= 2
                    &&& out[p - 1] == Instruction::Call(gas)
                    &&& out[p - 2] == Instruction::I32Const(blocks[k].cost as i32)
                }
        }),
    decreases code.len() - i,
{
    if i < code.len() {
        let starts = 0 <= b < blocks.len() && blocks[b].start_pos == i;
        let nb = if starts { b + 1 } else { b };
        lemma_meter_layout(code, blocks, gas, i + 1, nb);
        let rest = meter(code, blocks, gas, i + 1, nb)->Some_0;
        let out = meter(code, blocks, gas, i, b)->Some_0;
        let head: Seq<Instruction> = if starts {
            seq![Instruction::I32Const(blocks[b].cost as i32), Instruction::Call(gas), code[i]]
        } else {
            seq![code[i]]
        };
        assert(out == head + rest);
        assert forall|j: int|
            i <= j < code.len() implies 0 <= #[trigger] meter_pos(code, blocks, i, b, j) < out.len()
                && out[meter_pos(code, blocks, i, b, j)] == code[j] by {
            if j > i {
                let q = meter_pos(code, blocks, i + 1, nb, j);
                assert(0 <= q < rest.len() && rest[q] == code[j]);
                assert(meter_pos(code, blocks, i, b, j) == head.len() + q);
                assert(out[head.len() + q] == rest[q]);
            } else {
                assert(meter_pos(code, blocks, i, b, j) == head.len() - 1);
                assert(out[head.len() - 1] == head[head.len() - 1]);
            }
        }
        assert forall|j1: int, j2: int|
            i <= j1 < j2 < code.len() implies #[trigger] meter_pos(code, blocks, i, b, j1)
                < #[trigger] meter_pos(code, blocks, i, b, j2) by {
            if j1 > i {
                assert(meter_pos(code, blocks, i + 1, nb, j1) < meter_pos(code, blocks, i + 1, nb, j2));
            } else {
                assert(meter_pos(code, blocks, i + 1, nb, j2) >= 0);
            }
        }
        assert forall|k: int| b <= k < blocks.len() implies {
            let p = meter_pos(code, blocks, i, b, (#[trigger] blocks[k]).start_pos as int);
            &&& i <= blocks[k].start_pos < code.len()
            &&& p >= 2
            &&& out[p - 1] == Instruction::Call(gas)
            &&& out[p - 2] == Instruction::I32Const(blocks[k].cost as i32)
        } by {
            if !(starts && k == b) {
                let _ = blocks[k];
                assert(i + 1 <= blocks[k].start_pos);
            }
        }
    } else {
        assert(b >= blocks.len());
    }
}

/// The metered form of a body keeps every instruction of the body, with
/// calls renumbered, in order; and where a block starts, the two instructions
/// before it are `i32.const` of the block's cost and a call of the gas
/// function.
pub proof fn lemma_gas_layout(rules: RuleSet, code: Seq<Instruction>, gas: u32)
    requires
        gas_code(rules, code, gas, None) is Some,
    ensures
        ({
            let out = gas_code(rules, code, gas, None)->Some_0;
            let blocks = block_costs(rules, code)->Some_0;
            let shifted = shift_calls(code, gas);
            let pos = |j: int| meter_pos(shifted, blocks, 0, 0, j);
            &&& forall|j: int| 0 <= j < code.len() ==> 0 <= #[trigger] pos(j) < out.len() && out[pos(j)] == shift_call(code[j], gas)
            &&& forall|j1: int, j2: int| 0 <= j1 < j2 < code.len() ==> #[trigger] pos(j1) < #[trigger] pos(j2)
            &&& forall|k: int|
                0 <= k < blocks.len() ==> {
                    let p = pos((#[trigger] blocks[k]).start_pos as int);
                    &&& blocks[k].start_pos < code.len()
                    &&& p >= 2
                    &&& out[p - 1] == Instruction::Call(gas)
                    &&& out[p - 2] == Instruction::I32Const(blocks[k].cost as i32)
                }
        }),
{
    let blocks = block_costs(rules, code)->Some_0;
    let shifted = shift_calls(code, gas);
    lemma_meter_layout(shifted, blocks, gas, 0, 0);
}

/// Whether `i` starts a new block after it: `block`, `loop`, `if` or `else`.
pub open spec fn starts_block(i: Instruction) -> bool {
    opens_block(i) || i is Else
}

/// Number of instructions among the first `n` of `code` that start a block.
pub open spec fn block_openers(code: Seq<Instruction>, n: int) -> nat
    decreases n,
{
    if n <= 0 {
        0
    } else {
        block_openers(code, n - 1) + if starts_block(code[n - 1]) {
            1nat
        } else {
            0nat
        }
    }
}

proof fn lemma_count_blocks_starts(rules: RuleSet, code: Seq<Instruction>, n: nat)
    requires
        n <= code.len() <= u32::MAX,
        count_blocks(rules, code, n) is Some,
    ensures
        ({
            let (blocks, stack) = count_blocks(rules, code, n)->Some_0;
            &&& blocks.len() == 1 + block_openers(code, n as int)
            &&& blocks[0].start_pos == 0
            &&& forall|k: int| 0 <= k < stack.len() ==> #[trigger] stack[k] < blocks.len()
            &&& forall|q: int|
                0 <= q < n && starts_block(#[trigger] code[q]) ==> blocks[1 + block_openers(code, q) as int].start_pos == q + 1
        }),
    decreases n,
{
    if n > 0 {
        lemma_count_blocks_starts(rules, code, (n - 1) as nat);
        let (bl, st) = count_blocks(rules, code, (n - 1) as nat)->Some_0;
        let c = n - 1;
        let ins = code[c as int];
        let (nb, ns) = count_blocks(rules, code, n)->Some_0;
        let newb = BlockEntry { start_pos: (c + 1) as usize, cost: 1 };
        assert(nb.len() == bl.len() + if starts_block(ins) { 1int } else { 0int }
            && (forall|k: int| 0 <= k < bl.len() ==> (#[trigger] nb[k]).start_pos == bl[k].start_pos)
            && (starts_block(ins) ==> nb[bl.len() as int].start_pos == c + 1)
            && (forall|k: int| 0 <= k < ns.len() ==> #[trigger] ns[k] < nb.len())) by {
            if ins is End {
                assert(nb == bl);
                assert(ns == st.drop_last());
            } else if ins is Else {
                assert(nb == bl.push(newb));
                assert(ns == st.drop_last().push(bl.len() as usize));
                assert forall|k: int| 0 <= k < ns.len() implies #[trigger] ns[k] < nb.len() by {
                    if k < ns.len() - 1 {
                        assert(ns[k] == st[k]);
                    }
                }
            } else {
                let v = rules.cost(ins)->Some_0;
                let top = st.last() as int;
                assert(st.len() > 0);
                assert(0 <= top < bl.len());
                let b2 = add_cost(bl, st, v)->Some_0;
                assert(b2.len() == bl.len());
                assert(forall|k: int| 0 <= k < bl.len() ==> (#[trigger] b2[k]).start_pos == bl[k].start_pos);
                if opens_block(ins) {
                    assert(nb == b2.push(newb));
                    assert(ns == st.push(b2.len() as usize));
                    assert forall|k: int| 0 <= k < ns.len() implies #[trigger] ns[k] < nb.len() by {
                        if k < ns.len() - 1 {
                            assert(ns[k] == st[k]);
                        }
                    }
                } else {
                    assert(nb == b2);
                    assert(ns == st);
                }
            }
        }
        assert forall|q: int|
            0 <= q < n && starts_block(#[trigger] code[q]) implies nb[1 + block_openers(code, q) as int].start_pos == q + 1 by {
            if q < c {
                lemma_block_openers_mono(code, q + 1, c as int);
            }
        }
    }
}

proof fn lemma_block_openers_mono(code: Seq<Instruction>, a: int, b: int)
    requires
        a <= b,
    ensures
        block_openers(code, a) <= block_openers(code, b),
    decreases b - a,
{
    if a < b {
        lemma_block_openers_mono(code, a, b - 1);
    }
}

proof fn lemma_meter_len(code: Seq<Instruction>, blocks: Seq<BlockEntry>, gas: u32, i: int, b: int)
    requires
        0 <= i <= code.len(),
        0 <= b <= blocks.len(),
        meter(code, blocks, gas, i, b) is Some,
    ensures
        meter(code, blocks, gas, i, b)->Some_0.len() == (code.len() - i) + 2 * (blocks.len() - b),
    decreases code.len() - i,
{
    if i < code.len() {
        if 0 <= b < blocks.len() && blocks[b].start_pos == i {
            lemma_meter_len(code, blocks, gas, i + 1, b + 1);
        } else {
            lemma_meter_len(code, blocks, gas, i + 1, b);
        }
    }
}

/// Metering a body only adds, for the body and for each `block`, `loop`,
/// `if` and `else`, one `i32.const cost; call gas` pair; the pair of the
/// body comes first, and the pair of each nested block stands right after
/// the instruction that opens it.
pub proof fn lemma_gas_additions(rules: RuleSet, code: Seq<Instruction>, gas: u32)
    requires
        code.len() <= u32::MAX,
        gas_code(rules, code, gas, None) is Some,
    ensures
        ({
            let out = gas_code(rules, code, gas, None)->Some_0;
            let blocks = block_costs(rules, code)->Some_0;
            let pos = |j: int| meter_pos(shift_calls(code, gas), blocks, 0, 0, j);
            &&& out.len() == code.len() + 2 * (1 + block_openers(code, code.len() as int))
            &&& code.len() > 0 ==> pos(0) == 2 && out[0] == Instruction::I32Const(blocks[0].cost as i32)
                && out[1] == Instruction::Call(gas)
            &&& forall|q: int|
                0 <= q < code.len() - 1 && starts_block(#[trigger] code[q]) ==> {
                    let p = pos(q + 1);
                    &&& out[p - 1] == Instruction::Call(gas)
                    &&& out[p - 2] == Instruction::I32Const(blocks[1 + block_openers(code, q) as int].cost as i32)
                }
        }),
{
    let blocks = block_costs(rules, code)->Some_0;
    let shifted = shift_calls(code, gas);
    lemma_count_blocks_starts(rules, code, code.len());
    lemma_meter_len(shifted, blocks, gas, 0, 0);
    lemma_meter_layout(shifted, blocks, gas, 0, 0);
    if code.len() > 0 {
        let _ = blocks[0];
        assert(meter_pos(shifted, blocks, 0, 0, 0) == 2);
    }
    assert forall|q: int|
        0 <= q < code.len() - 1 && starts_block(#[trigger] code[q]) implies {
            let p = meter_pos(shifted, blocks, 0, 0, q + 1);
            &&& gas_code(rules, code, gas, None)->Some_0[p - 1] == Instruction::Call(gas)
            &&& gas_code(rules, code, gas, None)->Some_0[p - 2] == Instruction::I32Const(blocks[1 + block_openers(code, q) as int].cost as i32)
        } by {
        lemma_block_openers_mono(code, q + 1, code.len() as int);
        assert(block_openers(code, q + 1) == block_openers(code, q) + 1);
        let _ = blocks[1 + block_openers(code, q) as int];
    }
}

} // verus!
