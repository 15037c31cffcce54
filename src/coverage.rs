//! Coverage instrumentation: each basic block, marked by its call of the gas
//! function, also sets one bit of a bitmap in memory, so that which blocks ran
//! can be read back afterwards.
use vstd::prelude::*;

use crate::elements::{reversed, External, FuncBody, ImportEntry, Instruction, Limits, Module};

verus! {

/// Size of a memory page.
pub const PAGE_SIZE: u32 = 65536;

/// Opcode of `i32.load8_u`.
pub const I32_LOAD8_U: u8 = 0x2d;

/// Opcode of `i32.store8`.
pub const I32_STORE8: u8 = 0x3a;

/// Opcode of `i32.or`.
pub const I32_OR: u8 = 0x72;

/// The bitmap read back after a run, with what instrumentation recorded.
pub struct Coverage {
    bitmap: Vec<u8>,
    info: Info,
}

/// Where the bitmap lies in memory, and the blocks of each function.
pub struct Info {
    bitmap_location: std::ops::Range<u32>,
    functions: Vec<Function>,
}

/// The blocks of one function, and where its bits start in the bitmap.
pub struct Function {
    pub num_locals: u32,
    pub basic_blocks: Vec<BasicBlock>,
    bitmap_offset: u32,
}

pub struct BasicBlock {
    pub num_instructions: u32,
}

/// Counts over the functions and blocks of a run.
#[derive(Default, Debug)]
pub struct Statistic {
    pub num_functions: u32,
    pub num_locals: u32,
    pub num_basic_blocks: u32,
    pub min_basic_block_size: u32,
    pub max_basic_block_size: u32,
    pub median_basic_block_size: u32,
    pub num_instructions: u32,
    pub used_functions: u32,
    pub used_locals: u32,
    pub used_basic_blocks: u32,
    pub used_instructions: u32,
}

impl Function {
    pub closed spec fn spec_bitmap_offset(&self) -> u32 {
        self.bitmap_offset
    }

    pub closed spec fn spec_num_locals(&self) -> u32 {
        self.num_locals
    }

    pub closed spec fn spec_blocks(&self) -> Seq<BasicBlock> {
        self.basic_blocks@
    }
}

impl Info {
    pub closed spec fn spec_start(&self) -> u32 {
        self.bitmap_location.start
    }

    pub closed spec fn spec_end(&self) -> u32 {
        self.bitmap_location.end
    }

    pub closed spec fn spec_functions(&self) -> Seq<Function> {
        self.functions@
    }

    /// Number of bytes of the bitmap.
    pub open spec fn spec_len(&self) -> nat {
        if self.spec_end() >= self.spec_start() {
            (self.spec_end() - self.spec_start()) as nat
        } else {
            0
        }
    }

    pub fn bitmap_location(&self) -> (r: &std::ops::Range<u32>)
        ensures
            r.start == self.spec_start(),
            r.end == self.spec_end(),
    {
        &self.bitmap_location
    }

    pub fn functions(&self) -> (r: &[Function])
        ensures
            r@ == self.spec_functions(),
    {
        self.functions.as_slice()
    }
}

/// Whether bit `block` of function `f` is set in `bitmap`.
pub open spec fn bit_set(bitmap: Seq<u8>, f: Function, block: u32) -> bool {
    bitmap[f.spec_bitmap_offset() + block / 8] & (1u8 << ((block % 8) as u8)) != 0
}

impl Coverage {
    pub closed spec fn spec_bitmap(&self) -> Seq<u8> {
        self.bitmap@
    }

    pub closed spec fn spec_info(&self) -> &Info {
        &self.info
    }

    /// Pairs a bitmap read back from memory with the instrumentation's record.
    pub fn new(info: Info, bitmap: Vec<u8>) -> (r: Result<Self, &'static str>)
        ensures
            bitmap@.len() == info.spec_len() <==> r is Ok,
            r matches Ok(c) ==> c.spec_bitmap() == bitmap@ && c.spec_info() == info,
            r matches Err(e) ==> e == "Bitmap has the wrong size.",
    {
        let len: usize = if info.bitmap_location.end >= info.bitmap_location.start {
            (info.bitmap_location.end - info.bitmap_location.start) as usize
        } else {
            0
        };
        if bitmap.len() != len {
            return Err("Bitmap has the wrong size.");
        }
        Ok(Self { bitmap, info })
    }

    pub fn info(&self) -> (r: &Info)
        ensures
            r == self.spec_info(),
    {
        &self.info
    }

    /// Whether block `block` of `func` ran.
    pub fn block_was_used(&self, func: &Function, block: u32) -> (r: bool)
        requires
            func.spec_bitmap_offset() + block / 8 < self.spec_bitmap().len(),
        ensures
            r == bit_set(self.spec_bitmap(), *func, block),
    {
        let n = self.bitmap.len();
        let idx = func.bitmap_offset as usize + (block / 8) as usize;
        self.bitmap[idx] & (1u8 << ((block % 8) as u8)) != 0
    }
}

/// The instructions that set bit `k` of the bitmap that starts at `start`.
pub open spec fn marker(start: u32, k: u32) -> Seq<Instruction> {
    let offset = (start + k / 8) as u32;
    seq![
        Instruction::I32Const(0),
        Instruction::I32Const(0),
        Instruction::Load(I32_LOAD8_U, 0, offset),
        Instruction::I32Const((1u32 << ((k % 8) as u32)) as i32),
        Instruction::Numeric(I32_OR),
        Instruction::Store(I32_STORE8, 0, offset),
    ]
}

pub open spec fn is_gas_call(i: Instruction, gas: u32) -> bool {
    i == Instruction::Call(gas)
}

/// Number of gas calls among the first `n` instructions.
pub open spec fn gas_calls(code: Seq<Instruction>, gas: u32, n: int) -> nat
    decreases n,
{
    if n <= 0 {
        0
    } else {
        gas_calls(code, gas, n - 1) + if is_gas_call(code[n - 1], gas) {
            1nat
        } else {
            0nat
        }
    }
}

/// The first `n` instructions with a marker after each gas call.
pub open spec fn marked_code(code: Seq<Instruction>, gas: u32, start: u32, n: int) -> Seq<Instruction>
    decreases n,
{
    if n <= 0 {
        Seq::empty()
    } else {
        let prev = marked_code(code, gas, start, n - 1) + seq![code[n - 1]];
        if is_gas_call(code[n - 1], gas) {
            prev + marker(start, gas_calls(code, gas, n - 1) as u32)
        } else {
            prev
        }
    }
}

/// Where blocks start among the first `n` instructions: 0, then the
/// position before each gas call (the constant that the call charges).
pub open spec fn block_starts(code: Seq<Instruction>, gas: u32, n: int) -> Seq<nat>
    decreases n,
{
    if n <= 0 {
        seq![0nat]
    } else {
        let prev = block_starts(code, gas, n - 1);
        if is_gas_call(code[n - 1], gas) && n - 1 >= 1 {
            prev.push((n - 2) as nat)
        } else {
            prev
        }
    }
}

/// The sizes of the non-empty spans between consecutive positions.
pub open spec fn span_sizes(starts: Seq<nat>, n: int) -> Seq<u32>
    decreases n,
{
    if n <= 1 || n > starts.len() {
        Seq::empty()
    } else {
        let prev = span_sizes(starts, n - 1);
        if starts[n - 1] > starts[n - 2] {
            prev.push((starts[n - 1] - starts[n - 2]) as u32)
        } else {
            prev
        }
    }
}

/// The basic block sizes of a body of `code`.
pub open spec fn block_sizes(code: Seq<Instruction>, gas: u32) -> Seq<u32> {
    let starts = block_starts(code, gas, code.len() as int).push(code.len());
    span_sizes(starts, starts.len() as int)
}

pub open spec fn rounded_len(n: nat) -> nat {
    n / 8 + if n % 8 == 0 {
        0nat
    } else {
        1nat
    }
}

proof fn lemma_gas_calls_bound(code: Seq<Instruction>, gas: u32, n: int)
    requires
        0 <= n <= code.len(),
    ensures
        gas_calls(code, gas, n) <= n,
    decreases n,
{
    if n > 0 {
        lemma_gas_calls_bound(code, gas, n - 1);
    }
}

proof fn lemma_block_starts(code: Seq<Instruction>, gas: u32, n: int)
    requires
        0 <= n <= code.len(),
    ensures
        block_starts(code, gas, n).len() >= 1,
        block_starts(code, gas, n).len() <= n + 1,
        forall|j: int|
            0 <= j < block_starts(code, gas, n).len() ==> #[trigger] block_starts(code, gas, n)[j] <= n,
    decreases n,
{
    if n > 0 {
        lemma_block_starts(code, gas, n - 1);
    }
}

/// Inserts a marker after each gas call of `code`; returns the new body and
/// the sizes of its basic blocks, and moves `start_offset` past their bits.
fn inject_coverage_code(code: Vec<Instruction>, start_offset: &mut u32, gas_func: u32) -> (r: (
    Vec<Instruction>,
    Vec<BasicBlock>,
))
    requires
        *old(start_offset) as nat + code@.len() / 8 + 2 <= u32::MAX,
        code@.len() < u32::MAX,
    ensures
        r.0@ == marked_code(code@, gas_func, *old(start_offset), code@.len() as int),
        r.1@.len() == block_sizes(code@, gas_func).len(),
        forall|j: int| 0 <= j < r.1@.len() ==> (#[trigger] r.1@[j]).num_instructions == block_sizes(code@, gas_func)[j],
        *final(start_offset) == *old(start_offset) + rounded_len(r.1@.len()),
{
    let ghost orig = code@;
    let start = *start_offset;
    let n = code.len();
    let mut rev = reversed(code);
    let mut out: Vec<Instruction> = Vec::new();
    let mut starts: Vec<usize> = vec![0];
    let mut block_idx: u32 = 0;
    let mut pos: usize = 0;
    proof {
        assert(starts@.map_values(|x: usize| x as nat) =~= block_starts(orig, gas_func, 0));
    }
    while pos < n
        invariant
            n == orig.len(),
            n < u32::MAX,
            start as nat + n / 8 + 2 <= u32::MAX,
            pos <= n,
            rev@.len() == n - pos,
            forall|j: int| 0 <= j < rev@.len() ==> rev@[j] == orig[n - 1 - j],
            block_idx == gas_calls(orig, gas_func, pos as int),
            out@ == marked_code(orig, gas_func, start, pos as int),
            starts@.map_values(|x: usize| x as nat) == block_starts(orig, gas_func, pos as int),
        decreases n - pos,
    {
        let ins = rev.pop().unwrap();
        proof {
            lemma_gas_calls_bound(orig, gas_func, pos as int);
        }
        let is_gas = match ins {
            Instruction::Call(idx) => idx == gas_func,
            _ => false,
        };
        out.push(ins);
        if is_gas {
            let offset = start + block_idx / 8;
            let value = (1u32 << (block_idx % 8)) as i32;
            let ghost before = out@;
            out.push(Instruction::I32Const(0));
            out.push(Instruction::I32Const(0));
            out.push(Instruction::Load(I32_LOAD8_U, 0, offset));
            out.push(Instruction::I32Const(value));
            out.push(Instruction::Numeric(I32_OR));
            out.push(Instruction::Store(I32_STORE8, 0, offset));
            proof {
                assert(out@ =~= before + marker(start, block_idx));
            }
            block_idx = block_idx + 1;
            if pos >= 1 {
                let ghost s0 = starts@.map_values(|x: usize| x as nat);
                starts.push(pos - 1);
                proof {
                    assert(starts@.map_values(|x: usize| x as nat) =~= s0.push((pos - 1) as nat));
                }
            }
        }
        pos = pos + 1;
    }
    let ghost s0 = starts@.map_values(|x: usize| x as nat);
    starts.push(n);
    let ghost all = starts@.map_values(|x: usize| x as nat);
    proof {
        assert(all =~= s0.push(n as nat));
        lemma_block_starts(orig, gas_func, n as int);
        assert forall|j: int| 0 <= j < starts@.len() implies starts@[j] <= n by {
            assert(all[j] == starts@[j] as nat);
            if j < starts@.len() - 1 {
                assert(all[j] == s0[j]);
            }
        }
    }
    let mut blocks: Vec<BasicBlock> = Vec::new();
    let mut w: usize = 1;
    while w < starts.len()
        invariant
            1 <= w <= starts@.len(),
            all == starts@.map_values(|x: usize| x as nat),
            forall|j: int| 0 <= j < starts@.len() ==> starts@[j] <= n,
            n < u32::MAX,
            blocks@.len() == span_sizes(all, w as int).len(),
            forall|j: int| 0 <= j < blocks@.len() ==> (#[trigger] blocks@[j]).num_instructions == span_sizes(all, w as int)[j],
        decreases starts@.len() - w,
    {
        if starts[w] > starts[w - 1] {
            blocks.push(BasicBlock { num_instructions: (starts[w] - starts[w - 1]) as u32 });
        }
        w = w + 1;
    }
    let nb = blocks.len() as u32;
    proof {
        assert(blocks@.len() <= n + 1) by {
            lemma_span_sizes_len(all, w as int);
        }
    }
    *start_offset = start + nb / 8 + if nb % 8 == 0 { 0 } else { 1 };
    (out, blocks)
}

proof fn lemma_span_sizes_len(starts: Seq<nat>, n: int)
    requires
        1 <= n <= starts.len(),
    ensures
        span_sizes(starts, n).len() <= n - 1,
    decreases n,
{
    if n > 1 {
        lemma_span_sizes_len(starts, n - 1);
    }
}

/// Index among the function imports of the first function import named
/// `module.field`, scanning from position `i` with `count` passed.
pub open spec fn find_import(imports: Seq<ImportEntry>, module: Seq<char>, field: Seq<char>, i: int, count: nat) -> Option<nat>
    decreases imports.len() - i,
{
    if i < 0 || i >= imports.len() {
        None
    } else if imports[i].external is Function {
        if imports[i].module@ == module && imports[i].field@ == field {
            Some(count)
        } else {
            find_import(imports, module, field, i + 1, count + 1)
        }
    } else {
        find_import(imports, module, field, i + 1, count)
    }
}

/// Position of the first memory import.
pub open spec fn first_memory(imports: Seq<ImportEntry>, i: int) -> Option<nat>
    decreases imports.len() - i,
{
    if i < 0 || i >= imports.len() {
        None
    } else if imports[i].external is Memory {
        Some(i as nat)
    } else {
        first_memory(imports, i + 1)
    }
}

/// Where the bits of function `i` start: after those of the functions before it.
pub open spec fn coverage_offset(code: Seq<FuncBody>, gas: u32, start: nat, i: int) -> nat
    decreases i,
{
    if i <= 0 {
        start
    } else {
        coverage_offset(code, gas, start, i - 1) + rounded_len(block_sizes(code[i - 1].code@, gas).len())
    }
}

proof fn lemma_block_sizes_len(code: Seq<Instruction>, gas: u32)
    ensures
        block_sizes(code, gas).len() <= code.len() + 1,
{
    lemma_block_starts(code, gas, code.len() as int);
    let starts = block_starts(code, gas, code.len() as int).push(code.len());
    lemma_span_sizes_len(starts, starts.len() as int);
}

fn find_import_of(imports: &Vec<ImportEntry>, module: &String, field: &String) -> (r: Option<u32>)
    requires
        imports@.len() <= u32::MAX,
    ensures
        match r {
            Some(k) => find_import(imports@, module@, field@, 0, 0) == Some(k as nat),
            None => find_import(imports@, module@, field@, 0, 0) is None,
        },
{
    let mut i: usize = 0;
    let mut count: u32 = 0;
    while i < imports.len()
        invariant
            i <= imports@.len() <= u32::MAX,
            count <= i,
            find_import(imports@, module@, field@, 0, 0) == find_import(imports@, module@, field@, i as int, count as nat),
        decreases imports@.len() - i,
    {
        if let External::Function(_) = imports[i].external {
            if imports[i].module == *module && imports[i].field == *field {
                return Some(count);
            }
            count = count + 1;
        }
        i = i + 1;
    }
    None
}

fn first_memory_of(imports: &Vec<ImportEntry>) -> (r: Option<usize>)
    ensures
        match r {
            Some(p) => first_memory(imports@, 0) == Some(p as nat) && p < imports@.len(),
            None => first_memory(imports@, 0) is None,
        },
{
    let mut i: usize = 0;
    while i < imports.len()
        invariant
            i <= imports@.len(),
            first_memory(imports@, 0) == first_memory(imports@, i as int),
        decreases imports@.len() - i,
    {
        if let External::Memory(_) = imports[i].external {
            return Some(i);
        }
        i = i + 1;
    }
    None
}

/// Makes every basic block of `module` (each starts with a call of the gas
/// import `gas_import`) set its bit in a bitmap placed in a new page of
/// memory, and returns where the bitmap is and the blocks of each function.
pub fn instrument(module: &mut Module, gas_import: (&String, &String)) -> (r: Result<Info, &'static str>)
    requires
        old(module).imports@.len() < u32::MAX,
        forall|i: int| 0 <= i < old(module).code@.len() ==> (#[trigger] old(module).code@[i]).locals@.len() <= u32::MAX
            && old(module).code@[i].code@.len() < u32::MAX,
    ensures
        old(module).imports@.len() == 0 ==> r == Err::<Info, &'static str>("Valid contracts should have an import section."),
        old(module).imports@.len() > 0 && find_import(old(module).imports@, gas_import.0@, gas_import.1@, 0, 0) is None
            ==> r == Err::<Info, &'static str>("Coverage requires the gas import as basic block marker"),
        r is Err && old(module).imports@.len() > 0 && find_import(old(module).imports@, gas_import.0@, gas_import.1@, 0, 0) is None
            ==> *final(module) == *old(module),
        r matches Ok(info) ==> ({
            let m = *old(module);
            let gas = find_import(m.imports@, gas_import.0@, gas_import.1@, 0, 0)->Some_0 as u32;
            let page: nat = match first_memory(m.imports@, 0) {
                Some(p) => m.imports@[p as int].external->Memory_0.initial as nat,
                None => 0,
            };
            let start = (page * PAGE_SIZE) as nat;
            &&& info.spec_start() == start
            &&& info.spec_end() == coverage_offset(m.code@, gas, start, m.code@.len() as int)
            &&& info.spec_len() <= PAGE_SIZE
            &&& info.spec_functions().len() == m.code@.len()
            &&& final(module).code@.len() == m.code@.len()
            &&& forall|i: int|
                0 <= i < m.code@.len() ==> {
                    let f = #[trigger] info.spec_functions()[i];
                    &&& f.spec_bitmap_offset() == coverage_offset(m.code@, gas, start, i) - start
                    &&& f.spec_num_locals() == m.code@[i].locals@.len()
                    &&& f.spec_blocks().len() == block_sizes(m.code@[i].code@, gas).len()
                    &&& forall|j: int|
                        0 <= j < f.spec_blocks().len() ==> (#[trigger] f.spec_blocks()[j]).num_instructions
                            == block_sizes(m.code@[i].code@, gas)[j]
                    &&& final(module).code@[i].locals == m.code@[i].locals
                    &&& final(module).code@[i].code@ == marked_code(
                        m.code@[i].code@,
                        gas,
                        coverage_offset(m.code@, gas, start, i) as u32,
                        m.code@[i].code@.len() as int,
                    )
                }
            &&& match first_memory(m.imports@, 0) {
                Some(p) => {
                    let old_limits = m.imports@[p as int].external->Memory_0;
                    &&& final(module).imports@.len() == m.imports@.len()
                    &&& final(module).imports@[p as int].external == External::Memory(
                        Limits {
                            initial: (old_limits.initial + 1) as u32,
                            maximum: match old_limits.maximum {
                                Some(mx) => Some(if mx >= old_limits.initial + 2 { mx } else { (old_limits.initial + 2) as u32 }),
                                None => None,
                            },
                        },
                    )
                    &&& final(module).imports@[p as int].module == m.imports@[p as int].module
                    &&& final(module).imports@[p as int].field == m.imports@[p as int].field
                    &&& forall|q: int| 0 <= q < m.imports@.len() && q != p ==> #[trigger] final(module).imports@[q] == m.imports@[q]
                }
                None => {
                    &&& final(module).imports@.drop_last() == m.imports@
                    &&& final(module).imports@.last().module@ == "env"@
                    &&& final(module).imports@.last().field@ == "memory"@
                    &&& final(module).imports@.last().external == External::Memory(Limits { initial: 1, maximum: Some(1) })
                }
            }
        }),
{
    if module.imports.len() == 0 {
        return Err("Valid contracts should have an import section.");
    }
    let gas_func = match find_import_of(&module.imports, gas_import.0, gas_import.1) {
        Some(g) => g,
        None => return Err("Coverage requires the gas import as basic block marker"),
    };
    let ghost m0 = *module;
    let page: u32 = match first_memory_of(&module.imports) {
        Some(p) => {
            let limits = match module.imports[p].external {
                External::Memory(l) => l,
                _ => return Err("Coverage requires the gas import as basic block marker"),
            };
            if limits.initial >= u32::MAX - 1 {
                return Err("Coverage information does not fit into a single page");
            }
            let new_initial = limits.initial + 1;
            let new_max = match limits.maximum {
                Some(mx) => Some(if mx >= new_initial + 1 { mx } else { new_initial + 1 }),
                None => None,
            };
            let mut imports: Vec<ImportEntry> = Vec::new();
            std::mem::swap(&mut imports, &mut module.imports);
            let n = imports.len();
            let mut rev = reversed(imports);
            let mut out: Vec<ImportEntry> = Vec::new();
            let mut i: usize = 0;
            while i < n
                invariant
                    n == m0.imports@.len(),
                    p < n,
                    i <= n,
                    rev@.len() == n - i,
                    forall|j: int| 0 <= j < rev@.len() ==> rev@[j] == m0.imports@[n - 1 - j],
                    out@.len() == i,
                    forall|j: int| 0 <= j < i && j != p ==> #[trigger] out@[j] == m0.imports@[j],
                    p < i ==> out@[p as int].module == m0.imports@[p as int].module && out@[p as int].field
                        == m0.imports@[p as int].field && out@[p as int].external == External::Memory(
                        Limits { initial: new_initial, maximum: new_max },
                    ),
                decreases n - i,
            {
                let e = rev.pop().unwrap();
                if i == p {
                    out.push(ImportEntry { module: e.module, field: e.field, external: External::Memory(Limits { initial: new_initial, maximum: new_max }) });
                } else {
                    out.push(e);
                }
                i = i + 1;
            }
            module.imports = out;
            limits.initial
        },
        None => {
            module.imports.push(
                ImportEntry {
                    module: "env".to_owned(),
                    field: "memory".to_owned(),
                    external: External::Memory(Limits { initial: 1, maximum: Some(1) }),
                },
            );
            proof {
                assert(module.imports@.drop_last() =~= m0.imports@);
            }
            0
        },
    };
    if page >= 65536 {
        return Err("Coverage information does not fit into a single page");
    }
    let bitmap_start = page * PAGE_SIZE;
    let ghost start = bitmap_start as nat;
    let mut current = bitmap_start;

    let mut bodies: Vec<FuncBody> = Vec::new();
    std::mem::swap(&mut bodies, &mut module.code);
    let n = bodies.len();
    let mut rev = reversed(bodies);
    let mut new_bodies: Vec<FuncBody> = Vec::new();
    let mut functions: Vec<Function> = Vec::new();
    let mut i: usize = 0;
    while i < n
        invariant
            n == m0.code@.len(),
            i <= n,
            m0.imports@.len() > 0,
            m0 == *old(module),
            find_import(m0.imports@, gas_import.0@, gas_import.1@, 0, 0) == Some(gas_func as nat),
            forall|j: int| 0 <= j < m0.code@.len() ==> (#[trigger] m0.code@[j]).locals@.len() <= u32::MAX
                && m0.code@[j].code@.len() < u32::MAX,
            rev@.len() == n - i,
            forall|j: int| 0 <= j < rev@.len() ==> rev@[j] == m0.code@[n - 1 - j],
            bitmap_start == start,
            current == coverage_offset(m0.code@, gas_func, start, i as int),
            new_bodies@.len() == i,
            functions@.len() == i,
            forall|j: int|
                0 <= j < i ==> {
                    let f = #[trigger] functions@[j];
                    &&& f.spec_bitmap_offset() == coverage_offset(m0.code@, gas_func, start, j) - start
                    &&& f.num_locals == m0.code@[j].locals@.len()
                    &&& f.basic_blocks@.len() == block_sizes(m0.code@[j].code@, gas_func).len()
                    &&& forall|q: int|
                        0 <= q < f.basic_blocks@.len() ==> (#[trigger] f.basic_blocks@[q]).num_instructions
                            == block_sizes(m0.code@[j].code@, gas_func)[q]
                    &&& new_bodies@[j].locals == m0.code@[j].locals
                    &&& new_bodies@[j].code@ == marked_code(
                        m0.code@[j].code@,
                        gas_func,
                        coverage_offset(m0.code@, gas_func, start, j) as u32,
                        m0.code@[j].code@.len() as int,
                    )
                },
            forall|j: int| 0 <= j <= i ==> coverage_offset(m0.code@, gas_func, start, j) >= start,
        decreases n - i,
    {
        let body = rev.pop().unwrap();
        let len = body.code.len();
        if (current as u64) + (len / 8) as u64 + 2 > u32::MAX as u64 {
            return Err("Coverage information does not fit into a single page");
        }
        let offset = current;
        let locals = body.locals.len() as u32;
        let ghost src = body.code@;
        proof {
            lemma_block_sizes_len(src, gas_func);
        }
        let (code, blocks) = inject_coverage_code(body.code, &mut current, gas_func);
        functions.push(Function { num_locals: locals, basic_blocks: blocks, bitmap_offset: offset - bitmap_start });
        new_bodies.push(FuncBody { locals: body.locals, code });
        i = i + 1;
    }
    module.code = new_bodies;
    if current - bitmap_start > PAGE_SIZE {
        return Err("Coverage information does not fit into a single page");
    }
    Ok(Info { bitmap_location: std::ops::Range { start: bitmap_start, end: current }, functions })
}

/// Position of the first least item of `s` from `i` on, `best` being the
/// least one before `i`.
pub open spec fn min_pos(s: Seq<u32>, i: int, best: int) -> int
    decreases s.len() - i,
{
    if i >= s.len() || i < 0 {
        best
    } else if s[i] < s[best] {
        min_pos(s, i + 1, i)
    } else {
        min_pos(s, i + 1, best)
    }
}

/// Position of the first least item of `s`.
pub open spec fn argmin(s: Seq<u32>) -> int {
    min_pos(s, 1, 0)
}

/// The `k`-th smallest item of `s` (from 0), or 0 if there is none.
pub open spec fn kth_smallest(s: Seq<u32>, k: nat) -> u32
    decreases k,
{
    if s.len() == 0 {
        0
    } else if k == 0 {
        s[argmin(s)]
    } else {
        kth_smallest(s.remove(argmin(s)), (k - 1) as nat)
    }
}

proof fn lemma_min_pos_bound(s: Seq<u32>, i: int, best: int)
    requires
        0 <= best < s.len(),
        0 <= i,
    ensures
        0 <= min_pos(s, i, best) < s.len(),
    decreases s.len() - i,
{
    if i < s.len() {
        if s[i] < s[best] {
            lemma_min_pos_bound(s, i + 1, i);
        } else {
            lemma_min_pos_bound(s, i + 1, best);
        }
    }
}

fn argmin_of(v: &Vec<u32>) -> (r: usize)
    requires
        v@.len() > 0,
    ensures
        r == argmin(v@),
        r < v@.len(),
{
    let mut best: usize = 0;
    let mut i: usize = 1;
    proof {
        lemma_min_pos_bound(v@, 1, 0);
    }
    while i < v.len()
        invariant
            1 <= i <= v@.len(),
            best < i,
            argmin(v@) == min_pos(v@, i as int, best as int),
        decreases v@.len() - i,
    {
        if v[i] < v[best] {
            best = i;
        }
        i = i + 1;
    }
    best
}

/// The `k`-th smallest item of `v`, or 0 if `v` is empty.
fn kth_of(v: Vec<u32>, k: usize) -> (r: u32)
    requires
        k < v@.len() || v@.len() == 0,
    ensures
        r == kth_smallest(v@, k as nat),
{
    if v.len() == 0 {
        return 0;
    }
    let ghost orig = v@;
    let mut v = v;
    let mut j: usize = 0;
    while j < k
        invariant
            j <= k,
            k - j < v@.len(),
            kth_smallest(orig, k as nat) == kth_smallest(v@, (k - j) as nat),
        decreases k - j,
    {
        let m = argmin_of(&v);
        v.remove(m);
        j = j + 1;
    }
    let m = argmin_of(&v);
    v[m]
}

/// Sizes of the first `n` blocks of `bs`.
pub open spec fn sizes_of(bs: Seq<BasicBlock>, n: int) -> Seq<u32>
    decreases n,
{
    if n <= 0 {
        Seq::empty()
    } else {
        sizes_of(bs, n - 1).push(bs[n - 1].num_instructions)
    }
}

/// Sizes of every block of the first `n` functions, in order.
pub open spec fn all_sizes(fs: Seq<Function>, n: int) -> Seq<u32>
    decreases n,
{
    if n <= 0 {
        Seq::empty()
    } else {
        all_sizes(fs, n - 1) + sizes_of(fs[n - 1].spec_blocks(), fs[n - 1].spec_blocks().len() as int)
    }
}

pub open spec fn seq_sum(s: Seq<u32>, n: int) -> nat
    decreases n,
{
    if n <= 0 {
        0
    } else {
        seq_sum(s, n - 1) + s[n - 1] as nat
    }
}

pub open spec fn seq_min(s: Seq<u32>, n: int) -> u32
    decreases n,
{
    if n <= 0 {
        u32::MAX
    } else if s[n - 1] < seq_min(s, n - 1) {
        s[n - 1]
    } else {
        seq_min(s, n - 1)
    }
}

pub open spec fn seq_max(s: Seq<u32>, n: int) -> u32
    decreases n,
{
    if n <= 0 {
        0
    } else if s[n - 1] > seq_max(s, n - 1) {
        s[n - 1]
    } else {
        seq_max(s, n - 1)
    }
}

/// Counts over the first `n` functions: (functions with a block, their
/// locals, blocks used, instructions in used blocks, functions whose first
/// block was used, their locals).
pub open spec fn usage(bitmap: Seq<u8>, fs: Seq<Function>, n: int) -> (nat, nat, nat, nat, nat, nat)
    decreases n,
{
    if n <= 0 {
        (0, 0, 0, 0, 0, 0)
    } else {
        let p = usage(bitmap, fs, n - 1);
        let f = fs[n - 1];
        let bs = f.spec_blocks();
        let has = bs.len() > 0;
        let first_used = has && bit_set(bitmap, f, 0);
        let u = block_usage(bitmap, f, bs.len() as int);
        (
            p.0 + if has { 1nat } else { 0nat },
            p.1 + if has { f.spec_num_locals() as nat } else { 0nat },
            p.2 + u.0,
            p.3 + u.1,
            p.4 + if first_used { 1nat } else { 0nat },
            p.5 + if first_used { f.spec_num_locals() as nat } else { 0nat },
        )
    }
}

/// Blocks used among the first `k` of `f`, and their instructions.
pub open spec fn block_usage(bitmap: Seq<u8>, f: Function, k: int) -> (nat, nat)
    decreases k,
{
    if k <= 0 {
        (0, 0)
    } else {
        let p = block_usage(bitmap, f, k - 1);
        if bit_set(bitmap, f, (k - 1) as u32) {
            (p.0 + 1, p.1 + f.spec_blocks()[k - 1].num_instructions as nat)
        } else {
            p
        }
    }
}

/// Bit `j` of function `f` lies in `bitmap`.
pub open spec fn bit_in_bitmap(bitmap: Seq<u8>, f: Function, j: int) -> bool {
    j <= u32::MAX && f.spec_bitmap_offset() + j / 8 < bitmap.len()
}

impl Coverage {
    /// Every block's bit lies in the bitmap, and the counts fit in `u32`.
    pub open spec fn statistic_fits(&self) -> bool {
        let fs = self.spec_info().spec_functions();
        let sizes = all_sizes(fs, fs.len() as int);
        &&& forall|i: int, j: int|
            0 <= i < fs.len() && 0 <= j < fs[i].spec_blocks().len() ==> #[trigger] bit_in_bitmap(self.spec_bitmap(), fs[i], j)
        &&& sizes.len() <= u32::MAX
        &&& seq_sum(sizes, sizes.len() as int) <= u32::MAX
        &&& usage(self.spec_bitmap(), fs, fs.len() as int).0 <= u32::MAX
        &&& usage(self.spec_bitmap(), fs, fs.len() as int).1 <= u32::MAX
        &&& usage(self.spec_bitmap(), fs, fs.len() as int).2 <= u32::MAX
        &&& usage(self.spec_bitmap(), fs, fs.len() as int).3 <= u32::MAX
        &&& usage(self.spec_bitmap(), fs, fs.len() as int).4 <= u32::MAX
        &&& usage(self.spec_bitmap(), fs, fs.len() as int).5 <= u32::MAX
        &&& fs.len() <= u32::MAX
    }

    /// Counts over the recorded functions and blocks, and which of them ran.
    pub fn create_statistic(&self) -> (r: Statistic)
        requires
            self.statistic_fits(),
        ensures
            ({
                let fs = self.spec_info().spec_functions();
                let sizes = all_sizes(fs, fs.len() as int);
                let u = usage(self.spec_bitmap(), fs, fs.len() as int);
                &&& r.num_basic_blocks == sizes.len()
                &&& r.num_instructions == seq_sum(sizes, sizes.len() as int)
                &&& r.min_basic_block_size == seq_min(sizes, sizes.len() as int)
                &&& r.max_basic_block_size == seq_max(sizes, sizes.len() as int)
                &&& r.median_basic_block_size == kth_smallest(sizes, sizes.len() / 2)
                &&& r.num_functions == u.0
                &&& r.num_locals == u.1
                &&& r.used_basic_blocks == u.2
                &&& r.used_instructions == u.3
                &&& r.used_functions == u.4
                &&& r.used_locals == u.5
            }),
    {
        let fs = &self.info.functions;
        let ghost bitmap = self.spec_bitmap();
        let ghost gfs = fs@;
        let mut nb: u32 = 0;
        let mut ni: u32 = 0;
        let mut mn: u32 = u32::MAX;
        let mut mx: u32 = 0;
        let mut nf: u32 = 0;
        let mut nl: u32 = 0;
        let mut ub: u32 = 0;
        let mut ui: u32 = 0;
        let mut uf: u32 = 0;
        let mut ul: u32 = 0;
        let mut sizes: Vec<u32> = Vec::new();
        let mut i: usize = 0;
        while i < fs.len()
            invariant
                self.statistic_fits(),
                gfs == self.spec_info().spec_functions(),
                fs@ == gfs,
                bitmap == self.spec_bitmap(),
                i <= gfs.len(),
                sizes@ == all_sizes(gfs, i as int),
                nb == sat(sizes@.len()),
                ni == sat(seq_sum(sizes@, sizes@.len() as int)),
                mn == seq_min(sizes@, sizes@.len() as int),
                mx == seq_max(sizes@, sizes@.len() as int),
                nf == sat(usage(bitmap, gfs, i as int).0),
                nl == sat(usage(bitmap, gfs, i as int).1),
                ub == sat(usage(bitmap, gfs, i as int).2),
                ui == sat(usage(bitmap, gfs, i as int).3),
                uf == sat(usage(bitmap, gfs, i as int).4),
                ul == sat(usage(bitmap, gfs, i as int).5),
            decreases gfs.len() - i,
        {
            let f = &fs[i];
            let bs = &f.basic_blocks;
            let ghost p = usage(bitmap, gfs, i as int);
            let ghost s0 = sizes@;
            let mut j: usize = 0;
            while j < bs.len()
                invariant
                    self.statistic_fits(),
                    gfs == self.spec_info().spec_functions(),
                    bitmap == self.spec_bitmap(),
                    i < gfs.len(),
                    *f == gfs[i as int],
                    bs@ == f.spec_blocks(),
                    j <= bs@.len(),
                    p == usage(bitmap, gfs, i as int),
                    s0 == all_sizes(gfs, i as int),
                    sizes@ == s0 + sizes_of(bs@, j as int),
                    nb == sat(sizes@.len()),
                    ni == sat(seq_sum(sizes@, sizes@.len() as int)),
                    mn == seq_min(sizes@, sizes@.len() as int),
                    mx == seq_max(sizes@, sizes@.len() as int),
                    nf == sat(p.0 + if j > 0 { 1nat } else { 0nat }),
                    nl == sat(p.1 + if j > 0 { f.spec_num_locals() as nat } else { 0nat }),
                    ub == sat(p.2 + block_usage(bitmap, *f, j as int).0),
                    ui == sat(p.3 + block_usage(bitmap, *f, j as int).1),
                    uf == sat(p.4 + if j > 0 && bit_set(bitmap, *f, 0) { 1nat } else { 0nat }),
                    ul == sat(p.5 + if j > 0 && bit_set(bitmap, *f, 0) { f.spec_num_locals() as nat } else { 0nat }),
                decreases bs@.len() - j,
            {
                let size = bs[j].num_instructions;
                proof {
                    lemma_seq_push(sizes@, size);
                    assert(s0 + sizes_of(bs@, j + 1) =~= sizes@.push(size));
                    assert(bit_in_bitmap(bitmap, gfs[i as int], j as int));
                }
                sizes.push(size);
                nb = nb.saturating_add(1);
                ni = ni.saturating_add(size);
                if size < mn {
                    mn = size;
                }
                if size > mx {
                    mx = size;
                }
                if j == 0 {
                    nf = nf.saturating_add(1);
                    nl = nl.saturating_add(f.num_locals);
                }
                if self.block_was_used(f, j as u32) {
                    ub = ub.saturating_add(1);
                    ui = ui.saturating_add(size);
                    if j == 0 {
                        uf = uf.saturating_add(1);
                        ul = ul.saturating_add(f.num_locals);
                    }
                }
                j = j + 1;
            }
            proof {
                assert(sizes_of(bs@, bs@.len() as int) == sizes_of(f.spec_blocks(), f.spec_blocks().len() as int));
                assert(all_sizes(gfs, i + 1) == s0 + sizes_of(bs@, bs@.len() as int));
            }
            i = i + 1;
        }
        let median = kth_of(sizes, nb as usize / 2);
        Statistic {
            num_functions: nf,
            num_locals: nl,
            num_basic_blocks: nb,
            min_basic_block_size: mn,
            max_basic_block_size: mx,
            median_basic_block_size: median,
            num_instructions: ni,
            used_functions: uf,
            used_locals: ul,
            used_basic_blocks: ub,
            used_instructions: ui,
        }
    }
}

/// `n`, or `u32::MAX` if it is larger.
pub open spec fn sat(n: nat) -> u32 {
    if n > u32::MAX {
        u32::MAX
    } else {
        n as u32
    }
}

proof fn lemma_seq_prefix(s: Seq<u32>, x: u32, n: int)
    requires
        0 <= n <= s.len(),
    ensures
        seq_sum(s.push(x), n) == seq_sum(s, n),
        seq_min(s.push(x), n) == seq_min(s, n),
        seq_max(s.push(x), n) == seq_max(s, n),
    decreases n,
{
    if n > 0 {
        lemma_seq_prefix(s, x, n - 1);
    }
}

proof fn lemma_seq_push(s: Seq<u32>, x: u32)
    ensures
        seq_sum(s.push(x), s.len() + 1int) == seq_sum(s, s.len() as int) + x,
        seq_min(s.push(x), s.len() + 1int) == if x < seq_min(s, s.len() as int) { x } else { seq_min(s, s.len() as int) },
        seq_max(s.push(x), s.len() + 1int) == if x > seq_max(s, s.len() as int) { x } else { seq_max(s, s.len() as int) },
{
    lemma_seq_prefix(s, x, s.len() as int);
}

} // verus!
