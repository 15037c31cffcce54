//! Gas rules: a cost for each category of instruction.
use vstd::prelude::*;

use crate::elements::Instruction;

verus! {

/// A name that is no category of instruction.
#[derive(Debug)]
pub struct UnknownInstruction;

/// How the instructions of one category are charged.
#[derive(Debug, PartialEq, Eq, Structural, Copy, Clone)]
pub enum Metering {
    /// The rule set's regular cost.
    Regular,
    /// Not allowed at all.
    Forbidden,
    /// A cost of its own.
    Fixed(u32),
}

#[derive(Debug, Hash, PartialEq, Eq, Structural, Copy, Clone)]
pub enum InstructionType {
    Bit,
    Add,
    Mul,
    Div,
    Load,
    Store,
    Const,
    FloatConst,
    Local,
    Global,
    ControlFlow,
    IntegerComparsion,
    FloatComparsion,
    Float,
    Conversion,
    FloatConversion,
    Reinterpretation,
    Unreachable,
    Nop,
    CurrentMemory,
    GrowMemory,
}

/// Category of a numeric instruction by its opcode. Opcodes outside the
/// numeric range of the format fall under `Bit`.
pub open spec fn numeric_type(op: u8) -> InstructionType {
    if 0x45 <= op <= 0x5a {
        InstructionType::IntegerComparsion
    } else if 0x5b <= op <= 0x66 {
        InstructionType::FloatComparsion
    } else if op == 0x6a || op == 0x6b || op == 0x7c || op == 0x7d {
        InstructionType::Add
    } else if op == 0x6c || op == 0x7e {
        InstructionType::Mul
    } else if (0x6d <= op <= 0x70) || (0x7f <= op <= 0x82) {
        InstructionType::Div
    } else if 0x8b <= op <= 0xa6 {
        InstructionType::Float
    } else if op == 0xa7 || op == 0xac || op == 0xad {
        InstructionType::Conversion
    } else if 0xa8 <= op <= 0xbb {
        InstructionType::FloatConversion
    } else if 0xbc <= op <= 0xbf {
        InstructionType::Reinterpretation
    } else {
        InstructionType::Bit
    }
}

/// Category of an instruction.
pub open spec fn instruction_type(i: Instruction) -> InstructionType {
    match i {
        Instruction::Unreachable => InstructionType::Unreachable,
        Instruction::Nop => InstructionType::Nop,
        Instruction::Block(_) | Instruction::Loop(_) | Instruction::If(_) | Instruction::Else
        | Instruction::End | Instruction::Br(_) | Instruction::BrIf(_) | Instruction::BrTable(
            _,
            _,
        ) | Instruction::Return | Instruction::Call(_) | Instruction::CallIndirect(_, _)
        | Instruction::Drop | Instruction::Select => InstructionType::ControlFlow,
        Instruction::GetLocal(_) | Instruction::SetLocal(_) | Instruction::TeeLocal(_)
        | Instruction::GetGlobal(_) | Instruction::SetGlobal(_) => InstructionType::Local,
        Instruction::Load(_, _, _) => InstructionType::Load,
        Instruction::Store(_, _, _) => InstructionType::Store,
        Instruction::CurrentMemory(_) => InstructionType::CurrentMemory,
        Instruction::GrowMemory(_) => InstructionType::GrowMemory,
        Instruction::I32Const(_) | Instruction::I64Const(_) => InstructionType::Const,
        Instruction::F32Const(_) | Instruction::F64Const(_) => InstructionType::FloatConst,
        Instruction::Numeric(op) => numeric_type(op),
    }
}

fn numeric_op(op: u8) -> (r: InstructionType)
    ensures
        r == numeric_type(op),
{
    if 0x45 <= op && op <= 0x5a {
        InstructionType::IntegerComparsion
    } else if 0x5b <= op && op <= 0x66 {
        InstructionType::FloatComparsion
    } else if op == 0x6a || op == 0x6b || op == 0x7c || op == 0x7d {
        InstructionType::Add
    } else if op == 0x6c || op == 0x7e {
        InstructionType::Mul
    } else if (0x6d <= op && op <= 0x70) || (0x7f <= op && op <= 0x82) {
        InstructionType::Div
    } else if 0x8b <= op && op <= 0xa6 {
        InstructionType::Float
    } else if op == 0xa7 || op == 0xac || op == 0xad {
        InstructionType::Conversion
    } else if 0xa8 <= op && op <= 0xbb {
        InstructionType::FloatConversion
    } else if 0xbc <= op && op <= 0xbf {
        InstructionType::Reinterpretation
    } else {
        InstructionType::Bit
    }
}

impl InstructionType {
    /// Category of `instruction`.
    pub fn op(instruction: &Instruction) -> (r: Self)
        ensures
            r == instruction_type(*instruction),
    {
        match instruction {
            Instruction::Unreachable => InstructionType::Unreachable,
            Instruction::Nop => InstructionType::Nop,
            Instruction::Block(_) => InstructionType::ControlFlow,
            Instruction::Loop(_) => InstructionType::ControlFlow,
            Instruction::If(_) => InstructionType::ControlFlow,
            Instruction::Else => InstructionType::ControlFlow,
            Instruction::End => InstructionType::ControlFlow,
            Instruction::Br(_) => InstructionType::ControlFlow,
            Instruction::BrIf(_) => InstructionType::ControlFlow,
            Instruction::BrTable(_, _) => InstructionType::ControlFlow,
            Instruction::Return => InstructionType::ControlFlow,
            Instruction::Call(_) => InstructionType::ControlFlow,
            Instruction::CallIndirect(_, _) => InstructionType::ControlFlow,
            Instruction::Drop => InstructionType::ControlFlow,
            Instruction::Select => InstructionType::ControlFlow,
            Instruction::GetLocal(_) => InstructionType::Local,
            Instruction::SetLocal(_) => InstructionType::Local,
            Instruction::TeeLocal(_) => InstructionType::Local,
            Instruction::GetGlobal(_) => InstructionType::Local,
            Instruction::SetGlobal(_) => InstructionType::Local,
            Instruction::Load(_, _, _) => InstructionType::Load,
            Instruction::Store(_, _, _) => InstructionType::Store,
            Instruction::CurrentMemory(_) => InstructionType::CurrentMemory,
            Instruction::GrowMemory(_) => InstructionType::GrowMemory,
            Instruction::I32Const(_) => InstructionType::Const,
            Instruction::I64Const(_) => InstructionType::Const,
            Instruction::F32Const(_) => InstructionType::FloatConst,
            Instruction::F64Const(_) => InstructionType::FloatConst,
            Instruction::Numeric(op) => numeric_op(*op),
        }
    }
}

impl std::str::FromStr for InstructionType {
    type Err = UnknownInstruction;

    fn from_str(s: &str) -> Result<Self, Self::Err> {
        let name = s.to_owned();
        if name == "bit".to_owned() {
            Ok(InstructionType::Bit)
        } else if name == "add".to_owned() {
            Ok(InstructionType::Add)
        } else if name == "mul".to_owned() {
            Ok(InstructionType::Mul)
        } else if name == "div".to_owned() {
            Ok(InstructionType::Div)
        } else if name == "load".to_owned() {
            Ok(InstructionType::Load)
        } else if name == "store".to_owned() {
            Ok(InstructionType::Store)
        } else if name == "const".to_owned() {
            Ok(InstructionType::Const)
        } else if name == "local".to_owned() {
            Ok(InstructionType::Local)
        } else if name == "global".to_owned() {
            Ok(InstructionType::Global)
        } else if name == "flow".to_owned() {
            Ok(InstructionType::ControlFlow)
        } else if name == "integer_comp".to_owned() {
            Ok(InstructionType::IntegerComparsion)
        } else if name == "float_comp".to_owned() {
            Ok(InstructionType::FloatComparsion)
        } else if name == "float".to_owned() {
            Ok(InstructionType::Float)
        } else if name == "conversion".to_owned() {
            Ok(InstructionType::Conversion)
        } else if name == "float_conversion".to_owned() {
            Ok(InstructionType::FloatConversion)
        } else if name == "reinterpret".to_owned() {
            Ok(InstructionType::Reinterpretation)
        } else if name == "unreachable".to_owned() {
            Ok(InstructionType::Unreachable)
        } else if name == "nop".to_owned() {
            Ok(InstructionType::Nop)
        } else if name == "currrent_mem".to_owned() {
            Ok(InstructionType::CurrentMemory)
        } else if name == "grow_mem".to_owned() {
            Ok(InstructionType::GrowMemory)
        } else {
            Err(UnknownInstruction)
        }
    }
}

/// The metering that the last pair for `t` in `entries` gives, if any.
pub open spec fn metering_in(entries: Seq<(InstructionType, Metering)>, t: InstructionType) -> Option<
    Metering,
>
    decreases entries.len(),
{
    if entries.len() == 0 {
        None
    } else if entries.last().0 == t {
        Some(entries.last().1)
    } else {
        metering_in(entries.drop_last(), t)
    }
}

/// A rule set: the regular cost, the categories with a metering of their
/// own, and the cost of one page of `grow_memory`.
pub struct RuleSet {
    regular: u32,
    entries: Vec<(InstructionType, Metering)>,
    grow: u32,
}

impl RuleSet {
    pub closed spec fn spec_regular(&self) -> u32 {
        self.regular
    }

    pub closed spec fn spec_grow(&self) -> u32 {
        self.grow
    }

    /// The metering of category `t`.
    pub closed spec fn metering(&self, t: InstructionType) -> Metering {
        match metering_in(self.entries@, t) {
            Some(m) => m,
            None => Metering::Regular,
        }
    }

    /// The cost of `i`, or `None` if it is forbidden.
    pub open spec fn cost(&self, i: Instruction) -> Option<u32> {
        match self.metering(instruction_type(i)) {
            Metering::Regular => Some(self.spec_regular()),
            Metering::Forbidden => None,
            Metering::Fixed(v) => Some(v),
        }
    }

    /// The rule set in which every category costs 1 and growing memory costs nothing.
    pub fn default() -> (r: Self)
        ensures
            r.spec_regular() == 1,
            r.spec_grow() == 0,
            forall|t: InstructionType| r.metering(t) == Metering::Regular,
    {
        RuleSet { regular: 1, entries: Vec::new(), grow: 0 }
    }

    /// A rule set with regular cost `regular`; where `entries` holds several
    /// pairs for a category, the last one counts.
    pub fn new(regular: u32, entries: Vec<(InstructionType, Metering)>) -> (r: Self)
        ensures
            r.spec_regular() == regular,
            r.spec_grow() == 0,
            forall|t: InstructionType|
                r.metering(t) == match metering_in(entries@, t) {
                    Some(m) => m,
                    None => Metering::Regular,
                },
    {
        RuleSet { regular, entries, grow: 0 }
    }

    /// The cost of `instruction`, or `Err` if its category is forbidden.
    pub fn process(&self, instruction: &Instruction) -> (r: Result<u32, ()>)
        ensures
            r matches Ok(v) ==> self.cost(*instruction) == Some(v),
            r is Err ==> self.cost(*instruction) is None,
    {
        let t = InstructionType::op(instruction);
        let mut i = self.entries.len();
        proof {
            assert(self.entries@.subrange(0, i as int) =~= self.entries@);
        }
        while i > 0
            invariant
                i <= self.entries@.len(),
                t == instruction_type(*instruction),
                metering_in(self.entries@, t) == metering_in(self.entries@.subrange(0, i as int), t),
            decreases i,
        {
            let pair = self.entries[i - 1];
            proof {
                let sub = self.entries@.subrange(0, i as int);
                assert(sub.drop_last() =~= self.entries@.subrange(0, i - 1));
                assert(sub.last() == pair);
            }
            if pair.0 == t {
                proof {
                    let sub = self.entries@.subrange(0, i as int);
                    assert(sub.len() > 0);
                    assert(metering_in(sub, t) == Some(pair.1));
                    assert(self.metering(t) == pair.1);
                }
                let r = match pair.1 {
                    Metering::Regular => Ok(self.regular),
                    Metering::Forbidden => Err(()),
                    Metering::Fixed(v) => Ok(v),
                };
                return r;
            }
            i = i - 1;
        }
        proof {
            assert(self.entries@.subrange(0, 0).len() == 0);
        }
        Ok(self.regular)
    }

    pub fn grow_cost(&self) -> (r: u32)
        ensures
            r == self.spec_grow(),
    {
        self.grow
    }

    pub fn with_grow_cost(self, val: u32) -> (r: Self)
        ensures
            r.spec_grow() == val,
            r.spec_regular() == self.spec_regular(),
            forall|t: InstructionType| r.metering(t) == self.metering(t),
    {
        let mut s = self;
        s.grow = val;
        s
    }

    /// The same rule set with every float category forbidden.
    pub fn with_forbidden_floats(self) -> (r: Self)
        ensures
            r.spec_grow() == self.spec_grow(),
            r.spec_regular() == self.spec_regular(),
            forall|t: InstructionType|
                r.metering(t) == if t == InstructionType::Float || t
                    == InstructionType::FloatComparsion || t == InstructionType::FloatConst || t
                    == InstructionType::FloatConversion {
                    Metering::Forbidden
                } else {
                    self.metering(t)
                },
    {
        let mut s = self;
        let ghost e0 = s.entries@;
        s.entries.push((InstructionType::Float, Metering::Forbidden));
        s.entries.push((InstructionType::FloatComparsion, Metering::Forbidden));
        s.entries.push((InstructionType::FloatConst, Metering::Forbidden));
        s.entries.push((InstructionType::FloatConversion, Metering::Forbidden));
        proof {
            let e = s.entries@;
            assert(e.drop_last().drop_last().drop_last().drop_last() =~= e0);
            assert forall|t: InstructionType| metering_in(e, t) == if t == InstructionType::Float
                || t == InstructionType::FloatComparsion || t == InstructionType::FloatConst || t
                == InstructionType::FloatConversion {
                Some(Metering::Forbidden)
            } else {
                metering_in(e0, t)
            } by {
                reveal_with_fuel(metering_in, 5);
            }
        }
        s
    }
}

} // verus!
