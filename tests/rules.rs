use pwasm_utils::elements::{BlockType, Instruction, I32_ADD, I32_MUL};
use pwasm_utils::rules::{InstructionType, Metering, RuleSet};

#[test]
fn categories_of_instructions() {
    assert_eq!(InstructionType::op(&Instruction::Numeric(I32_ADD)), InstructionType::Add);
    assert_eq!(InstructionType::op(&Instruction::Numeric(I32_MUL)), InstructionType::Mul);
    assert_eq!(InstructionType::op(&Instruction::Numeric(0x6d)), InstructionType::Div);
    assert_eq!(InstructionType::op(&Instruction::Numeric(0x71)), InstructionType::Bit);
    assert_eq!(InstructionType::op(&Instruction::Numeric(0x45)), InstructionType::IntegerComparsion);
    assert_eq!(InstructionType::op(&Instruction::Numeric(0x5b)), InstructionType::FloatComparsion);
    assert_eq!(InstructionType::op(&Instruction::Numeric(0x92)), InstructionType::Float);
    assert_eq!(InstructionType::op(&Instruction::Numeric(0xa7)), InstructionType::Conversion);
    assert_eq!(InstructionType::op(&Instruction::Numeric(0xa8)), InstructionType::FloatConversion);
    assert_eq!(InstructionType::op(&Instruction::Numeric(0xbc)), InstructionType::Reinterpretation);
    assert_eq!(InstructionType::op(&Instruction::Block(BlockType::NoResult)), InstructionType::ControlFlow);
    assert_eq!(InstructionType::op(&Instruction::GetGlobal(0)), InstructionType::Local);
    assert_eq!(InstructionType::op(&Instruction::Load(0x28, 2, 0)), InstructionType::Load);
    assert_eq!(InstructionType::op(&Instruction::Store(0x36, 2, 0)), InstructionType::Store);
    assert_eq!(InstructionType::op(&Instruction::F64Const(0)), InstructionType::FloatConst);
    assert_eq!(InstructionType::op(&Instruction::I64Const(3)), InstructionType::Const);
    assert_eq!(InstructionType::op(&Instruction::GrowMemory(0)), InstructionType::GrowMemory);
    assert_eq!(InstructionType::op(&Instruction::CurrentMemory(0)), InstructionType::CurrentMemory);
    assert_eq!(InstructionType::op(&Instruction::Unreachable), InstructionType::Unreachable);
    assert_eq!(InstructionType::op(&Instruction::Nop), InstructionType::Nop);
}

#[test]
fn rule_set_costs() {
    let rules = RuleSet::new(2, vec![(InstructionType::Add, Metering::Fixed(9)), (InstructionType::Mul, Metering::Forbidden)]);
    assert_eq!(rules.process(&Instruction::Numeric(I32_ADD)), Ok(9));
    assert_eq!(rules.process(&Instruction::Numeric(I32_MUL)), Err(()));
    assert_eq!(rules.process(&Instruction::Nop), Ok(2));
    assert_eq!(rules.grow_cost(), 0);
    let rules = rules.with_grow_cost(7).with_forbidden_floats();
    assert_eq!(rules.grow_cost(), 7);
    assert_eq!(rules.process(&Instruction::F32Const(0)), Err(()));
    assert_eq!(rules.process(&Instruction::Numeric(0x5b)), Err(()));
    assert_eq!(rules.process(&Instruction::Numeric(0xb2)), Err(()));
    assert_eq!(rules.process(&Instruction::Numeric(0x92)), Err(()));
    assert_eq!(rules.process(&Instruction::Numeric(I32_ADD)), Ok(9));
}

#[test]
fn default_rules_charge_one() {
    let rules = RuleSet::default();
    assert_eq!(rules.process(&Instruction::F32Const(1)), Ok(1));
    assert_eq!(rules.process(&Instruction::Call(3)), Ok(1));
    assert_eq!(rules.grow_cost(), 0);
}

#[test]
fn categories_by_name() {
    assert_eq!("grow_mem".parse::<InstructionType>().unwrap(), InstructionType::GrowMemory);
    assert_eq!("flow".parse::<InstructionType>().unwrap(), InstructionType::ControlFlow);
    assert_eq!("float_comp".parse::<InstructionType>().unwrap(), InstructionType::FloatComparsion);
    assert!("loop".parse::<InstructionType>().is_err());
}
