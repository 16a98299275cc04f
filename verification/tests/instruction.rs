use brainfuck::{format_instruction, DebugFormat, Instruction, OptimizationLevel};

#[test]
fn display() {
    assert_eq!(Instruction::Right(1).to_string(), ">");
    assert_eq!(Instruction::Right(2).to_string(), ">>");
    assert_eq!(Instruction::Right(5).to_string(), ">>>>>");

    assert_eq!(Instruction::Left(1).to_string(), "<");
    assert_eq!(Instruction::Left(2).to_string(), "<<");
    assert_eq!(Instruction::Left(5).to_string(), "<<<<<");

    assert_eq!(Instruction::Increment(1).to_string(), "+");
    assert_eq!(Instruction::Increment(2).to_string(), "++");
    assert_eq!(Instruction::Increment(5).to_string(), "+++++");

    assert_eq!(Instruction::Decrement(1).to_string(), "-");
    assert_eq!(Instruction::Decrement(2).to_string(), "--");
    assert_eq!(Instruction::Decrement(5).to_string(), "-----");

    assert_eq!(Instruction::Write.to_string(), ".");
    assert_eq!(Instruction::Read.to_string(), ",");

    assert_eq!(Instruction::JumpForwardIfZero { matching: None }.to_string(), "[");
    assert_eq!(Instruction::JumpBackwardUnlessZero { matching: 0 }.to_string(), "]");
}

#[test]
fn display_ignores_jump_targets() {
    assert_eq!(Instruction::JumpForwardIfZero { matching: Some(7) }.to_string(), "[");
    assert_eq!(Instruction::JumpBackwardUnlessZero { matching: 12 }.to_string(), "]");
}

#[test]
fn format_instruction_repeats() {
    assert_eq!(format_instruction("+", 0), "+");
    assert_eq!(format_instruction("+", 1), "+");
    assert_eq!(format_instruction("+", 2), "++");
    assert_eq!(format_instruction("ab", 0), "ab");
    assert_eq!(format_instruction("ab", 1), "ab");
    assert_eq!(format_instruction("ab", 3), "ababab");
    assert_eq!(format_instruction("", 5), "");
}

#[test]
fn display_of_a_count_of_zero_is_the_symbol() {
    assert_eq!(Instruction::Right(0).to_string(), ">");
    assert_eq!(Instruction::Left(0).to_string(), "<");
    assert_eq!(Instruction::Increment(0).to_string(), "+");
    assert_eq!(Instruction::Decrement(0).to_string(), "-");
}

#[test]
fn debug_format_from_str() {
    let opt: DebugFormat = "text".parse().unwrap();
    assert_eq!(opt, DebugFormat::Text);
    let opt: DebugFormat = "json".parse().unwrap();
    assert_eq!(opt, DebugFormat::Json);

    assert!("foo".parse::<DebugFormat>().is_err());
}

#[test]
fn debug_format_from_str_is_exact() {
    assert_eq!(DebugFormat::from_str("text"), Ok(DebugFormat::Text));
    assert_eq!(DebugFormat::from_str("json"), Ok(DebugFormat::Json));
    assert_eq!(DebugFormat::from_str(""), Err(()));
    assert_eq!(DebugFormat::from_str("tex"), Err(()));
    assert_eq!(DebugFormat::from_str("texts"), Err(()));
    assert_eq!(DebugFormat::from_str("Json"), Err(()));
    assert_eq!(DebugFormat::from_str("jsun"), Err(()));
}

#[test]
fn optlevel_from_str() {
    let opt: OptimizationLevel = "0".parse().unwrap();
    assert_eq!(opt, OptimizationLevel::Off);
    let opt: OptimizationLevel = "1".parse().unwrap();
    assert_eq!(opt, OptimizationLevel::Speed);

    assert!("2".parse::<OptimizationLevel>().is_err());
}

#[test]
fn optlevel_from_str_is_exact() {
    assert_eq!(OptimizationLevel::from_str("0"), Ok(OptimizationLevel::Off));
    assert_eq!(OptimizationLevel::from_str("1"), Ok(OptimizationLevel::Speed));
    assert_eq!(OptimizationLevel::from_str(""), Err(()));
    assert_eq!(OptimizationLevel::from_str("01"), Err(()));
    assert_eq!(OptimizationLevel::from_str("10"), Err(()));
    assert_eq!(OptimizationLevel::from_str(" 1"), Err(()));
}
