use brainfuck::Instruction::{
    Decrement, Increment, JumpBackwardUnlessZero, JumpForwardIfZero, Left, Read, Right, Write,
};
use brainfuck::{Error, Executed, Machine};

#[test]
fn new_machine_has_one_zero_cell() {
    let machine = Machine::new(vec![Write]);
    assert_eq!(machine.pointer(), 0);
    assert_eq!(machine.next_instruction(), 0);
    assert_eq!(machine.memory().iter().cloned().collect::<Vec<u8>>(), vec![0]);
    assert!(!machine.halted());
    assert!(!machine.wants_input());
}

#[test]
fn empty_program_is_halted() {
    let mut machine = Machine::new(vec![]);
    assert!(machine.halted());
    assert_eq!(machine.step(Some(1)), Ok(None));
    assert_eq!(machine.next_instruction(), 0);
}

#[test]
fn step_reports_what_it_executed() {
    let mut machine = Machine::new(vec![Increment(300), Write, Read, Write]);
    assert_eq!(
        machine.step(None),
        Ok(Some(Executed { index: 0, instruction: Increment(300), output: None })),
    );
    assert_eq!(
        machine.step(None),
        Ok(Some(Executed { index: 1, instruction: Write, output: Some(44) })),
    );
    assert!(machine.wants_input());
    assert_eq!(
        machine.step(Some(200)),
        Ok(Some(Executed { index: 2, instruction: Read, output: None })),
    );
    assert_eq!(
        machine.step(Some(1)),
        Ok(Some(Executed { index: 3, instruction: Write, output: Some(200) })),
    );
    assert!(machine.halted());
    assert_eq!(machine.step(None), Ok(None));
}

#[test]
fn moving_grows_the_tape_both_ways() {
    let mut machine = Machine::new(vec![Increment(1), Right(2), Left(5), Right(3)]);
    machine.step(None).unwrap();
    machine.step(None).unwrap();
    assert_eq!(machine.pointer(), 2);
    assert_eq!(machine.memory().iter().cloned().collect::<Vec<u8>>(), vec![1, 0, 0]);
    machine.step(None).unwrap();
    assert_eq!(machine.pointer(), 0);
    assert_eq!(machine.memory().iter().cloned().collect::<Vec<u8>>(), vec![0, 0, 0, 1, 0, 0]);
    machine.step(None).unwrap();
    assert_eq!(machine.pointer(), 3);
    assert_eq!(machine.memory().iter().cloned().collect::<Vec<u8>>(), vec![0, 0, 0, 1, 0, 0]);
}

#[test]
fn forward_jump_caches_the_targets_it_passes() {
    let mut machine = Machine::new(vec![
        JumpForwardIfZero { matching: None },
        JumpForwardIfZero { matching: None },
        JumpBackwardUnlessZero { matching: 2 },
        JumpForwardIfZero { matching: None },
        JumpBackwardUnlessZero { matching: 4 },
        JumpBackwardUnlessZero { matching: 1 },
        JumpForwardIfZero { matching: None },
        JumpBackwardUnlessZero { matching: 7 },
    ]);
    assert_eq!(
        machine.step(None),
        Ok(Some(Executed {
            index: 0,
            instruction: JumpForwardIfZero { matching: None },
            output: None,
        })),
    );
    assert_eq!(machine.next_instruction(), 6);
    assert_eq!(machine.program(), &vec![
        JumpForwardIfZero { matching: Some(6) },
        JumpForwardIfZero { matching: Some(3) },
        JumpBackwardUnlessZero { matching: 2 },
        JumpForwardIfZero { matching: Some(5) },
        JumpBackwardUnlessZero { matching: 4 },
        JumpBackwardUnlessZero { matching: 1 },
        JumpForwardIfZero { matching: None },
        JumpBackwardUnlessZero { matching: 7 },
    ]);
}

#[test]
fn backward_jump_is_taken_while_the_cell_is_not_zero() {
    let mut machine = Machine::new(vec![
        Increment(2),
        JumpForwardIfZero { matching: None },
        Decrement(1),
        JumpBackwardUnlessZero { matching: 2 },
    ]);
    for expected_next in [1, 2, 3, 2, 3, 4] {
        machine.step(None).unwrap();
        assert_eq!(machine.next_instruction(), expected_next);
    }
    assert!(machine.halted());
}

#[test]
fn unmatched_open_faults_when_it_is_resolved() {
    let mut machine = Machine::new(vec![
        JumpForwardIfZero { matching: None },
        JumpForwardIfZero { matching: None },
        JumpBackwardUnlessZero { matching: 2 },
    ]);
    assert_eq!(machine.step(None), Err(Error::MismatchedJump));
    // the machine has not moved, and kept the target that the search found
    assert_eq!(machine.next_instruction(), 0);
    assert_eq!(machine.program(), &vec![
        JumpForwardIfZero { matching: None },
        JumpForwardIfZero { matching: Some(3) },
        JumpBackwardUnlessZero { matching: 2 },
    ]);
}

#[test]
fn moving_off_the_address_space_is_a_fault() {
    let mut machine = Machine::new(vec![Right(usize::MAX)]);
    assert_eq!(machine.step(None), Err(Error::TapeOverflow));
    assert_eq!(machine.pointer(), 0);
    assert_eq!(machine.next_instruction(), 0);

    let mut machine = Machine::new(vec![Right(1), Right(usize::MAX)]);
    machine.step(None).unwrap();
    assert_eq!(machine.step(None), Err(Error::TapeOverflow));

    let mut machine = Machine::new(vec![Left(usize::MAX)]);
    assert_eq!(machine.step(None), Err(Error::TapeOverflow));
    assert_eq!(machine.memory().len(), 1);
}
