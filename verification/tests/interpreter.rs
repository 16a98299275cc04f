use std::collections::VecDeque;

use brainfuck::Instruction::{
    Decrement, Increment, JumpBackwardUnlessZero, JumpForwardIfZero, Left, Read, Right, Write,
};
use brainfuck::{
    interpret, interpret_within, precompile, Error, Instruction, InterpreterState,
    OptimizationLevel, Outcome,
};

fn test_interpret_output(program: Vec<Instruction>) -> Vec<u8> {
    let inp: &[u8] = &[];
    test_interpret_with_input(program, inp)
}

fn test_interpret_with_input(program: Vec<Instruction>, inp: &[u8]) -> Vec<u8> {
    let mut out = Vec::new();
    let outcome = interpret(inp, &mut out, program, |_| {}).unwrap();
    assert!(outcome.halted);
    out
}

#[test]
fn interpreter_basic_movements() {
    // Test to make sure basic movements are working
    assert_eq!(test_interpret_output(vec![
        Increment(1),
        Right(1),
        Increment(2),
        Right(1),
        Increment(3),
        Write,
        Left(1),
        Write,
        Left(1),
        Write,
    ]), vec![3, 2, 1]);
}

#[test]
fn interpreter_wrapping() {
    assert_eq!(test_interpret_output(vec![
        Write,
        Decrement(1),
        Write,
        Increment(2),
        Write,
        Increment(256),
        Write,
        Decrement(255),
        Write,
        Decrement(1),
        Write,
        Decrement(1),
        Write,
        Decrement(1),
        Write,
        Increment(1),
        Write,
        Increment(1),
        Write,
        Increment(255 * 2),
        Write,
        Decrement(255 * 2),
        Write,
    ]), vec![0, 255, 1, 1, 2, 1, 0, 255, 0, 1, 255, 1]);
}

#[test]
fn interpreter_move_left_past_zero() {
    // These movements end up back at the same spot on the tape.
    assert_eq!(test_interpret_output(vec![
        Increment(1),
        Right(1),
        Left(4),
        Right(3),
        Left(3),
        Right(3),
        Increment(1),
        Write,
    ]), vec![2]);
}

#[test]
fn interpreter_move_right_past_capacity() {
    assert_eq!(test_interpret_output(vec![
        Increment(1),
        Right(10),
        // If the tape does not grow properly, this will fail
        Increment(1),
        Left(20),
        Right(20),
        Left(10),
        Right(15),
        Left(15),
        Increment(1),
        Write,
    ]), vec![2]);
}

#[test]
fn interpreter_skip_first_loop() {
    // The first loop is always skipped, whatever is in it
    assert_eq!(test_interpret_output(vec![
        JumpForwardIfZero { matching: None },
        Right(1),
        Left(1),
        Increment(1),
        Decrement(2),
        Write,
        Read,
        JumpBackwardUnlessZero { matching: 1 },
    ]), vec![]);
}

#[test]
fn interpreter_reading_input() {
    assert_eq!(test_interpret_with_input(vec![
        Write,
        Read,
        Write,
        Decrement(1),
        Write,
        Read,
        Write,
        Increment(1),
        Write,
        Right(1),
        Read, // reads overwrite each other
        Read,
        Right(1),
        Read,
        Right(1),
        Read,
        Left(2),
        Write,
        Right(1),
        Write,
        Right(1),
        Write,
        Left(3), // should not have changed
        Write,
        Read, // All reads past the end of input result in 0
        Write,
        Read,
        Read,
        Read,
        Read,
        Read,
        Read,
        Read,
        Write,
    ], &[ // input
        5,
        0,
        8,
        17,
        32,
        49,
    ]), vec![0, 5, 4, 0, 1, 17, 32, 49, 1, 0, 0]);
}

#[test]
fn interpreter_basic_looping() {
    // This loop increments cell index 1 using cell index 0 as a loop counter
    // The result is x * y
    let x = 13;
    let y = 15;
    assert_eq!(test_interpret_output(vec![
        Increment(x),
        JumpForwardIfZero { matching: None },
        Right(1),
        Increment(y),
        Left(1),
        Decrement(1),
        JumpBackwardUnlessZero { matching: 2 },
        Right(1),
        Write,
    ]), vec![(x * y) as u8]);
}

#[test]
fn nested_loops() {
    // The result of this is x * y * z
    // Note that 13 * 15 * 2 = 390 which overflows since 390 > 255
    let x = 13;
    let y = 15;
    let z = 2;
    assert_eq!(test_interpret_output(vec![
        Increment(x),
        JumpForwardIfZero { matching: None },
        Right(1),
        Increment(y),
        JumpForwardIfZero { matching: None },
        Right(1),
        Increment(z),
        Left(1),
        Decrement(1),
        JumpBackwardUnlessZero { matching: 5 },
        Left(1),
        Decrement(1),
        JumpBackwardUnlessZero { matching: 2 },
        Right(2),
        Write,
    ]), vec![(x * y * z) as u8]);
}

const HELLO_WORLD: &[u8] = b"++++++++[>++++[>++>+++>+++>+<<<<-]>+>+>->>+[<]<-]>>.>---.+++++++..+++.>>.<-.<.+++.------.--------.>>+.>++.";

#[test]
fn hello_world() {
    let source: Vec<u8> = HELLO_WORLD.to_vec();
    let program = precompile(&source, OptimizationLevel::Off).unwrap();
    assert_eq!(test_interpret_output(program),
        b"Hello World!\n");

    let program = precompile(&source, OptimizationLevel::Speed).unwrap();
    assert_eq!(test_interpret_output(program),
        b"Hello World!\n");
}

#[test]
fn hello_world_first_word() {
    let source = b"++++++++[>++++[>++>+++>+++>+<<<<-]>+>+>->>+[<]<-]>>.>---.+++++++..+++.";
    let program = precompile(source, OptimizationLevel::Off).unwrap();
    assert_eq!(test_interpret_output(program), b"Hello");
    let program = precompile(source, OptimizationLevel::Speed).unwrap();
    assert_eq!(test_interpret_output(program), b"Hello");
}

#[test]
fn interpreter_mismatched_jumps() {
    let mut out = Vec::new();
    let r = interpret(&[], &mut out, vec![JumpForwardIfZero { matching: None }], |_| {});
    assert_eq!(r, Err(Error::MismatchedJump));
    assert_eq!(out, vec![]);
}

#[test]
fn unmatched_open_is_no_fault_while_the_cell_is_not_zero() {
    let mut out = Vec::new();
    let r = interpret(
        &[],
        &mut out,
        vec![Increment(1), JumpForwardIfZero { matching: None }, Write],
        |_| {},
    );
    assert_eq!(r, Ok(Outcome { halted: true, consumed: 0 }));
    assert_eq!(out, vec![1]);
}

#[test]
fn callback_behaviour() {
    let inp: &[u8] = &[];
    let mut out = Vec::new();
    let program = vec![
        Right(4),
        Left(5),
        Increment(2),
        JumpForwardIfZero { matching: None },
        Decrement(1),
        JumpBackwardUnlessZero { matching: 4 },
    ];
    let states: Vec<(usize, Instruction, usize, VecDeque<u8>)> = vec![
        (0, Right(4), 4, vec![0, 0, 0, 0, 0].into()),
        (1, Left(5), 0, vec![0, 0, 0, 0, 0, 0].into()),
        (2, Increment(2), 0, vec![2, 0, 0, 0, 0, 0].into()),
        (3, JumpForwardIfZero { matching: None }, 0, vec![2, 0, 0, 0, 0, 0].into()),
        (4, Decrement(1), 0, vec![1, 0, 0, 0, 0, 0].into()),
        (5, JumpBackwardUnlessZero { matching: 4 }, 0, vec![1, 0, 0, 0, 0, 0].into()),
        (4, Decrement(1), 0, vec![0, 0, 0, 0, 0, 0].into()),
        (5, JumpBackwardUnlessZero { matching: 4 }, 0, vec![0, 0, 0, 0, 0, 0].into()),
    ];
    let mut states: VecDeque<_> = states.iter().map(|&(current_instruction, instruction, current_pointer, ref memory)| {
        InterpreterState { current_instruction, instruction, current_pointer, memory }
    }).collect();

    interpret(inp, &mut out, program, |state| {
        let expected = states.pop_front().expect("callback was called unexpectedly");
        assert_eq!(expected, state, "Failed with {} states left", states.len());
    }).unwrap();

    assert!(states.is_empty());
    assert_eq!(out, vec![]);
}

#[test]
fn reads_from_input() {
    let program = precompile(b",.,.,.", OptimizationLevel::Off).unwrap();
    let mut out = Vec::new();
    let outcome = interpret(&[65, 66, 67], &mut out, program, |_| {}).unwrap();
    assert_eq!(out, b"ABC");
    assert_eq!(outcome, Outcome { halted: true, consumed: 3 });
}

#[test]
fn empty_input_reads_as_zero() {
    let program = precompile(b",.", OptimizationLevel::Off).unwrap();
    let mut out = Vec::new();
    let outcome = interpret(&[], &mut out, program, |_| {}).unwrap();
    assert_eq!(out, vec![0]);
    assert_eq!(outcome, Outcome { halted: true, consumed: 0 });
}

#[test]
fn read_overwrites_with_zero_once_input_is_exhausted() {
    let program = precompile(b",.,.", OptimizationLevel::Speed).unwrap();
    let mut out = Vec::new();
    let outcome = interpret(&[9], &mut out, program, |_| {}).unwrap();
    assert_eq!(out, vec![9, 0]);
    assert_eq!(outcome, Outcome { halted: true, consumed: 1 });
}

#[test]
fn clearing_loop_on_zero_cell_halts_at_once() {
    let program = precompile(b"[-]", OptimizationLevel::Off).unwrap();
    let mut out = Vec::new();
    let mut steps = 0;
    let outcome = interpret(&[], &mut out, program, |_| steps += 1).unwrap();
    assert_eq!(out, vec![]);
    assert!(outcome.halted);
    assert_eq!(steps, 1);
}

#[test]
fn output_is_appended() {
    let program = precompile(b"+.+.", OptimizationLevel::Off).unwrap();
    let mut out = vec![7, 8];
    interpret(&[], &mut out, program, |_| {}).unwrap();
    assert_eq!(out, vec![7, 8, 1, 2]);
}

#[test]
fn limit_stops_an_endless_loop() {
    let program = precompile(b"+[.]", OptimizationLevel::Off).unwrap();
    let mut out = Vec::new();
    let mut calls = 0;
    let outcome = interpret_within(&[], &mut out, program, |_| calls += 1, 6).unwrap();
    assert_eq!(outcome, Outcome { halted: false, consumed: 0 });
    // `+`, `[`, then `.` and `]` twice
    assert_eq!(out, vec![1, 1]);
    assert_eq!(calls, 6);
}

#[test]
fn limit_that_is_just_enough_reports_the_halt() {
    let program = precompile(b"+.", OptimizationLevel::Off).unwrap();
    let mut out = Vec::new();
    assert_eq!(
        interpret_within(&[], &mut out, program.clone(), |_| {}, 2),
        Ok(Outcome { halted: true, consumed: 0 }),
    );
    let mut out = Vec::new();
    assert_eq!(
        interpret_within(&[], &mut out, program.clone(), |_| {}, 1),
        Ok(Outcome { halted: false, consumed: 0 }),
    );
    assert_eq!(out, vec![]);
    let mut out = Vec::new();
    assert_eq!(
        interpret_within(&[], &mut out, program, |_| {}, 0),
        Ok(Outcome { halted: false, consumed: 0 }),
    );
}

#[test]
fn increment_then_decrement_restores_the_cell() {
    for n in [0usize, 1, 2, 100, 255, 256, 257, 1000, usize::MAX] {
        let out = test_interpret_output(vec![Increment(37), Increment(n), Decrement(n), Write]);
        assert_eq!(out, vec![37]);
    }
}

#[test]
fn two_hundred_fifty_six_increments_restore_the_cell() {
    let mut program = vec![Increment(5)];
    for _ in 0..256 {
        program.push(Increment(1));
    }
    program.push(Write);
    assert_eq!(test_interpret_output(program), vec![5]);
}

#[test]
fn right_then_left_restores_pointer_and_cells() {
    let mut seen = Vec::new();
    let mut out = Vec::new();
    interpret(
        &[],
        &mut out,
        vec![Increment(3), Right(2), Increment(4), Right(5), Left(5), Write, Left(2), Write],
        |state| seen.push((state.current_pointer, state.memory.iter().cloned().collect::<Vec<u8>>())),
    )
    .unwrap();
    assert_eq!(out, vec![4, 3]);
    assert_eq!(seen[2], (2, vec![3, 0, 4]));
    assert_eq!(seen[3], (7, vec![3, 0, 4, 0, 0, 0, 0, 0]));
    assert_eq!(seen[4], (2, vec![3, 0, 4, 0, 0, 0, 0, 0]));
    assert_eq!(seen[6], (0, vec![3, 0, 4, 0, 0, 0, 0, 0]));
}

#[test]
fn both_levels_emit_and_consume_the_same() {
    let sources: [&[u8]; 4] = [
        b",>,>,<<[->+>+<<]>>[-<<+>>]<.<.<.",
        b"++++[>+++++<-]>[<+>-]<.,.,.",
        b",[.,]",
        b"+++>>><<<---..",
    ];
    for source in sources {
        let plain = precompile(source, OptimizationLevel::Off).unwrap();
        let fast = precompile(source, OptimizationLevel::Speed).unwrap();
        let mut plain_out = Vec::new();
        let mut fast_out = Vec::new();
        let a = interpret(&[3, 1, 4, 1, 5], &mut plain_out, plain, |_| {}).unwrap();
        let b = interpret(&[3, 1, 4, 1, 5], &mut fast_out, fast, |_| {}).unwrap();
        assert_eq!(plain_out, fast_out);
        assert_eq!(a, b);
    }
}
