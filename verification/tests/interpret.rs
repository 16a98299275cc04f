use brainfuck::Instruction::{
    Decrement, Increment, JumpBackwardUnlessZero, JumpForwardIfZero, Left, Read, Right, Write,
};
use brainfuck::{Error, Instruction, Interpreter, Outcome};

fn run_output(program: Vec<Instruction>) -> Vec<u8> {
    let inp: &[u8] = &[];
    run_with_input(program, inp)
}

fn run_with_input(program: Vec<Instruction>, inp: &[u8]) -> Vec<u8> {
    let mut interpreter = Interpreter::from_streams(inp.to_vec(), Vec::new(), Vec::new());
    interpreter.interpret(program).unwrap();

    // This way anything reported beside the output is caught as well
    let mut out = interpreter.out().clone();
    out.extend(interpreter.err().iter());
    out
}

#[test]
fn interpret_basic_movements() {
    // Test to make sure basic movements are working
    assert_eq!(run_output(vec![
        Increment(1),
        Right(1),
        Increment(2),
        Right(1),
        Increment(3),
        Write,
        Left(1),
        Write,
        Left(1),
        Write,
    ]), vec![3, 2, 1]);
}

#[test]
fn interpret_wrapping() {
    assert_eq!(run_output(vec![
        Write,
        Decrement(1),
        Write,
        Increment(2),
        Write,
        Increment(256),
        Write,
        Decrement(255),
        Write,
        Decrement(1),
        Write,
        Decrement(1),
        Write,
        Decrement(1),
        Write,
        Increment(1),
        Write,
        Increment(1),
        Write,
        Increment(255 * 2),
        Write,
        Decrement(255 * 2),
        Write,
    ]), vec![0, 255, 1, 1, 2, 1, 0, 255, 0, 1, 255, 1]);
}

#[test]
fn interpret_move_left_past_zero() {
    // These movements end up back at the same spot on the tape.
    assert_eq!(run_output(vec![
        Increment(1),
        Right(1),
        Left(4),
        Right(3),
        Left(3),
        Right(3),
        Increment(1),
        Write,
    ]), vec![2]);
}

#[test]
fn interpret_move_right_past_capacity() {
    assert_eq!(run_output(vec![
        Increment(1),
        Right(10),
        // If the tape does not grow properly, this will fail
        Increment(1),
        Left(20),
        Right(20),
        Left(10),
        Right(15),
        Left(15),
        Increment(1),
        Write,
    ]), vec![2]);
}

#[test]
fn interpret_skip_first_loop() {
    // The first loop is always skipped, whatever is in it
    assert_eq!(run_output(vec![
        JumpForwardIfZero { matching: None },
        Right(1),
        Left(1),
        Increment(1),
        Decrement(2),
        Write,
        Read,
        JumpBackwardUnlessZero { matching: 1 },
    ]), vec![]);
}

#[test]
fn interpret_reading_input() {
    assert_eq!(run_with_input(vec![
        Write,
        Read,
        Write,
        Decrement(1),
        Write,
        Read,
        Write,
        Increment(1),
        Write,
        Right(1),
        Read, // reads overwrite each other
        Read,
        Right(1),
        Read,
        Right(1),
        Read,
        Left(2),
        Write,
        Right(1),
        Write,
        Right(1),
        Write,
        Left(3), // should not have changed
        Write,
        Read, // All reads past the end of input result in 0
        Write,
        Read,
        Read,
        Read,
        Read,
        Read,
        Read,
        Read,
        Write,
    ], &[ // input
        5,
        0,
        8,
        17,
        32,
        49,
    ]), vec![0, 5, 4, 0, 1, 17, 32, 49, 1, 0, 0]);
}

#[test]
fn interpret_basic_looping() {
    // This loop increments cell index 1 using cell index 0 as a loop counter
    // The result is x * y
    let x = 13;
    let y = 15;
    assert_eq!(run_output(vec![
        Increment(x),
        JumpForwardIfZero { matching: None },
        Right(1),
        Increment(y),
        Left(1),
        Decrement(1),
        JumpBackwardUnlessZero { matching: 2 },
        Right(1),
        Write,
    ]), vec![(x * y) as u8]);
}

#[test]
fn interpret_mismatched_jumps() {
    let mut interpreter = Interpreter::from_streams(Vec::new(), Vec::new(), Vec::new());
    let r = interpreter.interpret(vec![JumpForwardIfZero { matching: None }]);
    assert_eq!(r, Err(Error::MismatchedJump));
}

#[test]
fn interpret_takes_what_it_read_from_the_input() {
    let mut interpreter = Interpreter::new(vec![1, 2, 3], vec![9], Vec::new(), false, 25);
    let r = interpreter.interpret(vec![Read, Write, Read, Write]);
    assert_eq!(r, Ok(Outcome { halted: true, consumed: 2 }));
    assert_eq!(interpreter.out(), &vec![9, 1, 2]);
    assert_eq!(interpreter.inp(), &vec![3]);
    assert_eq!(interpreter.err(), &Vec::<u8>::new());
    assert!(!interpreter.debug());
    assert_eq!(interpreter.delay(), 25);
}

#[test]
fn from_streams_uses_the_default_settings() {
    let interpreter = Interpreter::from_streams(vec![4], vec![5], vec![6]);
    assert_eq!(interpreter.inp(), &vec![4]);
    assert_eq!(interpreter.out(), &vec![5]);
    assert_eq!(interpreter.err(), &vec![6]);
    assert!(!interpreter.debug());
    assert_eq!(interpreter.delay(), 0);
}
