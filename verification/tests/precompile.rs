use brainfuck::precompile::MAX_NESTED_JUMPS;
use brainfuck::Instruction::{
    Decrement, Increment, JumpBackwardUnlessZero, JumpForwardIfZero, Left, Read, Right, Write,
};
use brainfuck::{precompile, Error, Instruction, OptimizationLevel};

fn test_precompile(input: &[u8], opt: OptimizationLevel, expected: Vec<Instruction>) {
    assert_eq!(precompile(input, opt), Ok(expected));
}

#[test]
fn optimization_levels() {
    // A program with no groups of adjacent instructions
    const NO_GROUPS: &'static [u8] = b"><[.][.][,],+-.>-,+";

    let no_groups_instructions = vec![
        Right(1),
        Left(1),
        JumpForwardIfZero { matching: None },
        Write,
        JumpBackwardUnlessZero { matching: 3 },
        JumpForwardIfZero { matching: None },
        Write,
        JumpBackwardUnlessZero { matching: 6 },
        JumpForwardIfZero { matching: None },
        Read,
        JumpBackwardUnlessZero { matching: 9 },
        Read,
        Increment(1),
        Decrement(1),
        Write,
        Right(1),
        Decrement(1),
        Read,
        Increment(1),
    ];

    // With no groups in the source the level makes no difference
    test_precompile(NO_GROUPS, OptimizationLevel::Off, no_groups_instructions.clone());
    test_precompile(NO_GROUPS, OptimizationLevel::Speed, no_groups_instructions.clone());

    // Groups beside single instructions; writes, reads and jumps stay apart
    // even where they stand side by side
    const SOME_GROUPS: &'static [u8] = b"><>>>++-[[[<+,-.>]]]...,,,,++++---<<<>>>[>>.,]";
    test_precompile(SOME_GROUPS, OptimizationLevel::Off, vec![
        Right(1),
        Left(1),
        Right(1),
        Right(1),
        Right(1),
        Increment(1),
        Increment(1),
        Decrement(1),
        JumpForwardIfZero { matching: None },
        JumpForwardIfZero { matching: None },
        JumpForwardIfZero { matching: None },
        Left(1),
        Increment(1),
        Read,
        Decrement(1),
        Write,
        Right(1),
        JumpBackwardUnlessZero { matching: 11 },
        JumpBackwardUnlessZero { matching: 10 },
        JumpBackwardUnlessZero { matching: 9 },
        Write,
        Write,
        Write,
        Read,
        Read,
        Read,
        Read,
        Increment(1),
        Increment(1),
        Increment(1),
        Increment(1),
        Decrement(1),
        Decrement(1),
        Decrement(1),
        Left(1),
        Left(1),
        Left(1),
        Right(1),
        Right(1),
        Right(1),
        JumpForwardIfZero { matching: None },
        Right(1),
        Right(1),
        Write,
        Read,
        JumpBackwardUnlessZero { matching: 41 },
    ]);
    test_precompile(SOME_GROUPS, OptimizationLevel::Speed, vec![
        Right(1),
        Left(1),
        Right(3),
        Increment(2),
        Decrement(1),
        JumpForwardIfZero { matching: None },
        JumpForwardIfZero { matching: None },
        JumpForwardIfZero { matching: None },
        Left(1),
        Increment(1),
        Read,
        Decrement(1),
        Write,
        Right(1),
        JumpBackwardUnlessZero { matching: 8 },
        JumpBackwardUnlessZero { matching: 7 },
        JumpBackwardUnlessZero { matching: 6 },
        Write,
        Write,
        Write,
        Read,
        Read,
        Read,
        Read,
        Increment(4),
        Decrement(3),
        Left(3),
        Right(3),
        JumpForwardIfZero { matching: None },
        Right(2),
        Write,
        Read,
        JumpBackwardUnlessZero { matching: 29 },
    ]);
}

#[test]
fn skip_unrecognized() {
    // Text between instructions vanishes before runs are fused, so the two
    // groups of `>>>` below are one run of six.
    test_precompile(b"
        [all of these should get skipped]

        >>>
        skip me skip me
        >>>
        <<<
        skip me skip me
        >++
        skip me skip me
        <--

        skip me skip me

        [#################################### SKIP ME #########################]
        .hellooooooooooooooooooooooooooo
        ,what's up, dog. did you notice the instructions I just hid
        ", OptimizationLevel::Speed, vec![
        JumpForwardIfZero { matching: None },
        JumpBackwardUnlessZero { matching: 1 },
        Right(6),
        Left(3),
        Right(1),
        Increment(2),
        Left(1),
        Decrement(2),
        JumpForwardIfZero { matching: None },
        JumpBackwardUnlessZero { matching: 9 },
        Write,
        Read,
        Read,
        Write,
    ]);
}

#[test]
fn skip_unrecognized_unfused() {
    test_precompile(b"a > b > c [ - ] d", OptimizationLevel::Off, vec![
        Right(1),
        Right(1),
        JumpForwardIfZero { matching: None },
        Decrement(1),
        JumpBackwardUnlessZero { matching: 3 },
    ]);
    test_precompile(b"no instruction here", OptimizationLevel::Speed, vec![]);
    test_precompile(b"", OptimizationLevel::Off, vec![]);
}

#[test]
fn fusion_joins_runs_across_dropped_bytes() {
    test_precompile(b"+ + +\n- -x-", OptimizationLevel::Speed, vec![Increment(3), Decrement(3)]);
    test_precompile(b"..,,[[]]", OptimizationLevel::Speed, vec![
        Write,
        Write,
        Read,
        Read,
        JumpForwardIfZero { matching: None },
        JumpForwardIfZero { matching: None },
        JumpBackwardUnlessZero { matching: 6 },
        JumpBackwardUnlessZero { matching: 5 },
    ]);
}

#[test]
fn over_max_expected_jumps() {
    let mut program = Vec::new();
    let mut expected = Vec::new();
    let mut program_tail = Vec::new();
    let mut expected_tail = Vec::new();
    for i in 1..(MAX_NESTED_JUMPS + 5) {
        program.push(b'[');
        expected.push(JumpForwardIfZero { matching: None });
        program_tail.insert(0, b']');
        expected_tail.insert(0, JumpBackwardUnlessZero { matching: i });
    }

    program.extend(program_tail);
    expected.extend(expected_tail);

    // This should not depend on the level
    test_precompile(&program, OptimizationLevel::Off, expected.clone());
    test_precompile(&program, OptimizationLevel::Speed, expected.clone());
}

fn test_mismatched(input: &[u8]) {
    assert_eq!(precompile(input, OptimizationLevel::Off), Err(Error::MismatchedJump));
    assert_eq!(precompile(input, OptimizationLevel::Speed), Err(Error::MismatchedJump));
}

#[test]
fn mismatched_jumps1() {
    test_mismatched(b"[");
}

#[test]
fn mismatched_jumps2() {
    test_mismatched(b"]");
}

#[test]
fn mismatched_jumps3() {
    test_mismatched(b"][");
}

#[test]
fn mismatched_jumps4() {
    test_mismatched(b"][]");
}

#[test]
fn mismatched_jumps5() {
    test_mismatched(b"][][");
}

#[test]
fn mismatched_jumps6() {
    test_mismatched(b"[]][]");
}

#[test]
fn mismatched_jumps7() {
    test_mismatched(b"[][[]");
}

#[test]
fn mismatched_jumps8() {
    test_mismatched(b"[][[]");
}

#[test]
fn mismatched_jumps9() {
    test_mismatched(b"[][[]]]");
}

#[test]
fn mismatched_jumps10() {
    test_mismatched(b"[[[[[[[[]]][][[[]]]]][[[]]]][[[[]]]]]");
}

#[test]
fn mismatched_jumps11() {
    test_mismatched(b"[][]]");
}

#[test]
fn targets_are_one_past_the_matching_open() {
    let program = precompile(b"+[>[-]<[->+<]]", OptimizationLevel::Off).unwrap();
    for (index, instruction) in program.iter().enumerate() {
        if let JumpBackwardUnlessZero { matching } = *instruction {
            assert!(matching >= 1);
            assert!(matches!(program[matching - 1], JumpForwardIfZero { .. }));
            let mut depth = 0usize;
            for between in &program[matching..index] {
                match between {
                    JumpForwardIfZero { .. } => depth += 1,
                    JumpBackwardUnlessZero { .. } => depth -= 1,
                    _ => {}
                }
            }
            assert_eq!(depth, 0);
        }
    }
    assert_eq!(program[5], JumpBackwardUnlessZero { matching: 4 });
    assert_eq!(program[12], JumpBackwardUnlessZero { matching: 8 });
    assert_eq!(program[13], JumpBackwardUnlessZero { matching: 2 });
}
