//! From source bytes to a program.

use vstd::prelude::*;
use std::collections::VecDeque;
use crate::error::Error;
use crate::instruction::Instruction;
use crate::nesting::{
    close_of, delta, depth, find_open, law_close_has_its_open, lemma_push, lemma_push_zero,
    lemma_well_nested_lowest, lowest, open_of, shape, well_nested,
};
use crate::optlevel::OptimizationLevel;

verus! {

/// Loops are rarely nested deeper than this; the stack of open loops starts
/// out with room for as many.
pub const MAX_NESTED_JUMPS: usize = 15;

/// The byte `>`.
pub const RIGHT: u8 = 0x3e;

/// The byte `<`.
pub const LEFT: u8 = 0x3c;

/// The byte `+`.
pub const PLUS: u8 = 0x2b;

/// The byte `-`.
pub const MINUS: u8 = 0x2d;

/// The byte `.`.
pub const DOT: u8 = 0x2e;

/// The byte `,`.
pub const COMMA: u8 = 0x2c;

/// The byte `[`.
pub const OPEN: u8 = 0x5b;

/// The byte `]`.
pub const CLOSE: u8 = 0x5d;

/// The instruction a source byte stands for; `None` for every byte that is
/// not one of `> < + - . , [ ]`.
pub open spec fn token(byte: u8) -> Option<Instruction> {
    if byte == RIGHT {
        Some(Instruction::Right(1))
    } else if byte == LEFT {
        Some(Instruction::Left(1))
    } else if byte == PLUS {
        Some(Instruction::Increment(1))
    } else if byte == MINUS {
        Some(Instruction::Decrement(1))
    } else if byte == DOT {
        Some(Instruction::Write)
    } else if byte == COMMA {
        Some(Instruction::Read)
    } else if byte == OPEN {
        Some(Instruction::JumpForwardIfZero { matching: None })
    } else if byte == CLOSE {
        Some(Instruction::JumpBackwardUnlessZero { matching: 0 })
    } else {
        None
    }
}

/// The source with every byte that is no instruction dropped, one
/// instruction of count 1 for each byte that is left.
pub open spec fn unit_tokens(source: Seq<u8>) -> Seq<Instruction>
    decreases source.len(),
{
    if source.len() == 0 {
        Seq::empty()
    } else {
        let before = unit_tokens(source.drop_last());
        match token(source.last()) {
            Some(t) => before.push(t),
            None => before,
        }
    }
}

/// Two neighbours of the same repeatable kind as one instruction; `None`
/// where they do not fuse.
pub open spec fn fused(first: Instruction, second: Instruction) -> Option<Instruction> {
    match (first, second) {
        (Instruction::Right(n), Instruction::Right(m)) => Some(Instruction::Right((n + m) as usize)),
        (Instruction::Left(n), Instruction::Left(m)) => Some(Instruction::Left((n + m) as usize)),
        (Instruction::Increment(n), Instruction::Increment(m)) => Some(
            Instruction::Increment((n + m) as usize),
        ),
        (Instruction::Decrement(n), Instruction::Decrement(m)) => Some(
            Instruction::Decrement((n + m) as usize),
        ),
        _ => None,
    }
}

/// `tokens` with every maximal run of the same repeatable kind fused into
/// one instruction that carries the length of the run.
pub open spec fn fuse(tokens: Seq<Instruction>) -> Seq<Instruction>
    decreases tokens.len(),
{
    if tokens.len() == 0 {
        Seq::empty()
    } else {
        let before = fuse(tokens.drop_last());
        if before.len() > 0 && fused(before.last(), tokens.last()) is Some {
            before.drop_last().push(fused(before.last(), tokens.last())->Some_0)
        } else {
            before.push(tokens.last())
        }
    }
}

/// The instructions of `source` at the given level, jumps not yet resolved.
pub open spec fn tokens(source: Seq<u8>, opt: OptimizationLevel) -> Seq<Instruction> {
    match opt {
        OptimizationLevel::Off => unit_tokens(source),
        OptimizationLevel::Speed => fuse(unit_tokens(source)),
    }
}

/// `unresolved` with the target of every `]` set to one past its matching `[`.
pub open spec fn linked(unresolved: Seq<Instruction>) -> Seq<Instruction> {
    Seq::new(
        unresolved.len(),
        |j: int|
            if unresolved[j] is JumpBackwardUnlessZero && open_of(unresolved, j) is Some {
                Instruction::JumpBackwardUnlessZero {
                    matching: (open_of(unresolved, j)->Some_0 + 1) as usize,
                }
            } else {
                unresolved[j]
            },
    )
}

/// What `precompile` makes of well-nested source.
pub open spec fn compiled(source: Seq<u8>, opt: OptimizationLevel) -> Seq<Instruction> {
    linked(tokens(source, opt))
}

/// What a source byte adds to the nesting depth.
pub open spec fn bracket(byte: u8) -> int {
    if byte == OPEN {
        1
    } else if byte == CLOSE {
        -1
    } else {
        0
    }
}

/// The shape of source text: `1` for each `[`, `-1` for each `]`, `0` for
/// every other byte.
pub open spec fn source_shape(source: Seq<u8>) -> Seq<int> {
    Seq::new(source.len(), |k: int| bracket(source[k]))
}

/// The brackets of `source` nest: each `]` closes a `[` that is open, and
/// none is left open.
pub open spec fn balanced(source: Seq<u8>) -> bool {
    well_nested(source_shape(source))
}

/// Dropping the bytes that are no instruction changes nothing about the
/// nesting.
proof fn lemma_unit_tokens_nesting(source: Seq<u8>)
    ensures
        lowest(shape(unit_tokens(source))) == lowest(source_shape(source)),
        depth(shape(unit_tokens(source)), unit_tokens(source).len() as int) == depth(
            source_shape(source),
            source.len() as int,
        ),
    decreases source.len(),
{
    if source.len() > 0 {
        let before = source.drop_last();
        lemma_unit_tokens_nesting(before);
        assert(source_shape(source) =~= source_shape(before).push(bracket(source.last())));
        lemma_push(source_shape(before), bracket(source.last()));
        match token(source.last()) {
            Some(t) => {
                assert(shape(unit_tokens(source)) =~= shape(unit_tokens(before)).push(delta(t)));
                lemma_push(shape(unit_tokens(before)), delta(t));
            },
            None => {
                lemma_push_zero(source_shape(before));
            },
        }
    } else {
        assert(shape(unit_tokens(source)) =~= source_shape(source));
    }
}

/// Fusing changes nothing about the nesting.
proof fn lemma_fuse_nesting(unfused: Seq<Instruction>)
    ensures
        lowest(shape(fuse(unfused))) == lowest(shape(unfused)),
        depth(shape(fuse(unfused)), fuse(unfused).len() as int) == depth(
            shape(unfused),
            unfused.len() as int,
        ),
    decreases unfused.len(),
{
    if unfused.len() > 0 {
        let before = unfused.drop_last();
        let x = unfused.last();
        lemma_fuse_nesting(before);
        assert(shape(unfused) =~= shape(before).push(delta(x)));
        lemma_push(shape(before), delta(x));
        let f = fuse(before);
        if f.len() > 0 && fused(f.last(), x) is Some {
            assert(shape(fuse(unfused)) =~= shape(f));
            lemma_push_zero(shape(before));
        } else {
            assert(shape(fuse(unfused)) =~= shape(f).push(delta(x)));
            lemma_push(shape(f), delta(x));
        }
    } else {
        assert(shape(fuse(unfused)) =~= shape(unfused));
    }
}

/// At either level the instructions of a source nest exactly when its
/// brackets do.
pub proof fn law_tokens_nest_as_source(source: Seq<u8>, opt: OptimizationLevel)
    ensures
        well_nested(shape(tokens(source, opt))) <==> balanced(source),
{
    lemma_unit_tokens_nesting(source);
    lemma_fuse_nesting(unit_tokens(source));
    lemma_well_nested_lowest(shape(tokens(source, opt)));
    lemma_well_nested_lowest(source_shape(source));
}

/// Fusion leaves no two neighbours that could be fused: every run it made is
/// as long as it can be.
pub proof fn law_fuse_is_maximal(unfused: Seq<Instruction>)
    ensures
        forall|i: int|
            0 <= i < fuse(unfused).len() - 1 ==> fused(
                #[trigger] fuse(unfused)[i],
                fuse(unfused)[i + 1],
            ) is None,
    decreases unfused.len(),
{
    if unfused.len() > 0 {
        let before = fuse(unfused.drop_last());
        law_fuse_is_maximal(unfused.drop_last());
        let after = fuse(unfused);
        assert forall|i: int| 0 <= i < after.len() - 1 implies fused(
            #[trigger] after[i],
            after[i + 1],
        ) is None by {
            if i + 1 < before.len() - 1 {
                assert(fused(before[i], before[i + 1]) is None);
            } else if i + 1 == before.len() - 1 {
                assert(fused(before[i], before[i + 1]) is None);
            }
        }
    }
}

/// Resolving the targets of the `]` changes no instruction's kind.
pub proof fn lemma_linked_shape(unresolved: Seq<Instruction>)
    ensures
        linked(unresolved).len() == unresolved.len(),
        shape(linked(unresolved)) == shape(unresolved),
{
    assert(shape(linked(unresolved)) =~= shape(unresolved));
}

/// In the program compiled from balanced source, the target of every `]` is
/// one past the `[` that it closes.
pub proof fn law_targets_follow_matching_open(source: Seq<u8>, opt: OptimizationLevel, close: int)
    requires
        balanced(source),
        0 <= close < compiled(source, opt).len(),
        compiled(source, opt)[close] is JumpBackwardUnlessZero,
    ensures
        ({
            let program = compiled(source, opt);
            &&& well_nested(shape(program))
            &&& open_of(program, close) matches Some(open)
            &&& 0 <= open < close
            &&& program[open] is JumpForwardIfZero
            &&& close_of(program, open) == Some(close)
            &&& program[close] == (Instruction::JumpBackwardUnlessZero {
                matching: (open + 1) as usize,
            })
        }),
{
    let unresolved = tokens(source, opt);
    let program = compiled(source, opt);
    law_tokens_nest_as_source(source, opt);
    lemma_linked_shape(unresolved);
    law_close_has_its_open(program, close);
    law_close_has_its_open(unresolved, close);
}

/// No instruction of `tokens` carries a count above `bound`.
pub open spec fn counts_within(tokens: Seq<Instruction>, bound: int) -> bool {
    forall|k: int| 0 <= k < tokens.len() ==> #[trigger] tokens[k].count() <= bound
}

/// Lexes `bytes` at the given level.
fn tokenize(bytes: &[u8], opt: OptimizationLevel) -> (out: Vec<Instruction>)
    ensures
        out@ == tokens(bytes@, opt),
{
    let group = match opt {
        OptimizationLevel::Off => false,
        OptimizationLevel::Speed => true,
    };
    let mut out: Vec<Instruction> = Vec::new();
    let ghost mut plain: Seq<Instruction> = Seq::empty();
    let mut i: usize = 0;
    while i < bytes.len()
        invariant
            i <= bytes.len(),
            group == (opt is Speed),
            plain == unit_tokens(bytes@.take(i as int)),
            out@ == if group { fuse(plain) } else { plain },
            out@.len() <= i,
            counts_within(out@, i as int),
        decreases bytes.len() - i,
    {
        let byte = bytes[i];
        proof {
            assert(bytes@.take(i + 1).drop_last() =~= bytes@.take(i as int));
            assert(bytes@.take(i + 1).last() == byte);
        }
        let next = if byte == RIGHT {
            Some(Instruction::Right(1))
        } else if byte == LEFT {
            Some(Instruction::Left(1))
        } else if byte == PLUS {
            Some(Instruction::Increment(1))
        } else if byte == MINUS {
            Some(Instruction::Decrement(1))
        } else if byte == DOT {
            Some(Instruction::Write)
        } else if byte == COMMA {
            Some(Instruction::Read)
        } else if byte == OPEN {
            Some(Instruction::JumpForwardIfZero { matching: None })
        } else if byte == CLOSE {
            Some(Instruction::JumpBackwardUnlessZero { matching: 0 })
        } else {
            None
        };
        assert(next == token(byte));
        if let Some(t) = next {
            let ghost before = out@;
            proof {
                assert(plain.push(t).drop_last() =~= plain);
                plain = plain.push(t);
            }
            let merged = if group && out.len() > 0 {
                assert(out@[out@.len() - 1].count() <= i);
                match (out[out.len() - 1], t) {
                    (Instruction::Right(n), Instruction::Right(_)) => Some(Instruction::Right(n + 1)),
                    (Instruction::Left(n), Instruction::Left(_)) => Some(Instruction::Left(n + 1)),
                    (Instruction::Increment(n), Instruction::Increment(_)) => Some(
                        Instruction::Increment(n + 1),
                    ),
                    (Instruction::Decrement(n), Instruction::Decrement(_)) => Some(
                        Instruction::Decrement(n + 1),
                    ),
                    _ => None,
                }
            } else {
                None
            };
            match merged {
                Some(m) => {
                    assert(fused(before.last(), t) == Some(m));
                    out.pop();
                    out.push(m);
                    assert(out@ =~= before.drop_last().push(m));
                },
                None => {
                    out.push(t);
                },
            }
        }
        i = i + 1;
    }
    proof {
        assert(bytes@.take(bytes@.len() as int) =~= bytes@);
    }
    out
}

/// Resolves the jumps of `unresolved` with a stack of the loops that are open.
fn link(unresolved: Vec<Instruction>) -> (r: Result<Vec<Instruction>, Error>)
    ensures
        r is Ok <==> well_nested(shape(unresolved@)),
        r matches Ok(program) ==> program@ == linked(unresolved@),
        r matches Err(e) ==> e == Error::MismatchedJump,
{
    let ghost s = shape(unresolved@);
    let mut program: Vec<Instruction> = Vec::new();
    let mut open: VecDeque<usize> = VecDeque::with_capacity(MAX_NESTED_JUMPS);
    let mut i: usize = 0;
    while i < unresolved.len()
        invariant
            i <= unresolved.len(),
            s == shape(unresolved@),
            program@ == linked(unresolved@).take(i as int),
            open@.len() == depth(s, i as int),
            forall|k: int| 0 <= k <= i ==> depth(s, k) >= 0,
            forall|l: int|
                1 <= l <= open@.len() ==> #[trigger] find_open(s, i - 1, l) == Some(
                    open@[open@.len() - l] as int,
                ),
        decreases unresolved.len() - i,
    {
        let instruction = unresolved[i];
        let ghost before = open@;
        assert(s[i as int] == delta(instruction));
        match instruction {
            Instruction::JumpForwardIfZero { .. } => {
                open.push_back(i);
                program.push(instruction);
                assert forall|l: int| 1 <= l <= open@.len() implies #[trigger] find_open(
                    s,
                    i as int,
                    l,
                ) == Some(open@[open@.len() - l] as int) by {
                    if l > 1 {
                        assert(find_open(s, i - 1, l - 1) == Some(
                            before[before.len() - (l - 1)] as int,
                        ));
                    }
                }
            },
            Instruction::JumpBackwardUnlessZero { .. } => {
                match open.pop_back() {
                    Some(o) => {
                        assert(find_open(s, i - 1, 1) == Some(o as int));
                        proof {
                            crate::nesting::lemma_find_open_bounds(s, i - 1, 1);
                        }
                        program.push(Instruction::JumpBackwardUnlessZero { matching: o + 1 });
                        assert forall|l: int| 1 <= l <= open@.len() implies #[trigger] find_open(
                            s,
                            i as int,
                            l,
                        ) == Some(open@[open@.len() - l] as int) by {
                            assert(find_open(s, i - 1, l + 1) == Some(
                                before[before.len() - (l + 1)] as int,
                            ));
                        }
                    },
                    None => {
                        assert(depth(s, i + 1) < 0);
                        return Err(Error::MismatchedJump);
                    },
                }
            },
            _ => {
                program.push(instruction);
                assert forall|l: int| 1 <= l <= open@.len() implies #[trigger] find_open(
                    s,
                    i as int,
                    l,
                ) == Some(open@[open@.len() - l] as int) by {
                    assert(find_open(s, i - 1, l) == Some(before[before.len() - l] as int));
                }
            },
        }
        proof {
            assert(program@ =~= linked(unresolved@).take(i + 1));
        }
        i = i + 1;
    }
    if open.len() != 0 {
        return Err(Error::MismatchedJump);
    }
    proof {
        assert(linked(unresolved@).take(unresolved@.len() as int) =~= linked(unresolved@));
    }
    Ok(program)
}

/// Compiles `bytes` into a program.
///
/// Bytes that are no instruction are dropped first. At level `Speed` every
/// maximal run of the same one of `> < + -` becomes one instruction; `.`,
/// `,`, `[` and `]` are never fused. The target of each `]` is one past its
/// matching `[`; the target of a `[` is left for the machine to find when it
/// first needs it. Source whose brackets do not nest has no program.
pub fn precompile(bytes: &[u8], opt: OptimizationLevel) -> (r: Result<Vec<Instruction>, Error>)
    ensures
        r is Ok <==> balanced(bytes@),
        r matches Ok(program) ==> program@ == compiled(bytes@, opt),
        r matches Err(e) ==> e == Error::MismatchedJump,
{
    proof {
        law_tokens_nest_as_source(bytes@, opt);
    }
    link(tokenize(bytes, opt))
}

} // verus!
