//! How the jump instructions of a program nest, and which jump matches which.
//!
//! Everything here is stated over the shape of a program: the sequence that
//! holds `1` where the program opens a loop, `-1` where it closes one and `0`
//! elsewhere.

use vstd::prelude::*;
use crate::instruction::Instruction;

verus! {

/// What an instruction adds to the nesting depth.
pub open spec fn delta(instruction: Instruction) -> int {
    match instruction {
        Instruction::JumpForwardIfZero { .. } => 1,
        Instruction::JumpBackwardUnlessZero { .. } => -1,
        _ => 0,
    }
}

/// The shape of a program.
pub open spec fn shape(program: Seq<Instruction>) -> Seq<int> {
    Seq::new(program.len(), |k: int| delta(program[k]))
}

/// The nesting depth after the first `i` entries of `s`.
pub open spec fn depth(s: Seq<int>, i: int) -> int
    decreases i,
{
    if i <= 0 {
        0
    } else {
        depth(s, i - 1) + s[i - 1]
    }
}

/// Every loop that is closed was opened before, and every loop that is
/// opened is closed.
pub open spec fn well_nested(s: Seq<int>) -> bool {
    &&& forall|i: int| 0 <= i <= s.len() ==> depth(s, i) >= 0
    &&& depth(s, s.len() as int) == 0
}

/// Scanning forward from `j` with `level` loops open: where the outermost of
/// them is closed.
pub open spec fn find_close(s: Seq<int>, j: int, level: int) -> Option<int>
    decreases s.len() - j,
{
    if j < 0 || j >= s.len() {
        None
    } else if s[j] == 1 {
        find_close(s, j + 1, level + 1)
    } else if s[j] == -1 {
        if level <= 1 {
            Some(j)
        } else {
            find_close(s, j + 1, level - 1)
        }
    } else {
        find_close(s, j + 1, level)
    }
}

/// Scanning backward from `j` with `level` loops to leave: where the
/// outermost of them was opened.
pub open spec fn find_open(s: Seq<int>, j: int, level: int) -> Option<int>
    decreases j + 1,
{
    if j < 0 || j >= s.len() {
        None
    } else if s[j] == -1 {
        find_open(s, j - 1, level + 1)
    } else if s[j] == 1 {
        if level <= 1 {
            Some(j)
        } else {
            find_open(s, j - 1, level - 1)
        }
    } else {
        find_open(s, j - 1, level)
    }
}

/// The index of the `]` that matches the `[` at `open`, if there is one.
pub open spec fn close_of(program: Seq<Instruction>, open: int) -> Option<int> {
    find_close(shape(program), open + 1, 1)
}

/// The index of the `[` that matches the `]` at `close`, if there is one.
pub open spec fn open_of(program: Seq<Instruction>, close: int) -> Option<int> {
    find_open(shape(program), close - 1, 1)
}

/// A forward scan that succeeds ends on a `-1` at or after its start.
pub proof fn lemma_find_close_bounds(s: Seq<int>, j: int, level: int)
    requires
        0 <= j,
    ensures
        find_close(s, j, level) matches Some(c) ==> j <= c < s.len() && s[c] == -1,
    decreases s.len() - j,
{
    if j < s.len() {
        if s[j] == 1 {
            lemma_find_close_bounds(s, j + 1, level + 1);
        } else if s[j] == -1 {
            if level > 1 {
                lemma_find_close_bounds(s, j + 1, level - 1);
            }
        } else {
            lemma_find_close_bounds(s, j + 1, level);
        }
    }
}

/// A backward scan that succeeds ends on a `1` at or before its start.
pub proof fn lemma_find_open_bounds(s: Seq<int>, j: int, level: int)
    requires
        j < s.len(),
    ensures
        find_open(s, j, level) matches Some(o) ==> 0 <= o <= j && s[o] == 1,
    decreases j + 1,
{
    if j >= 0 {
        if s[j] == -1 {
            lemma_find_open_bounds(s, j - 1, level + 1);
        } else if s[j] == 1 {
            if level > 1 {
                lemma_find_open_bounds(s, j - 1, level - 1);
            }
        } else {
            lemma_find_open_bounds(s, j - 1, level);
        }
    }
}

/// The depth of a prefix does not depend on what follows it.
pub proof fn lemma_depth_prefix(a: Seq<int>, b: Seq<int>, i: int)
    requires
        0 <= i <= a.len(),
        i <= b.len(),
        forall|k: int| 0 <= k < i ==> a[k] == b[k],
    ensures
        depth(a, i) == depth(b, i),
    decreases i,
{
    if i > 0 {
        lemma_depth_prefix(a, b, i - 1);
    }
}

/// Every entry is `1`, `-1` or `0`, as in the shape of a program.
pub open spec fn is_shape(s: Seq<int>) -> bool {
    forall|k: int| 0 <= k < s.len() ==> -1 <= #[trigger] s[k] <= 1
}

/// The least nesting depth that any prefix of `s` ends at.
pub open spec fn lowest(s: Seq<int>) -> int
    decreases s.len(),
{
    if s.len() == 0 {
        0
    } else {
        let before = lowest(s.drop_last());
        let here = depth(s, s.len() as int);
        if here < before {
            here
        } else {
            before
        }
    }
}

/// No prefix ends deeper down than `lowest`, and some prefix ends there.
pub proof fn lemma_lowest(s: Seq<int>)
    ensures
        forall|i: int| 0 <= i <= s.len() ==> lowest(s) <= depth(s, i),
        exists|i: int| 0 <= i <= s.len() && lowest(s) == depth(s, i),
    decreases s.len(),
{
    if s.len() == 0 {
        assert(lowest(s) == depth(s, 0));
    } else {
        let before = s.drop_last();
        lemma_lowest(before);
        assert forall|i: int| 0 <= i <= s.len() implies lowest(s) <= depth(s, i) by {
            if i < s.len() {
                lemma_depth_prefix(s, before, i);
            }
        }
        let w = choose|i: int| 0 <= i <= before.len() && lowest(before) == depth(before, i);
        lemma_depth_prefix(s, before, w);
        if depth(s, s.len() as int) < lowest(before) {
            assert(lowest(s) == depth(s, s.len() as int));
        } else {
            assert(lowest(s) == depth(s, w));
        }
    }
}

/// A sequence is well nested when no prefix ends below zero and the whole
/// ends at zero.
pub proof fn lemma_well_nested_lowest(s: Seq<int>)
    ensures
        well_nested(s) <==> lowest(s) == 0 && depth(s, s.len() as int) == 0,
{
    lemma_lowest(s);
    assert(depth(s, 0) == 0);
}

/// What one more entry does to the depth and to the lowest depth.
pub proof fn lemma_push(s: Seq<int>, d: int)
    ensures
        depth(s.push(d), (s.len() + 1) as int) == depth(s, s.len() as int) + d,
        lowest(s.push(d)) == if depth(s, s.len() as int) + d < lowest(s) {
            depth(s, s.len() as int) + d
        } else {
            lowest(s)
        },
{
    let t = s.push(d);
    assert(t.drop_last() =~= s);
    lemma_depth_prefix(t, s, s.len() as int);
}

/// Entries that change no depth change nothing about the nesting.
pub proof fn lemma_push_zero(s: Seq<int>)
    ensures
        depth(s.push(0), (s.len() + 1) as int) == depth(s, s.len() as int),
        lowest(s.push(0)) == lowest(s),
{
    lemma_push(s, 0);
    lemma_lowest(s);
}

/// Where a backward scan ends, a forward scan from there comes back to the
/// place that the backward scan started from.
pub proof fn lemma_open_then_close(s: Seq<int>, j: int, level: int)
    requires
        level >= 1,
        j < s.len(),
        find_open(s, j, level) is Some,
    ensures
        find_close(s, find_open(s, j, level)->Some_0 + 1, 1) == find_close(s, j + 1, level),
    decreases j + 1,
{
    if j >= 0 {
        if s[j] == -1 {
            lemma_open_then_close(s, j - 1, level + 1);
        } else if s[j] == 1 {
            if level > 1 {
                lemma_open_then_close(s, j - 1, level - 1);
            }
        } else {
            lemma_open_then_close(s, j - 1, level);
        }
    }
}

/// Where a forward scan ends, a backward scan from there comes back to the
/// place that the forward scan started from.
pub proof fn lemma_close_then_open(s: Seq<int>, j: int, level: int)
    requires
        level >= 1,
        0 <= j,
        find_close(s, j, level) is Some,
    ensures
        find_open(s, find_close(s, j, level)->Some_0 - 1, 1) == find_open(s, j - 1, level),
    decreases s.len() - j,
{
    if j < s.len() {
        if s[j] == 1 {
            lemma_close_then_open(s, j + 1, level + 1);
        } else if s[j] == -1 {
            if level > 1 {
                lemma_close_then_open(s, j + 1, level - 1);
            }
        } else {
            lemma_close_then_open(s, j + 1, level);
        }
    }
}

/// A backward scan finds its `1` when that many loops are open where it starts.
pub proof fn lemma_find_open_exists(s: Seq<int>, j: int, level: int)
    requires
        is_shape(s),
        -1 <= j < s.len(),
        1 <= level <= depth(s, j + 1),
        forall|i: int| 0 <= i <= s.len() ==> depth(s, i) >= 0,
    ensures
        find_open(s, j, level) is Some,
    decreases j + 1,
{
    if j >= 0 {
        if s[j] == -1 {
            lemma_find_open_exists(s, j - 1, level + 1);
        } else if s[j] == 1 {
            if level > 1 {
                lemma_find_open_exists(s, j - 1, level - 1);
            }
        } else {
            lemma_find_open_exists(s, j - 1, level);
        }
    }
}

/// A forward scan finds its `-1` when the loops that are open where it
/// starts are all closed in the end.
pub proof fn lemma_find_close_exists(s: Seq<int>, j: int, level: int)
    requires
        is_shape(s),
        0 <= j <= s.len(),
        1 <= level <= depth(s, j),
        depth(s, s.len() as int) == 0,
    ensures
        find_close(s, j, level) is Some,
    decreases s.len() - j,
{
    if j < s.len() {
        if s[j] == 1 {
            lemma_find_close_exists(s, j + 1, level + 1);
        } else if s[j] == -1 {
            if level > 1 {
                lemma_find_close_exists(s, j + 1, level - 1);
            }
        } else {
            lemma_find_close_exists(s, j + 1, level);
        }
    }
}

/// In a well-nested program every `]` has its `[`, which lies before it and
/// whose own `]` it is.
pub proof fn law_close_has_its_open(program: Seq<Instruction>, close: int)
    requires
        well_nested(shape(program)),
        0 <= close < program.len(),
        program[close] is JumpBackwardUnlessZero,
    ensures
        open_of(program, close) is Some,
        0 <= open_of(program, close)->Some_0 < close,
        program[open_of(program, close)->Some_0] is JumpForwardIfZero,
        close_of(program, open_of(program, close)->Some_0) == Some(close),
{
    let s = shape(program);
    assert(s[close] == -1);
    assert(depth(s, close + 1) >= 0);
    lemma_find_open_exists(s, close - 1, 1);
    lemma_find_open_bounds(s, close - 1, 1);
    lemma_open_then_close(s, close - 1, 1);
    let open = open_of(program, close)->Some_0;
    assert(s[open] == delta(program[open]));
}

/// In a well-nested program every `[` has its `]`, which lies after it and
/// whose own `[` it is.
pub proof fn law_open_has_its_close(program: Seq<Instruction>, open: int)
    requires
        well_nested(shape(program)),
        0 <= open < program.len(),
        program[open] is JumpForwardIfZero,
    ensures
        close_of(program, open) is Some,
        open < close_of(program, open)->Some_0 < program.len(),
        program[close_of(program, open)->Some_0] is JumpBackwardUnlessZero,
        open_of(program, close_of(program, open)->Some_0) == Some(open),
{
    let s = shape(program);
    assert(s[open] == 1);
    assert(depth(s, open) >= 0);
    assert(depth(s, open + 1) == depth(s, open) + 1);
    lemma_find_close_exists(s, open + 1, 1);
    lemma_find_close_bounds(s, open + 1, 1);
    lemma_close_then_open(s, open + 1, 1);
    let close = close_of(program, open)->Some_0;
    assert(s[close] == delta(program[close]));
}

} // verus!
