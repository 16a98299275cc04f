//! Fusion changes how many steps a program takes, not what it does.

use vstd::prelude::*;
use crate::instruction::Instruction;
use crate::error::Error;
use crate::interpreter::{advance, lemma_settled_stays, result_of, run, settled, start, Run};
use crate::optlevel::OptimizationLevel;
use crate::laws::{law_add_nothing, law_add_twice, law_sub_twice};
use crate::machine::{cell_add, cell_sub};
use crate::machine::{cached, fault, halted, reads, sound, step, writes, zeros, State};
use crate::nesting::{
    close_of, delta, find_close, find_open, law_close_has_its_open, law_open_has_its_close,
    lemma_find_close_bounds, open_of, shape, well_nested,
};
use crate::precompile::{
    balanced, compiled, fuse, fused, law_tokens_nest_as_source, lemma_linked_shape, linked,
    tokens, unit_tokens,
};

verus! {

/// The instruction of count 1 that `instruction` repeats.
pub open spec fn unit(instruction: Instruction) -> Instruction {
    match instruction {
        Instruction::Right(_) => Instruction::Right(1),
        Instruction::Left(_) => Instruction::Left(1),
        Instruction::Increment(_) => Instruction::Increment(1),
        Instruction::Decrement(_) => Instruction::Decrement(1),
        other => other,
    }
}

/// How many source characters the first `i` instructions of `program` stand for.
pub open spec fn offset(program: Seq<Instruction>, i: int) -> int
    decreases i,
{
    if i <= 0 {
        0
    } else {
        offset(program, i - 1) + program[i - 1].count()
    }
}

/// The `k`-th of the unit instructions in `units` that instruction `i` of
/// `program` stands for.
pub open spec fn part(program: Seq<Instruction>, units: Seq<Instruction>, i: int, k: int)
    -> Instruction {
    units[offset(program, i) + k]
}

/// `units` is `program` with every instruction written out as often as it
/// repeats.
pub open spec fn expands(program: Seq<Instruction>, units: Seq<Instruction>) -> bool {
    &&& units.len() == offset(program, program.len() as int)
    &&& forall|i: int| 0 <= i < program.len() ==> (#[trigger] program[i]).count() >= 1
    &&& forall|i: int, k: int|
        0 <= i < program.len() && 0 <= k < program[i].count() ==> #[trigger] part(
            program,
            units,
            i,
            k,
        ) == unit(program[i])
}

/// Every instruction has count 1.
pub open spec fn all_units(program: Seq<Instruction>) -> bool {
    forall|i: int| 0 <= i < program.len() ==> #[trigger] unit(program[i]) == program[i]
}

/// The offset of a prefix does not depend on what follows it.
pub proof fn lemma_offset_prefix(a: Seq<Instruction>, b: Seq<Instruction>, i: int)
    requires
        0 <= i <= a.len(),
        i <= b.len(),
        forall|k: int| 0 <= k < i ==> a[k].count() == b[k].count(),
    ensures
        offset(a, i) == offset(b, i),
    decreases i,
{
    if i > 0 {
        lemma_offset_prefix(a, b, i - 1);
    }
}

/// Offsets grow with the index, by at least the count of each instruction
/// that lies between.
pub proof fn lemma_offset_grows(program: Seq<Instruction>, i: int, j: int)
    requires
        0 <= i <= j <= program.len(),
    ensures
        0 <= offset(program, i) <= offset(program, j),
        i < j ==> offset(program, i) + program[i].count() <= offset(program, j),
    decreases j,
{
    if i < j {
        lemma_offset_grows(program, i, j - 1);
    } else if i > 0 {
        lemma_offset_grows(program, i - 1, i - 1);
    }
}

/// The instructions that lexing makes all have count 1.
pub proof fn lemma_unit_tokens_are_units(source: Seq<u8>)
    ensures
        all_units(unit_tokens(source)),
    decreases source.len(),
{
    if source.len() > 0 {
        lemma_unit_tokens_are_units(source.drop_last());
        let before = unit_tokens(source.drop_last());
        assert forall|i: int| 0 <= i < unit_tokens(source).len() implies #[trigger] unit(
            unit_tokens(source)[i],
        ) == unit_tokens(source)[i] by {
            if i < before.len() {
                assert(unit(before[i]) == before[i]);
            }
        }
    }
}

/// Lexing makes no more instructions than there are bytes.
pub proof fn lemma_unit_tokens_len(source: Seq<u8>)
    ensures
        unit_tokens(source).len() <= source.len(),
    decreases source.len(),
{
    if source.len() > 0 {
        lemma_unit_tokens_len(source.drop_last());
    }
}

/// Fusing instructions of count 1 gives a program that they write out.
pub proof fn lemma_fuse_expands(units: Seq<Instruction>)
    requires
        all_units(units),
        units.len() <= usize::MAX,
    ensures
        expands(fuse(units), units),
    decreases units.len(),
{
    if units.len() == 0 {
        assert(offset(fuse(units), 0) == 0);
    } else {
        let before = units.drop_last();
        let x = units.last();
        assert(unit(units[units.len() - 1]) == x);
        assert forall|i: int| 0 <= i < before.len() implies #[trigger] unit(before[i])
            == before[i] by {
            assert(unit(units[i]) == units[i]);
        }
        lemma_fuse_expands(before);
        let f = fuse(before);
        let g = fuse(units);
        if f.len() > 0 && fused(f.last(), x) is Some {
            let last = f.len() - 1;
            let m = fused(f.last(), x)->Some_0;
            lemma_offset_grows(f, last, f.len() as int);
            assert(f[last].count() >= 1);
            assert(offset(f, f.len() as int) == offset(f, last) + f[last].count());
            assert(m.count() == f[last].count() + 1);
            assert(g =~= f.drop_last().push(m));
            lemma_offset_prefix(g, f, last);
            assert(offset(g, g.len() as int) == offset(g, last) + g[last].count());
            assert forall|i: int| 0 <= i < g.len() implies (#[trigger] g[i]).count() >= 1 by {
                if i < last {
                    assert(f[i].count() >= 1);
                }
            }
            assert forall|i: int, k: int|
                0 <= i < g.len() && 0 <= k < g[i].count() implies #[trigger] part(g, units, i, k)
                == unit(g[i]) by {
                lemma_offset_prefix(g, f, i);
                if i < last {
                    lemma_offset_grows(f, i, last);
                    assert(part(f, before, i, k) == unit(f[i]));
                } else if k < f[last].count() {
                    assert(part(f, before, last, k) == unit(f[last]));
                }
            }
        } else {
            assert(g =~= f.push(x));
            lemma_offset_prefix(g, f, f.len() as int);
            assert(offset(g, g.len() as int) == offset(g, f.len() as int) + x.count());
            assert forall|i: int| 0 <= i < g.len() implies (#[trigger] g[i]).count() >= 1 by {
                if i < f.len() {
                    assert(f[i].count() >= 1);
                }
            }
            assert forall|i: int, k: int|
                0 <= i < g.len() && 0 <= k < g[i].count() implies #[trigger] part(g, units, i, k)
                == unit(g[i]) by {
                lemma_offset_prefix(g, f, i);
                if i < f.len() {
                    lemma_offset_grows(f, i, f.len() as int);
                    assert(part(f, before, i, k) == unit(f[i]));
                }
            }
        }
    }
}

/// The index in the written-out program of what a scan of the fused
/// program found.
pub open spec fn lifted(program: Seq<Instruction>, found: Option<int>) -> Option<int> {
    match found {
        Some(i) => Some(offset(program, i)),
        None => None,
    }
}

/// A forward scan passes over entries that change no depth.
proof fn lemma_skip_forward(s: Seq<int>, j: int, n: int, level: int)
    requires
        0 <= j,
        0 <= n,
        j + n <= s.len(),
        forall|k: int| j <= k < j + n ==> s[k] == 0,
    ensures
        find_close(s, j, level) == find_close(s, j + n, level),
    decreases n,
{
    if n > 0 {
        lemma_skip_forward(s, j + 1, n - 1, level);
    }
}

/// A backward scan passes over entries that change no depth.
proof fn lemma_skip_backward(s: Seq<int>, j: int, n: int, level: int)
    requires
        j < s.len(),
        0 <= n,
        -1 <= j - n,
        forall|k: int| j - n < k <= j ==> s[k] == 0,
    ensures
        find_open(s, j, level) == find_open(s, j - n, level),
    decreases n,
{
    if n > 0 {
        lemma_skip_backward(s, j - 1, n - 1, level);
    }
}

/// A forward scan of the written-out program finds what the same scan of
/// the fused program finds.
pub proof fn lemma_find_close_expanded(
    program: Seq<Instruction>,
    units: Seq<Instruction>,
    j: int,
    level: int,
)
    requires
        expands(program, units),
        0 <= j <= program.len(),
    ensures
        find_close(shape(units), offset(program, j), level) == lifted(
            program,
            find_close(shape(program), j, level),
        ),
    decreases program.len() - j,
{
    let su = shape(units);
    let sp = shape(program);
    lemma_offset_grows(program, j, program.len() as int);
    if j < program.len() {
        let n = program[j].count() as int;
        let at = offset(program, j);
        assert(offset(program, j + 1) == at + n);
        assert(program[j].count() >= 1);
        assert(sp[j] == delta(program[j]));
        assert forall|x: int| at <= x < at + n implies #[trigger] su[x] == delta(program[j]) by {
            assert(part(program, units, j, x - at) == unit(program[j]));
        }
        if sp[j] == 0 {
            lemma_skip_forward(su, at, n, level);
            lemma_find_close_expanded(program, units, j + 1, level);
        } else if sp[j] == 1 {
            assert(su[at] == 1);
            lemma_find_close_expanded(program, units, j + 1, level + 1);
        } else {
            assert(su[at] == -1);
            if level > 1 {
                lemma_find_close_expanded(program, units, j + 1, level - 1);
            }
        }
    }
}

/// A backward scan of the written-out program finds what the same scan of
/// the fused program finds.
pub proof fn lemma_find_open_expanded(
    program: Seq<Instruction>,
    units: Seq<Instruction>,
    j: int,
    level: int,
)
    requires
        expands(program, units),
        -1 <= j < program.len(),
    ensures
        find_open(shape(units), offset(program, j + 1) - 1, level) == lifted(
            program,
            find_open(shape(program), j, level),
        ),
    decreases j + 1,
{
    let su = shape(units);
    let sp = shape(program);
    if j >= 0 {
        lemma_offset_grows(program, j, program.len() as int);
        let n = program[j].count() as int;
        let at = offset(program, j);
        assert(offset(program, j + 1) == at + n);
        assert(program[j].count() >= 1);
        assert(sp[j] == delta(program[j]));
        assert forall|x: int| at <= x < at + n implies #[trigger] su[x] == delta(program[j]) by {
            assert(part(program, units, j, x - at) == unit(program[j]));
        }
        if sp[j] == 0 {
            lemma_skip_backward(su, at + n - 1, n, level);
            lemma_find_open_expanded(program, units, j - 1, level);
        } else if sp[j] == 1 {
            assert(su[at] == 1);
            if level > 1 {
                lemma_find_open_expanded(program, units, j - 1, level - 1);
            }
        } else {
            assert(su[at] == -1);
            lemma_find_open_expanded(program, units, j - 1, level + 1);
        }
    }
}

/// No `[` of `unresolved` carries a target yet.
pub open spec fn plain(unresolved: Seq<Instruction>) -> bool {
    forall|k: int|
        0 <= k < unresolved.len() && (#[trigger] unresolved[k]) is JumpForwardIfZero
            ==> unresolved[k] == (Instruction::JumpForwardIfZero { matching: None })
}

/// `unresolved` is what lexing balanced source gives: it is well nested, no
/// `[` carries a target, and it is no longer than a program can be.
pub open spec fn lexed(unresolved: Seq<Instruction>) -> bool {
    &&& well_nested(shape(unresolved))
    &&& plain(unresolved)
    &&& unresolved.len() <= usize::MAX
}

/// `program` is `base` with the targets of some of its `[` stored.
pub open spec fn resolves(program: Seq<Instruction>, base: Seq<Instruction>) -> bool {
    &&& program.len() == base.len()
    &&& forall|k: int|
        0 <= k < base.len() ==> #[trigger] program[k] == base[k] || (base[k] is JumpForwardIfZero
            && close_of(base, k) is Some && program[k] == (Instruction::JumpForwardIfZero {
            matching: Some((close_of(base, k)->Some_0 + 1) as usize),
        }))
}

/// `s` is a state of a machine that runs the program made of `unresolved`.
pub open spec fn runs(s: State, unresolved: Seq<Instruction>) -> bool {
    &&& sound(s)
    &&& s.next <= unresolved.len()
    &&& resolves(s.program, linked(unresolved))
}

/// Storing targets keeps the kinds of the instructions.
pub proof fn lemma_resolves_shape(program: Seq<Instruction>, base: Seq<Instruction>)
    requires
        resolves(program, base),
    ensures
        shape(program) == shape(base),
{
    assert forall|k: int| 0 <= k < base.len() implies shape(program)[k] == shape(base)[k] by {
        assert(program[k] == base[k] || program[k] is JumpForwardIfZero);
    }
    assert(shape(program) =~= shape(base));
}

/// Storing more targets of a program that resolves a base resolves it still.
pub proof fn lemma_cached_resolves(
    program: Seq<Instruction>,
    base: Seq<Instruction>,
    from: int,
    to: int,
)
    requires
        resolves(program, base),
    ensures
        resolves(cached(program, from, to), base),
{
    lemma_resolves_shape(program, base);
    let after = cached(program, from, to);
    assert forall|k: int| 0 <= k < base.len() implies #[trigger] after[k] == base[k] || (
    base[k] is JumpForwardIfZero && close_of(base, k) is Some && after[k] == (
    Instruction::JumpForwardIfZero {
        matching: Some((close_of(base, k)->Some_0 + 1) as usize),
    })) by {
        assert(program[k] == base[k] || program[k] is JumpForwardIfZero);
        assert(shape(program)[k] == shape(base)[k]);
    }
}

/// What a `[` does in a program made of lexed source: it continues one past
/// its `]` if the cell is zero, and raises no fault.
pub proof fn lemma_step_open(s: State, unresolved: Seq<Instruction>, input: u8)
    requires
        lexed(unresolved),
        runs(s, unresolved),
        s.next < unresolved.len(),
        unresolved[s.next] is JumpForwardIfZero,
    ensures
        fault(s) is None,
        writes(s) is None,
        !reads(s),
        close_of(unresolved, s.next) is Some,
        s.next < close_of(unresolved, s.next)->Some_0 < unresolved.len(),
        runs(step(s, input), unresolved),
        step(s, input).memory == s.memory,
        step(s, input).pointer == s.pointer,
        step(s, input).next == if s.memory[s.pointer] == 0 {
            close_of(unresolved, s.next)->Some_0 + 1
        } else {
            s.next + 1
        },
{
    let base = linked(unresolved);
    lemma_linked_shape(unresolved);
    lemma_resolves_shape(s.program, base);
    law_open_has_its_close(unresolved, s.next);
    assert(s.program[s.next] == base[s.next] || s.program[s.next] is JumpForwardIfZero);
    assert(base[s.next] == unresolved[s.next]);
    lemma_cached_resolves(s.program, base, s.next, close_of(unresolved, s.next)->Some_0 + 1);
}

/// What a `]` does in a program made of lexed source: it continues one past
/// its `[` unless the cell is zero.
pub proof fn lemma_step_close(s: State, unresolved: Seq<Instruction>, input: u8)
    requires
        lexed(unresolved),
        runs(s, unresolved),
        s.next < unresolved.len(),
        unresolved[s.next] is JumpBackwardUnlessZero,
    ensures
        fault(s) is None,
        writes(s) is None,
        !reads(s),
        open_of(unresolved, s.next) is Some,
        0 <= open_of(unresolved, s.next)->Some_0 < s.next,
        step(s, input) == (State {
            next: if s.memory[s.pointer] != 0 {
                open_of(unresolved, s.next)->Some_0 + 1
            } else {
                s.next + 1
            },
            ..s
        }),
        runs(step(s, input), unresolved),
{
    let base = linked(unresolved);
    law_close_has_its_open(unresolved, s.next);
    assert(s.program[s.next] == base[s.next]);
}

/// What any other instruction of a program made of lexed source is: the one
/// that lexing gave.
pub proof fn lemma_step_other(s: State, unresolved: Seq<Instruction>)
    requires
        runs(s, unresolved),
        s.next < unresolved.len(),
        !(unresolved[s.next] is JumpForwardIfZero),
        !(unresolved[s.next] is JumpBackwardUnlessZero),
    ensures
        s.program[s.next] == unresolved[s.next],
{
    let base = linked(unresolved);
    assert(s.program[s.next] == base[s.next]);
}

/// The tape after it grew, if it had to, to hold a cell at `pointer`.
pub open spec fn grown(memory: Seq<u8>, pointer: int) -> Seq<u8> {
    if pointer < memory.len() {
        memory
    } else {
        memory + zeros(pointer + 1 - memory.len())
    }
}

/// `n` instructions from the next one on are all `instruction`.
pub open spec fn stretch(unresolved: Seq<Instruction>, at: int, n: int, instruction: Instruction)
    -> bool {
    &&& 0 <= at
    &&& at + n <= unresolved.len()
    &&& forall|x: int| at <= x < at + n ==> #[trigger] unresolved[x] == instruction
}

/// `k` moves to the right by one are one move to the right by `k`; they
/// fault if that one does.
pub proof fn lemma_units_right(r: Run, unresolved: Seq<Instruction>, input: Seq<u8>, n: int, k: int)
    requires
        r.fault is None,
        runs(r.machine, unresolved),
        0 <= k <= n,
        stretch(unresolved, r.machine.next, n, Instruction::Right(1)),
    ensures
        ({
            let e = run(r, input, k as nat);
            &&& e.output == r.output
            &&& e.consumed == r.consumed
            &&& if r.machine.pointer + k < usize::MAX {
                &&& e.fault is None
                &&& e.machine == (State {
                    pointer: r.machine.pointer + k,
                    memory: grown(r.machine.memory, r.machine.pointer + k),
                    next: r.machine.next + k,
                    ..r.machine
                })
            } else {
                e.fault == Some(Error::TapeOverflow)
            }
        }),
    decreases k,
{
    if k > 0 {
        lemma_units_right(r, unresolved, input, n, k - 1);
        let before = run(r, input, (k - 1) as nat);
        assert(run(r, input, k as nat) == advance(before, input));
        if r.machine.pointer + (k - 1) < usize::MAX {
            assert(unresolved[before.machine.next] == Instruction::Right(1));
            lemma_step_other(before.machine, unresolved);
            let after = advance(before, input);
            if after.fault is None {
                assert(after.machine.memory =~= grown(r.machine.memory, r.machine.pointer + k));
            }
        }
    } else {
        assert(grown(r.machine.memory, r.machine.pointer) =~= r.machine.memory);
    }
}

/// `k` moves to the left by one are one move to the left by `k`; they fault
/// if that one does.
pub proof fn lemma_units_left(r: Run, unresolved: Seq<Instruction>, input: Seq<u8>, n: int, k: int)
    requires
        r.fault is None,
        runs(r.machine, unresolved),
        0 <= k <= n,
        stretch(unresolved, r.machine.next, n, Instruction::Left(1)),
    ensures
        ({
            let e = run(r, input, k as nat);
            let p = r.machine.pointer;
            &&& e.output == r.output
            &&& e.consumed == r.consumed
            &&& if k <= p {
                &&& e.fault is None
                &&& e.machine == (State { pointer: p - k, next: r.machine.next + k, ..r.machine })
            } else if r.machine.memory.len() + (k - p) <= usize::MAX {
                &&& e.fault is None
                &&& e.machine == (State {
                    pointer: 0,
                    memory: zeros(k - p) + r.machine.memory,
                    next: r.machine.next + k,
                    ..r.machine
                })
            } else {
                e.fault == Some(Error::TapeOverflow)
            }
        }),
    decreases k,
{
    if k > 0 {
        lemma_units_left(r, unresolved, input, n, k - 1);
        let before = run(r, input, (k - 1) as nat);
        let p = r.machine.pointer;
        assert(run(r, input, k as nat) == advance(before, input));
        if before.fault is None {
            assert(unresolved[before.machine.next] == Instruction::Left(1));
            if k - 1 > p {
                assert(sound(before.machine));
            }
            lemma_step_other(before.machine, unresolved);
            let after = advance(before, input);
            if after.fault is None && k > p {
                assert(zeros(k - 1 - p) + r.machine.memory =~= before.machine.memory);
                assert(after.machine.memory =~= zeros(k - p) + r.machine.memory);
            }
        }
    }
}

/// `k` increments by one are one increment by `k`.
pub proof fn lemma_units_increment(
    r: Run,
    unresolved: Seq<Instruction>,
    input: Seq<u8>,
    n: int,
    k: int,
)
    requires
        r.fault is None,
        runs(r.machine, unresolved),
        0 <= k <= n,
        stretch(unresolved, r.machine.next, n, Instruction::Increment(1)),
    ensures
        run(r, input, k as nat) == (Run {
            machine: State {
                memory: r.machine.memory.update(
                    r.machine.pointer,
                    cell_add(r.machine.memory[r.machine.pointer], k),
                ),
                next: r.machine.next + k,
                ..r.machine
            },
            ..r
        }),
    decreases k,
{
    let cell = r.machine.memory[r.machine.pointer];
    if k > 0 {
        lemma_units_increment(r, unresolved, input, n, k - 1);
        let before = run(r, input, (k - 1) as nat);
        assert(run(r, input, k as nat) == advance(before, input));
        assert(unresolved[before.machine.next] == Instruction::Increment(1));
        lemma_step_other(before.machine, unresolved);
        law_add_twice(cell, k - 1, 1);
        let after = advance(before, input);
        assert(after.machine.memory =~= r.machine.memory.update(
            r.machine.pointer,
            cell_add(cell, k),
        ));
    } else {
        law_add_nothing(cell);
        assert(r.machine.memory.update(r.machine.pointer, cell) =~= r.machine.memory);
    }
}

/// `k` decrements by one are one decrement by `k`.
pub proof fn lemma_units_decrement(
    r: Run,
    unresolved: Seq<Instruction>,
    input: Seq<u8>,
    n: int,
    k: int,
)
    requires
        r.fault is None,
        runs(r.machine, unresolved),
        0 <= k <= n,
        stretch(unresolved, r.machine.next, n, Instruction::Decrement(1)),
    ensures
        run(r, input, k as nat) == (Run {
            machine: State {
                memory: r.machine.memory.update(
                    r.machine.pointer,
                    cell_sub(r.machine.memory[r.machine.pointer], k),
                ),
                next: r.machine.next + k,
                ..r.machine
            },
            ..r
        }),
    decreases k,
{
    let cell = r.machine.memory[r.machine.pointer];
    if k > 0 {
        lemma_units_decrement(r, unresolved, input, n, k - 1);
        let before = run(r, input, (k - 1) as nat);
        assert(run(r, input, k as nat) == advance(before, input));
        assert(unresolved[before.machine.next] == Instruction::Decrement(1));
        lemma_step_other(before.machine, unresolved);
        law_sub_twice(cell, k - 1, 1);
        let after = advance(before, input);
        assert(after.machine.memory =~= r.machine.memory.update(
            r.machine.pointer,
            cell_sub(cell, k),
        ));
    } else {
        law_add_nothing(cell);
        assert(r.machine.memory.update(r.machine.pointer, cell) =~= r.machine.memory);
    }
}

/// A run of the fused program and a run of the written-out program that
/// stand at the same place: they emitted and consumed the same, and unless
/// a fault ended them they have the same tape and pointer and the next
/// instruction of the one is the first that the next of the other stands
/// for.
pub open spec fn paired(
    program: Seq<Instruction>,
    units: Seq<Instruction>,
    fast: Run,
    slow: Run,
) -> bool {
    &&& fast.fault == slow.fault
    &&& fast.output == slow.output
    &&& fast.consumed == slow.consumed
    &&& fast.fault is None ==> {
        &&& runs(fast.machine, program)
        &&& runs(slow.machine, units)
        &&& fast.machine.memory == slow.machine.memory
        &&& fast.machine.pointer == slow.machine.pointer
        &&& slow.machine.next == offset(program, fast.machine.next)
    }
}

/// Paired runs have settled together.
pub proof fn lemma_paired_settled(
    program: Seq<Instruction>,
    units: Seq<Instruction>,
    fast: Run,
    slow: Run,
)
    requires
        expands(program, units),
        paired(program, units, fast, slow),
    ensures
        settled(fast) == settled(slow),
        fast.fault is None ==> halted(fast.machine) == halted(slow.machine),
{
    if fast.fault is None {
        lemma_linked_shape(program);
        lemma_linked_shape(units);
        lemma_offset_grows(program, fast.machine.next, program.len() as int);
    }
}

/// The units that a non-jump instruction stands for make a stretch.
proof fn lemma_stretch(program: Seq<Instruction>, units: Seq<Instruction>, i: int)
    requires
        expands(program, units),
        0 <= i < program.len(),
    ensures
        stretch(units, offset(program, i), program[i].count() as int, unit(program[i])),
        offset(program, i + 1) == offset(program, i) + program[i].count(),
        program[i].count() >= 1,
{
    lemma_offset_grows(program, i, program.len() as int);
    let at = offset(program, i);
    assert forall|x: int| at <= x < at + program[i].count() implies #[trigger] units[x] == unit(
        program[i],
    ) by {
        assert(part(program, units, i, x - at) == unit(program[i]));
    }
}

/// Paired runs stay paired over a jump: the brackets of the two programs
/// match at the same places.
proof fn lemma_pair_jump(
    program: Seq<Instruction>,
    units: Seq<Instruction>,
    fast: Run,
    slow: Run,
    input: Seq<u8>,
)
    requires
        lexed(program),
        lexed(units),
        expands(program, units),
        paired(program, units, fast, slow),
        !settled(fast),
        program[fast.machine.next] is JumpForwardIfZero || program[fast.machine.next]
            is JumpBackwardUnlessZero,
    ensures
        paired(program, units, advance(fast, input), advance(slow, input)),
{
    let i = fast.machine.next;
    let at = offset(program, i);
    lemma_linked_shape(program);
    lemma_linked_shape(units);
    lemma_paired_settled(program, units, fast, slow);
    lemma_stretch(program, units, i);
    assert(units[at] == program[i]);
    if program[i] is JumpForwardIfZero {
        lemma_step_open(fast.machine, program, 0);
        lemma_step_open(slow.machine, units, 0);
        let close = close_of(program, i)->Some_0;
        lemma_find_close_expanded(program, units, i + 1, 1);
        lemma_stretch(program, units, close);
        lemma_find_close_bounds(shape(program), i + 1, 1);
        assert(shape(program)[close] == delta(program[close]));
    } else {
        lemma_step_close(fast.machine, program, 0);
        lemma_step_close(slow.machine, units, 0);
        let open = open_of(program, i)->Some_0;
        lemma_find_open_expanded(program, units, i - 1, 1);
        lemma_stretch(program, units, open);
        law_close_has_its_open(program, i);
    }
}

/// Paired runs stay paired over a read or a write.
proof fn lemma_pair_io(
    program: Seq<Instruction>,
    units: Seq<Instruction>,
    fast: Run,
    slow: Run,
    input: Seq<u8>,
)
    requires
        lexed(program),
        lexed(units),
        expands(program, units),
        paired(program, units, fast, slow),
        !settled(fast),
        program[fast.machine.next] is Write || program[fast.machine.next] is Read,
    ensures
        paired(program, units, advance(fast, input), advance(slow, input)),
{
    let i = fast.machine.next;
    lemma_linked_shape(program);
    lemma_linked_shape(units);
    lemma_paired_settled(program, units, fast, slow);
    lemma_stretch(program, units, i);
    assert(units[offset(program, i)] == program[i]);
    lemma_step_other(fast.machine, program);
    lemma_step_other(slow.machine, units);
}

/// Paired runs stay paired over a repeatable instruction and the units that
/// it stands for.
proof fn lemma_pair_repeat(
    program: Seq<Instruction>,
    units: Seq<Instruction>,
    fast: Run,
    slow: Run,
    input: Seq<u8>,
)
    requires
        lexed(program),
        lexed(units),
        expands(program, units),
        paired(program, units, fast, slow),
        !settled(fast),
        !(program[fast.machine.next] is JumpForwardIfZero),
        !(program[fast.machine.next] is JumpBackwardUnlessZero),
        !(program[fast.machine.next] is Write),
        !(program[fast.machine.next] is Read),
    ensures
        paired(
            program,
            units,
            advance(fast, input),
            run(slow, input, program[fast.machine.next].count()),
        ),
{
    let i = fast.machine.next;
    let n = program[i].count() as int;
    lemma_linked_shape(program);
    lemma_linked_shape(units);
    lemma_paired_settled(program, units, fast, slow);
    lemma_stretch(program, units, i);
    lemma_step_other(fast.machine, program);
    match program[i] {
        Instruction::Right(_) => {
            lemma_units_right(slow, units, input, n, n);
        },
        Instruction::Left(_) => {
            lemma_units_left(slow, units, input, n, n);
        },
        Instruction::Increment(_) => {
            lemma_units_increment(slow, units, input, n, n);
        },
        Instruction::Decrement(_) => {
            lemma_units_decrement(slow, units, input, n, n);
        },
        _ => {},
    }
}

/// One step of the fused program is as many steps of the written-out
/// program as its instruction repeats.
pub proof fn lemma_pair_step(
    program: Seq<Instruction>,
    units: Seq<Instruction>,
    fast: Run,
    slow: Run,
    input: Seq<u8>,
)
    requires
        lexed(program),
        lexed(units),
        expands(program, units),
        paired(program, units, fast, slow),
        !settled(fast),
    ensures
        paired(
            program,
            units,
            advance(fast, input),
            run(slow, input, program[fast.machine.next].count()),
        ),
{
    let i = fast.machine.next;
    lemma_linked_shape(program);
    assert(run(slow, input, 1) == advance(run(slow, input, 0), input));
    match program[i] {
        Instruction::JumpForwardIfZero { .. } | Instruction::JumpBackwardUnlessZero { .. } => {
            lemma_pair_jump(program, units, fast, slow, input);
        },
        Instruction::Write | Instruction::Read => {
            lemma_pair_io(program, units, fast, slow, input);
        },
        _ => {
            lemma_pair_repeat(program, units, fast, slow, input);
        },
    }
}

/// Running on after some steps is running the sum of the steps.
pub proof fn lemma_run_add(r: Run, input: Seq<u8>, a: nat, b: nat)
    ensures
        run(r, input, a + b) == run(run(r, input, a), input, b),
    decreases b,
{
    if b > 0 {
        lemma_run_add(r, input, a, (b - 1) as nat);
        assert(run(r, input, a + b) == advance(run(r, input, (a + b - 1) as nat), input));
    }
}

/// Lexing stores no target in a `[`.
proof fn lemma_unit_tokens_plain(source: Seq<u8>)
    ensures
        plain(unit_tokens(source)),
    decreases source.len(),
{
    if source.len() > 0 {
        lemma_unit_tokens_plain(source.drop_last());
        let before = unit_tokens(source.drop_last());
        assert forall|k: int|
            0 <= k < unit_tokens(source).len() && (#[trigger] unit_tokens(source)[k])
                is JumpForwardIfZero implies unit_tokens(source)[k] == (
        Instruction::JumpForwardIfZero { matching: None }) by {
            if k < before.len() {
                assert(before[k] is JumpForwardIfZero);
            }
        }
    }
}

/// What lexing makes of balanced source at the one level writes out what
/// it makes of it at the other.
pub proof fn lemma_lexed(source: Seq<u8>)
    requires
        balanced(source),
        source.len() <= usize::MAX,
    ensures
        lexed(tokens(source, OptimizationLevel::Off)),
        lexed(tokens(source, OptimizationLevel::Speed)),
        expands(tokens(source, OptimizationLevel::Speed), tokens(source, OptimizationLevel::Off)),
{
    let units = unit_tokens(source);
    let program = fuse(units);
    law_tokens_nest_as_source(source, OptimizationLevel::Off);
    law_tokens_nest_as_source(source, OptimizationLevel::Speed);
    lemma_unit_tokens_plain(source);
    lemma_unit_tokens_len(source);
    lemma_unit_tokens_are_units(source);
    lemma_fuse_expands(units);
    assert forall|k: int|
        0 <= k < program.len() && (#[trigger] program[k]) is JumpForwardIfZero implies program[k]
        == (Instruction::JumpForwardIfZero { matching: None }) by {
        assert(part(program, units, k, 0) == unit(program[k]));
        lemma_offset_grows(program, k, program.len() as int);
        assert(units[offset(program, k)] is JumpForwardIfZero);
    }
    lemma_offset_bound(program, program.len() as int);
}

/// Where every count is at least one, an offset is no less than its index.
proof fn lemma_offset_bound(program: Seq<Instruction>, i: int)
    requires
        0 <= i <= program.len(),
        forall|k: int| 0 <= k < program.len() ==> (#[trigger] program[k]).count() >= 1,
    ensures
        i <= offset(program, i),
    decreases i,
{
    if i > 0 {
        lemma_offset_bound(program, i - 1);
        assert(program[i - 1].count() >= 1);
    }
}

/// How many instructions the program compiled without fusion has executed
/// when the fused one has taken `steps` steps: for each step, the count of
/// the instruction that it executed.
pub open spec fn unit_steps(source: Seq<u8>, input: Seq<u8>, steps: nat) -> nat
    decreases steps,
{
    if steps == 0 {
        0
    } else {
        let before = run(
            start(compiled(source, OptimizationLevel::Speed)),
            input,
            (steps - 1) as nat,
        );
        unit_steps(source, input, (steps - 1) as nat) + if settled(before) {
            0
        } else {
            before.machine.program[before.machine.next].count()
        }
    }
}

/// The fused run after `steps` steps and the written-out run after
/// `unit_steps` are paired.
proof fn lemma_runs_paired(source: Seq<u8>, input: Seq<u8>, steps: nat)
    requires
        balanced(source),
        source.len() <= usize::MAX,
    ensures
        paired(
            tokens(source, OptimizationLevel::Speed),
            tokens(source, OptimizationLevel::Off),
            run(start(compiled(source, OptimizationLevel::Speed)), input, steps),
            run(
                start(compiled(source, OptimizationLevel::Off)),
                input,
                unit_steps(source, input, steps),
            ),
        ),
    decreases steps,
{
    let program = tokens(source, OptimizationLevel::Speed);
    let units = tokens(source, OptimizationLevel::Off);
    let fast0 = start(compiled(source, OptimizationLevel::Speed));
    let slow0 = start(compiled(source, OptimizationLevel::Off));
    lemma_lexed(source);
    lemma_linked_shape(program);
    lemma_linked_shape(units);
    if steps == 0 {
        assert(offset(program, 0) == 0);
    } else {
        let before = (steps - 1) as nat;
        lemma_runs_paired(source, input, before);
        let fast = run(fast0, input, before);
        let m = unit_steps(source, input, before);
        let slow = run(slow0, input, m);
        assert(run(fast0, input, steps) == advance(fast, input));
        if settled(fast) {
        } else {
            let i = fast.machine.next;
            let n = fast.machine.program[i].count();
            assert(fast.machine.program[i].count() == program[i].count()) by {
                if !(program[i] is JumpForwardIfZero) {
                    assert(fast.machine.program[i] == linked(program)[i]);
                }
            }
            lemma_pair_step(program, units, fast, slow, input);
            lemma_run_add(slow0, input, m, n);
        }
    }
}

/// Whatever the fused program has done after some steps, the program
/// compiled without fusion has done after `unit_steps` of its own: both
/// have emitted and consumed the same and ended, or not, in the same way;
/// unless a fault ended them they have the same tape and pointer.
pub proof fn law_speed_follows_off(source: Seq<u8>, input: Seq<u8>, steps: nat)
    requires
        balanced(source),
        source.len() <= usize::MAX,
    ensures
        ({
            let fast = run(start(compiled(source, OptimizationLevel::Speed)), input, steps);
            let slow = run(
                start(compiled(source, OptimizationLevel::Off)),
                input,
                unit_steps(source, input, steps),
            );
            &&& fast.output == slow.output
            &&& fast.consumed == slow.consumed
            &&& fast.fault == slow.fault
            &&& settled(fast) == settled(slow)
            &&& fast.fault is None ==> {
                &&& halted(fast.machine) == halted(slow.machine)
                &&& fast.machine.memory == slow.machine.memory
                &&& fast.machine.pointer == slow.machine.pointer
            }
        }),
{
    lemma_runs_paired(source, input, steps);
    lemma_lexed(source);
    lemma_paired_settled(
        tokens(source, OptimizationLevel::Speed),
        tokens(source, OptimizationLevel::Off),
        run(start(compiled(source, OptimizationLevel::Speed)), input, steps),
        run(
            start(compiled(source, OptimizationLevel::Off)),
            input,
            unit_steps(source, input, steps),
        ),
    );
}

/// The number of steps of the fused program during whose last instruction,
/// or after whose end, the program compiled without fusion takes its
/// `steps`-th step.
proof fn lemma_between(source: Seq<u8>, input: Seq<u8>, steps: nat) -> (n: nat)
    requires
        balanced(source),
        source.len() <= usize::MAX,
    ensures
        unit_steps(source, input, n) <= steps,
        settled(run(start(compiled(source, OptimizationLevel::Speed)), input, n)) || steps
            < unit_steps(source, input, n + 1),
    decreases steps,
{
    let fast0 = start(compiled(source, OptimizationLevel::Speed));
    lemma_lexed(source);
    if steps == 0 {
        lemma_count_positive(source, input, 0);
        0
    } else {
        let n = lemma_between(source, input, (steps - 1) as nat);
        if settled(run(fast0, input, n)) || steps < unit_steps(source, input, n + 1) {
            n
        } else {
            lemma_count_positive(source, input, n + 1);
            n + 1
        }
    }
}

/// Each step of a run that has not settled adds to `unit_steps`.
proof fn lemma_count_positive(source: Seq<u8>, input: Seq<u8>, n: nat)
    requires
        balanced(source),
        source.len() <= usize::MAX,
    ensures
        settled(run(start(compiled(source, OptimizationLevel::Speed)), input, n)) || unit_steps(
            source,
            input,
            n,
        ) < unit_steps(source, input, n + 1),
{
    let program = tokens(source, OptimizationLevel::Speed);
    let fast = run(start(compiled(source, OptimizationLevel::Speed)), input, n);
    lemma_lexed(source);
    lemma_runs_paired(source, input, n);
    lemma_linked_shape(program);
    if !settled(fast) {
        let i = fast.machine.next;
        assert(program[i].count() >= 1);
        if !(program[i] is JumpForwardIfZero) {
            assert(fast.machine.program[i] == linked(program)[i]);
        }
    }
}

/// Whatever the program compiled without fusion has emitted and consumed
/// after some steps, the fused program has emitted and consumed after
/// some steps of its own.
pub proof fn law_off_follows_speed(source: Seq<u8>, input: Seq<u8>, steps: nat) -> (fused_steps:
    nat)
    requires
        balanced(source),
        source.len() <= usize::MAX,
    ensures
        ({
            let fast = run(start(compiled(source, OptimizationLevel::Speed)), input, fused_steps);
            let slow = run(start(compiled(source, OptimizationLevel::Off)), input, steps);
            &&& fast.output == slow.output
            &&& fast.consumed == slow.consumed
        }),
{
    let program = tokens(source, OptimizationLevel::Speed);
    let units = tokens(source, OptimizationLevel::Off);
    let fast0 = start(compiled(source, OptimizationLevel::Speed));
    let slow0 = start(compiled(source, OptimizationLevel::Off));
    let n = lemma_between(source, input, steps);
    let m = unit_steps(source, input, n);
    let fast = run(fast0, input, n);
    let slow = run(slow0, input, m);
    lemma_lexed(source);
    lemma_runs_paired(source, input, n);
    lemma_paired_settled(program, units, fast, slow);
    lemma_linked_shape(program);
    lemma_linked_shape(units);
    if settled(fast) {
        lemma_settled_stays(slow0, input, m, steps);
    } else {
        let k = (steps - m) as nat;
        let i = fast.machine.next;
        lemma_run_add(slow0, input, m, k);
        if k > 0 {
            assert(fast.machine.program[i].count() > 1);
            assert(fast.machine.program[i] == linked(program)[i]);
            let c = program[i].count() as int;
            lemma_stretch(program, units, i);
            match program[i] {
                Instruction::Right(_) => {
                    lemma_units_right(slow, units, input, c, k as int);
                },
                Instruction::Left(_) => {
                    lemma_units_left(slow, units, input, c, k as int);
                },
                Instruction::Increment(_) => {
                    lemma_units_increment(slow, units, input, c, k as int);
                },
                Instruction::Decrement(_) => {
                    lemma_units_decrement(slow, units, input, c, k as int);
                },
                _ => {},
            }
        }
    }
    n
}

/// Once both programs have settled they have emitted the same and report
/// the same, however many steps each was given.
pub proof fn law_levels_agree(source: Seq<u8>, input: Seq<u8>, fast_steps: nat, slow_steps: nat)
    requires
        balanced(source),
        source.len() <= usize::MAX,
        settled(run(start(compiled(source, OptimizationLevel::Speed)), input, fast_steps)),
        settled(run(start(compiled(source, OptimizationLevel::Off)), input, slow_steps)),
    ensures
        ({
            let fast = run(start(compiled(source, OptimizationLevel::Speed)), input, fast_steps);
            let slow = run(start(compiled(source, OptimizationLevel::Off)), input, slow_steps);
            &&& fast.output == slow.output
            &&& fast.consumed == slow.consumed
            &&& result_of(fast) == result_of(slow)
        }),
{
    let slow0 = start(compiled(source, OptimizationLevel::Off));
    let m = unit_steps(source, input, fast_steps);
    law_speed_follows_off(source, input, fast_steps);
    if m <= slow_steps {
        lemma_settled_stays(slow0, input, m, slow_steps);
    } else {
        lemma_settled_stays(slow0, input, slow_steps, m);
    }
}

/// While the fused program has not settled, each of its steps stands for
/// at least one step of the program compiled without fusion.
proof fn lemma_unit_steps_grow(source: Seq<u8>, input: Seq<u8>, n: nat)
    requires
        balanced(source),
        source.len() <= usize::MAX,
        !settled(run(start(compiled(source, OptimizationLevel::Speed)), input, n)),
    ensures
        unit_steps(source, input, n) >= n,
    decreases n,
{
    if n > 0 {
        let fast0 = start(compiled(source, OptimizationLevel::Speed));
        let before = (n - 1) as nat;
        if settled(run(fast0, input, before)) {
            lemma_settled_stays(fast0, input, before, n);
        }
        lemma_unit_steps_grow(source, input, before);
        lemma_count_positive(source, input, before);
    }
}

/// The fused program settles no later than the program compiled without
/// fusion: within any number of steps in which the one has come to its end
/// or to a fault, so has the other.
pub proof fn law_speed_settles_no_later(source: Seq<u8>, input: Seq<u8>, steps: nat)
    requires
        balanced(source),
        source.len() <= usize::MAX,
        settled(run(start(compiled(source, OptimizationLevel::Off)), input, steps)),
    ensures
        settled(run(start(compiled(source, OptimizationLevel::Speed)), input, steps)),
{
    let fast0 = start(compiled(source, OptimizationLevel::Speed));
    let slow0 = start(compiled(source, OptimizationLevel::Off));
    if !settled(run(fast0, input, steps)) {
        let m = unit_steps(source, input, steps);
        lemma_unit_steps_grow(source, input, steps);
        law_speed_follows_off(source, input, steps);
        lemma_settled_stays(slow0, input, steps, m);
    }
}

/// Given the same number of steps, if the program compiled without fusion
/// comes to its end or to a fault within them, the fused program does too,
/// and it has emitted and consumed the same and reports the same.
pub proof fn law_speed_ends_as_off(source: Seq<u8>, input: Seq<u8>, limit: nat)
    requires
        balanced(source),
        source.len() <= usize::MAX,
        settled(run(start(compiled(source, OptimizationLevel::Off)), input, limit)),
    ensures
        ({
            let fast = run(start(compiled(source, OptimizationLevel::Speed)), input, limit);
            let slow = run(start(compiled(source, OptimizationLevel::Off)), input, limit);
            &&& settled(fast)
            &&& fast.output == slow.output
            &&& fast.consumed == slow.consumed
            &&& result_of(fast) == result_of(slow)
        }),
{
    law_speed_settles_no_later(source, input, limit);
    law_levels_agree(source, input, limit, limit);
}

} // verus!
