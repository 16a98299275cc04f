//! What holds of the cells and of the tape whatever the program.

use vstd::prelude::*;
use crate::instruction::Instruction;
use crate::interpreter::{advance, executes, run, settled, Run};
use crate::machine::{cell_add, cell_sub, fault, sound, step, State};
use crate::nesting::{lemma_find_close_bounds, shape};

verus! {

/// Adding an amount to a cell and subtracting it again gives the cell back,
/// however large the amount.
pub proof fn law_add_then_sub(cell: u8, amount: int)
    ensures
        cell_sub(cell_add(cell, amount), amount) == cell,
        cell_add(cell_sub(cell, amount), amount) == cell,
{
    vstd::arithmetic::div_mod::lemma_sub_mod_noop(cell + amount, amount, 256);
    vstd::arithmetic::div_mod::lemma_add_mod_noop(cell - amount, amount, 256);
    vstd::arithmetic::div_mod::lemma_small_mod(cell as nat, 256);
    vstd::arithmetic::div_mod::lemma_mod_twice(cell + amount, 256);
    vstd::arithmetic::div_mod::lemma_mod_twice(cell - amount, 256);
    vstd::arithmetic::div_mod::lemma_sub_mod_noop_right((cell + amount) % 256, amount, 256);
    vstd::arithmetic::div_mod::lemma_add_mod_noop_right((cell - amount) % 256, amount, 256);
}

/// Adding two amounts one after the other adds their sum.
pub proof fn law_add_twice(cell: u8, first: int, second: int)
    ensures
        cell_add(cell_add(cell, first), second) == cell_add(cell, first + second),
{
    vstd::arithmetic::div_mod::lemma_add_mod_noop(cell + first, second, 256);
    vstd::arithmetic::div_mod::lemma_add_mod_noop_right((cell + first) % 256, second, 256);
}

/// Subtracting two amounts one after the other subtracts their sum.
pub proof fn law_sub_twice(cell: u8, first: int, second: int)
    ensures
        cell_sub(cell_sub(cell, first), second) == cell_sub(cell, first + second),
{
    vstd::arithmetic::div_mod::lemma_sub_mod_noop(cell - first, second, 256);
    vstd::arithmetic::div_mod::lemma_sub_mod_noop_right((cell - first) % 256, second, 256);
}

/// Adding or subtracting nothing leaves a cell as it is.
pub proof fn law_add_nothing(cell: u8)
    ensures
        cell_add(cell, 0) == cell,
        cell_sub(cell, 0) == cell,
{
    vstd::arithmetic::div_mod::lemma_small_mod(cell as nat, 256);
}

/// A cell after `times` increments of one.
pub open spec fn incremented(cell: u8, times: nat) -> u8
    decreases times,
{
    if times == 0 {
        cell
    } else {
        cell_add(incremented(cell, (times - 1) as nat), 1)
    }
}

/// Incrementing by one `times` times adds `times`.
pub proof fn law_incremented(cell: u8, times: nat)
    ensures
        incremented(cell, times) == cell_add(cell, times as int),
    decreases times,
{
    if times == 0 {
        vstd::arithmetic::div_mod::lemma_small_mod(cell as nat, 256);
    } else {
        law_incremented(cell, (times - 1) as nat);
        law_add_twice(cell, times - 1, 1);
    }
}

/// 256 increments of one bring a cell back to where it was.
pub proof fn law_256_increments(cell: u8)
    ensures
        incremented(cell, 256) == cell,
{
    law_incremented(cell, 256);
    vstd::arithmetic::div_mod::lemma_mod_add_multiples_vanish(cell as int, 256);
    vstd::arithmetic::div_mod::lemma_small_mod(cell as nat, 256);
}

/// A machine that executes `Increment(n)` and then `Decrement(n)` has the
/// tape it had before.
pub proof fn law_increment_then_decrement(s: State, n: usize, first: u8, second: u8)
    requires
        sound(s),
        s.next + 1 < s.program.len(),
        s.program[s.next] == Instruction::Increment(n),
        s.program[s.next + 1] == Instruction::Decrement(n),
    ensures
        step(step(s, first), second) == (State { next: s.next + 2, ..s }),
{
    law_add_then_sub(s.memory[s.pointer], n as int);
    let t = step(s, first);
    assert(step(t, second).memory =~= s.memory);
}

/// The cell that lies `offset` cells to the right of the pointer; cells
/// that the tape does not hold yet are zero.
pub open spec fn cell_at(s: State, offset: int) -> u8 {
    if 0 <= s.pointer + offset < s.memory.len() {
        s.memory[s.pointer + offset]
    } else {
        0
    }
}

/// Moving right by `k` and then left by `k` brings the pointer back to its
/// index and changes no cell: the tape is the old one, with zero cells
/// behind it where it had to grow.
pub proof fn law_right_then_left(s: State, k: usize, first: u8, second: u8)
    requires
        sound(s),
        s.next + 1 < s.program.len(),
        s.program[s.next] == Instruction::Right(k),
        s.program[s.next + 1] == Instruction::Left(k),
        fault(s) is None,
    ensures
        ({
            let t = step(step(s, first), second);
            &&& fault(step(s, first)) is None
            &&& t.pointer == s.pointer
            &&& t.next == s.next + 2
            &&& t.program == s.program
            &&& t.memory.len() >= s.memory.len()
            &&& forall|i: int| 0 <= i < s.memory.len() ==> t.memory[i] == s.memory[i]
            &&& forall|i: int| s.memory.len() <= i < t.memory.len() ==> t.memory[i] == 0
            &&& forall|offset: int| cell_at(t, offset) == cell_at(s, offset)
        }),
{
}

/// Moving left by `k` and then right by `k` changes no cell as seen from
/// the pointer, also where the tape grew to the left and the pointer's
/// index changed with it.
pub proof fn law_left_then_right(s: State, k: usize, first: u8, second: u8)
    requires
        sound(s),
        s.next + 1 < s.program.len(),
        s.program[s.next] == Instruction::Left(k),
        s.program[s.next + 1] == Instruction::Right(k),
        fault(s) is None,
        fault(step(s, first)) is None,
    ensures
        ({
            let t = step(step(s, first), second);
            &&& t.next == s.next + 2
            &&& t.program == s.program
            &&& t.pointer == if k > s.pointer {
                k as int
            } else {
                s.pointer
            }
            &&& forall|offset: int| cell_at(t, offset) == cell_at(s, offset)
        }),
{
}

/// A move shifts what is seen from the pointer and changes no cell.
pub proof fn law_moves_keep_cells(s: State, input: u8)
    requires
        sound(s),
        s.next < s.program.len(),
        fault(s) is None,
    ensures
        s.program[s.next] matches Instruction::Right(n) ==> forall|offset: int|
            cell_at(step(s, input), offset) == cell_at(s, offset + n),
        s.program[s.next] matches Instruction::Left(n) ==> forall|offset: int|
            cell_at(step(s, input), offset) == cell_at(s, offset - n),
{
}

/// A step leaves a sound machine sound.
pub proof fn law_step_keeps_sound(s: State, input: u8)
    requires
        sound(s),
    ensures
        sound(step(s, input)),
{
    lemma_find_close_bounds(shape(s.program), s.next + 1, 1);
}

/// Every state of a run that starts sound is sound.
pub proof fn law_run_keeps_sound(first: Run, input: Seq<u8>, steps: nat)
    requires
        sound(first.machine),
    ensures
        sound(run(first, input, steps).machine),
    decreases steps,
{
    if steps > 0 {
        law_run_keeps_sound(first, input, (steps - 1) as nat);
        let before = run(first, input, (steps - 1) as nat);
        if !settled(before) {
            assert forall|byte: u8| sound(#[trigger] step(before.machine, byte)) by {
                law_step_keeps_sound(before.machine, byte);
            }
        }
    }
}

/// In a run, a move right by `k` followed by a move left by `k` brings the
/// pointer back to its index and changes no cell: after the two steps the
/// tape is the one from before them, with zero cells behind it where it
/// had to grow, and nothing was emitted or consumed.
pub proof fn law_run_right_then_left(first: Run, input: Seq<u8>, at: nat, k: usize)
    requires
        sound(first.machine),
        run(first, input, at).fault is None,
        run(first, input, at).machine.next + 1 < run(first, input, at).machine.program.len(),
        run(first, input, at).machine.program[run(first, input, at).machine.next]
            == Instruction::Right(k),
        run(first, input, at).machine.program[run(first, input, at).machine.next + 1]
            == Instruction::Left(k),
        fault(run(first, input, at).machine) is None,
    ensures
        ({
            let before = run(first, input, at);
            let between = run(first, input, at + 1);
            let after = run(first, input, at + 2);
            &&& executes(before)
            &&& executes(between)
            &&& after.fault is None
            &&& after.output == before.output
            &&& after.consumed == before.consumed
            &&& after.machine.pointer == before.machine.pointer
            &&& after.machine.next == before.machine.next + 2
            &&& after.machine.memory.len() >= before.machine.memory.len()
            &&& forall|i: int|
                0 <= i < before.machine.memory.len() ==> after.machine.memory[i]
                    == before.machine.memory[i]
            &&& forall|i: int|
                before.machine.memory.len() <= i < after.machine.memory.len()
                    ==> after.machine.memory[i] == 0
        }),
{
    let before = run(first, input, at);
    law_run_keeps_sound(first, input, at);
    assert(run(first, input, at + 1) == advance(before, input));
    assert(run(first, input, at + 2) == advance(run(first, input, at + 1), input));
    law_right_then_left(before.machine, k, 0, 0);
}

} // verus!
