//! The machine that executes a program, one instruction at a time.

use vstd::prelude::*;
use std::collections::VecDeque;
use crate::error::Error;
use crate::instruction::Instruction;
use crate::nesting::{close_of, find_close, lemma_find_close_bounds, shape};
use crate::precompile::MAX_NESTED_JUMPS;

verus! {

/// What a machine is at one moment: its program, its tape, the index of the
/// cell under the pointer and the index of the instruction to execute next.
pub struct State {
    pub program: Seq<Instruction>,
    pub memory: Seq<u8>,
    pub pointer: int,
    pub next: int,
}

/// `n` zero cells.
pub open spec fn zeros(n: int) -> Seq<u8> {
    Seq::new(n as nat, |i: int| 0u8)
}

/// A cell after `amount` was added to it; cells wrap at 256.
pub open spec fn cell_add(cell: u8, amount: int) -> u8 {
    ((cell + amount) % 256) as u8
}

/// A cell after `amount` was subtracted from it; cells wrap at 256.
pub open spec fn cell_sub(cell: u8, amount: int) -> u8 {
    ((cell - amount) % 256) as u8
}

/// The state every run starts in: one zero cell, everything at index 0.
pub open spec fn initial(program: Seq<Instruction>) -> State {
    State { program, memory: seq![0u8], pointer: 0, next: 0 }
}

/// The pointer is on the tape, the tape fits the address space and the next
/// index is no negative number.
pub open spec fn sound(s: State) -> bool {
    &&& 0 <= s.pointer < s.memory.len() <= usize::MAX
    &&& 0 <= s.next
}

/// Nothing is left to execute.
pub open spec fn halted(s: State) -> bool {
    s.next >= s.program.len()
}

/// The next instruction takes a byte of input.
pub open spec fn reads(s: State) -> bool {
    !halted(s) && s.program[s.next] is Read
}

/// The byte that the next instruction emits, if it emits one.
pub open spec fn writes(s: State) -> Option<u8> {
    if !halted(s) && s.program[s.next] is Write {
        Some(s.memory[s.pointer])
    } else {
        None
    }
}

/// `program` with the target stored in every `[` at or after `from` whose
/// matching `]` lies before `to`.
pub open spec fn cached(program: Seq<Instruction>, from: int, to: int) -> Seq<Instruction> {
    Seq::new(
        program.len(),
        |k: int|
            if from <= k && program[k] is JumpForwardIfZero && close_of(program, k) is Some
                && close_of(program, k)->Some_0 < to {
                Instruction::JumpForwardIfZero {
                    matching: Some((close_of(program, k)->Some_0 + 1) as usize),
                }
            } else {
                program[k]
            },
    )
}

/// The fault that executing the next instruction raises, if it raises one.
pub open spec fn fault(s: State) -> Option<Error> {
    if halted(s) {
        None
    } else {
        match s.program[s.next] {
            Instruction::Right(n) => if s.pointer + n >= usize::MAX {
                Some(Error::TapeOverflow)
            } else {
                None
            },
            Instruction::Left(n) => if n > s.pointer && s.memory.len() + (n - s.pointer)
                > usize::MAX {
                Some(Error::TapeOverflow)
            } else {
                None
            },
            Instruction::JumpForwardIfZero { matching } => if s.memory[s.pointer] == 0
                && matching is None && close_of(s.program, s.next) is None {
                Some(Error::MismatchedJump)
            } else {
                None
            },
            _ => None,
        }
    }
}

/// The state after the next instruction was executed with `input` as the
/// byte that a read delivers.
///
/// A halted machine stays as it is. After a fault the machine has not
/// moved; a search for a matching `]` that failed has still stored the
/// targets it found on its way.
pub open spec fn step(s: State, input: u8) -> State {
    if halted(s) {
        s
    } else if fault(s) is Some {
        match s.program[s.next] {
            Instruction::JumpForwardIfZero { .. } => State {
                program: cached(s.program, s.next, s.program.len() as int),
                ..s
            },
            _ => s,
        }
    } else {
        let after = State { next: s.next + 1, ..s };
        match s.program[s.next] {
            Instruction::Right(n) => {
                let pointer = s.pointer + n;
                State {
                    pointer,
                    memory: if pointer < s.memory.len() {
                        s.memory
                    } else {
                        s.memory + zeros(pointer + 1 - s.memory.len())
                    },
                    ..after
                }
            },
            Instruction::Left(n) => if n > s.pointer {
                State { pointer: 0, memory: zeros(n - s.pointer) + s.memory, ..after }
            } else {
                State { pointer: s.pointer - n, ..after }
            },
            Instruction::Increment(n) => State {
                memory: s.memory.update(s.pointer, cell_add(s.memory[s.pointer], n as int)),
                ..after
            },
            Instruction::Decrement(n) => State {
                memory: s.memory.update(s.pointer, cell_sub(s.memory[s.pointer], n as int)),
                ..after
            },
            Instruction::Write => after,
            Instruction::Read => State { memory: s.memory.update(s.pointer, input), ..after },
            Instruction::JumpForwardIfZero { matching } => if s.memory[s.pointer] != 0 {
                after
            } else {
                match matching {
                    Some(target) => State { next: target as int, ..s },
                    None => {
                        let close = close_of(s.program, s.next)->Some_0;
                        State {
                            program: cached(s.program, s.next, close + 1),
                            next: close + 1,
                            ..s
                        }
                    },
                }
            },
            Instruction::JumpBackwardUnlessZero { matching } => if s.memory[s.pointer] != 0 {
                State { next: matching as int, ..s }
            } else {
                after
            },
        }
    }
}

/// Calls `IndexMut::index_mut` of `VecDeque` and assigns through it.
///
/// Believed of it, for an index within the tape: the cell at `index`
/// becomes `value`, and no other cell and not the length changes.
#[verifier::external_body]
fn store(memory: &mut VecDeque<u8>, index: usize, value: u8)
    requires
        index < old(memory)@.len(),
    ensures
        final(memory)@ == old(memory)@.update(index as int, value),
{
    memory[index] = value;
}

/// What holds while the program is scanned from `start` for the `]` that
/// matches it, with the first `current` instructions seen and `jumps`
/// holding the loops that are still open.
#[verifier::opaque]
pub closed spec fn scanning(
    origin: Seq<Instruction>,
    start: int,
    current: int,
    jumps: Seq<usize>,
) -> bool {
    let s = shape(origin);
    &&& 0 <= start <= current <= origin.len()
    &&& (jumps.len() > 0 ==> jumps[0] == start)
    &&& forall|x: int|
        0 <= x < jumps.len() ==> start <= #[trigger] jumps[x] < current && s[jumps[x] as int] == 1
    &&& forall|l: int|
        1 <= l <= jumps.len() ==> close_of(origin, jumps[jumps.len() - l] as int)
            == #[trigger] find_close(s, current, l)
    &&& forall|k: int|
        start <= k < current && #[trigger] s[k] == 1 ==> jumps.contains(k as usize) || (close_of(
            origin,
            k,
        ) is Some && close_of(origin, k)->Some_0 < current)
}

/// Passing an instruction that closes no loop stores no target.
proof fn lemma_cached_same(origin: Seq<Instruction>, start: int, current: int)
    requires
        0 <= start <= current < origin.len(),
        !(origin[current] is JumpBackwardUnlessZero),
    ensures
        cached(origin, start, current + 1) == cached(origin, start, current),
{
    let s = shape(origin);
    assert forall|k: int| 0 <= k < origin.len() implies cached(origin, start, current)[k] == cached(
        origin,
        start,
        current + 1,
    )[k] by {
        if start <= k && origin[k] is JumpForwardIfZero {
            lemma_find_close_bounds(s, k + 1, 1);
        }
    }
    assert(cached(origin, start, current + 1) =~= cached(origin, start, current));
}

/// A scan starts with no loop open and no target stored.
proof fn lemma_scan_start(origin: Seq<Instruction>, start: int)
    requires
        0 <= start < origin.len(),
    ensures
        scanning(origin, start, start, Seq::empty()),
        cached(origin, start, start) == origin,
{
    reveal(scanning);
    let s = shape(origin);
    assert forall|k: int| 0 <= k < origin.len() implies cached(origin, start, start)[k]
        == origin[k] by {
        if start <= k {
            lemma_find_close_bounds(s, k + 1, 1);
        }
    }
    assert(cached(origin, start, start) =~= origin);
}

/// Passing a `[` opens one more loop.
proof fn lemma_scan_open(origin: Seq<Instruction>, start: int, current: int, jumps: Seq<usize>)
    requires
        scanning(origin, start, current, jumps),
        current < origin.len() <= usize::MAX,
        origin[current] is JumpForwardIfZero,
        jumps.len() == 0 ==> current == start,
    ensures
        scanning(origin, start, current + 1, jumps.push(current as usize)),
        cached(origin, start, current + 1) == cached(origin, start, current),
{
    reveal(scanning);
    let s = shape(origin);
    let after = jumps.push(current as usize);
    lemma_cached_same(origin, start, current);
    assert forall|l: int| 1 <= l <= after.len() implies close_of(
        origin,
        after[after.len() - l] as int,
    ) == #[trigger] find_close(s, current + 1, l) by {
        if l > 1 {
            assert(close_of(origin, jumps[jumps.len() - (l - 1)] as int) == find_close(
                s,
                current,
                l - 1,
            ));
        }
    }
    assert forall|k: int| start <= k < current + 1 && #[trigger] s[k] == 1 implies after.contains(
        k as usize,
    ) || (close_of(origin, k) is Some && close_of(origin, k)->Some_0 < current + 1) by {
        if k == current {
            assert(after[after.len() - 1] == current as usize);
        } else if jumps.contains(k as usize) {
            let x = choose|x: int| 0 <= x < jumps.len() && jumps[x] == k as usize;
            assert(after[x] == k as usize);
        }
    }
}

/// Passing an instruction that is no jump changes nothing.
proof fn lemma_scan_other(origin: Seq<Instruction>, start: int, current: int, jumps: Seq<usize>)
    requires
        scanning(origin, start, current, jumps),
        current < origin.len(),
        !(origin[current] is JumpForwardIfZero),
        !(origin[current] is JumpBackwardUnlessZero),
    ensures
        scanning(origin, start, current + 1, jumps),
        cached(origin, start, current + 1) == cached(origin, start, current),
{
    reveal(scanning);
    let s = shape(origin);
    lemma_cached_same(origin, start, current);
    assert forall|l: int| 1 <= l <= jumps.len() implies close_of(
        origin,
        jumps[jumps.len() - l] as int,
    ) == #[trigger] find_close(s, current + 1, l) by {
        assert(close_of(origin, jumps[jumps.len() - l] as int) == find_close(s, current, l));
    }
}

/// Passing a `]` closes the loop that was opened last, and its target is
/// the one that is stored.
proof fn lemma_scan_close(origin: Seq<Instruction>, start: int, current: int, jumps: Seq<usize>)
    requires
        scanning(origin, start, current, jumps),
        current < origin.len() <= usize::MAX,
        origin[current] is JumpBackwardUnlessZero,
        jumps.len() > 0,
    ensures
        close_of(origin, jumps.last() as int) == Some(current),
        origin[jumps.last() as int] is JumpForwardIfZero,
        jumps.len() == 1 ==> jumps.last() == start,
        scanning(origin, start, current + 1, jumps.drop_last()),
        cached(origin, start, current + 1) == cached(origin, start, current).update(
            jumps.last() as int,
            Instruction::JumpForwardIfZero { matching: Some((current + 1) as usize) },
        ),
{
    reveal(scanning);
    let s = shape(origin);
    let after = jumps.drop_last();
    let open = jumps.last() as int;
    assert(jumps[jumps.len() - 1] == jumps.last());
    assert(close_of(origin, open) == find_close(s, current, 1));
    assert(s[open] == 1);
    assert forall|l: int| 1 <= l <= after.len() implies close_of(
        origin,
        after[after.len() - l] as int,
    ) == #[trigger] find_close(s, current + 1, l) by {
        assert(close_of(origin, jumps[jumps.len() - (l + 1)] as int) == find_close(
            s,
            current,
            l + 1,
        ));
    }
    assert forall|k: int| start <= k < current + 1 && #[trigger] s[k] == 1 implies after.contains(
        k as usize,
    ) || (close_of(origin, k) is Some && close_of(origin, k)->Some_0 < current + 1) by {
        if k < current && jumps.contains(k as usize) {
            let x = choose|x: int| 0 <= x < jumps.len() && jumps[x] == k as usize;
            if x < after.len() {
                assert(after[x] == k as usize);
            }
        }
    }
    let target = cached(origin, start, current).update(
        open,
        Instruction::JumpForwardIfZero { matching: Some((current + 1) as usize) },
    );
    assert forall|k: int| 0 <= k < origin.len() implies target[k] == cached(
        origin,
        start,
        current + 1,
    )[k] by {
        if start <= k && origin[k] is JumpForwardIfZero {
            lemma_find_close_bounds(s, k + 1, 1);
            if k != open && close_of(origin, k) == Some(current) {
                assert(s[k] == 1);
                assert(jumps.contains(k as usize));
                let x = choose|x: int| 0 <= x < jumps.len() && jumps[x] == k as usize;
                let l = jumps.len() - x;
                assert(close_of(origin, jumps[jumps.len() - l] as int) == find_close(
                    s,
                    current,
                    l,
                ));
                lemma_find_close_bounds(s, current + 1, l - 1);
            }
        }
    }
    assert(target =~= cached(origin, start, current + 1));
}

/// A loop that is still open at the end of the program has no `]`.
proof fn lemma_scan_end(origin: Seq<Instruction>, start: int, jumps: Seq<usize>)
    requires
        scanning(origin, start, origin.len() as int, jumps),
        jumps.len() > 0,
    ensures
        close_of(origin, start) is None,
{
    reveal(scanning);
    let s = shape(origin);
    assert(close_of(origin, jumps[jumps.len() - jumps.len()] as int) == find_close(
        s,
        origin.len() as int,
        jumps.len() as int,
    ));
}

/// Finds the `]` that matches the `[` at `start` and returns the index one
/// past it, storing on its way the target of every `[` that it sees closed.
/// `None` if the program ends first.
pub(crate) fn fill_matching(program: &mut Vec<Instruction>, start: usize) -> (r: Option<usize>)
    requires
        start < old(program)@.len(),
        old(program)@[start as int] is JumpForwardIfZero,
    ensures
        match close_of(old(program)@, start as int) {
            Some(close) => r is Some && r->Some_0 == close + 1 && close < old(program)@.len()
                && final(program)@ == cached(old(program)@, start as int, close + 1),
            None => r is None && final(program)@ == cached(
                old(program)@,
                start as int,
                old(program)@.len() as int,
            ),
        },
{
    let ghost origin = program@;
    let size = program.len();
    let mut jumps: VecDeque<usize> = VecDeque::with_capacity(MAX_NESTED_JUMPS);
    let mut current = start;
    proof {
        lemma_scan_start(origin, start as int);
    }
    while current < size
        invariant
            start <= current <= size,
            size == origin.len(),
            origin == old(program)@,
            origin[start as int] is JumpForwardIfZero,
            program@ == cached(origin, start as int, current as int),
            current > start ==> jumps@.len() > 0,
            scanning(origin, start as int, current as int, jumps@),
        decreases size - current,
    {
        let instruction = program[current];
        assert(instruction is JumpForwardIfZero <==> origin[current as int] is JumpForwardIfZero);
        assert(instruction is JumpBackwardUnlessZero <==> origin[current as int]
            is JumpBackwardUnlessZero);
        match instruction {
            Instruction::JumpForwardIfZero { .. } => {
                proof {
                    lemma_scan_open(origin, start as int, current as int, jumps@);
                }
                jumps.push_back(current);
            },
            Instruction::JumpBackwardUnlessZero { .. } => {
                proof {
                    lemma_scan_close(origin, start as int, current as int, jumps@);
                }
                match jumps.pop_back() {
                    Some(open) => {
                        program[open] = Instruction::JumpForwardIfZero {
                            matching: Some(current + 1),
                        };
                    },
                    None => {
                        assert(false);
                    },
                }
            },
            _ => {
                proof {
                    lemma_scan_other(origin, start as int, current as int, jumps@);
                }
            },
        }
        if jumps.len() == 0 {
            return Some(current + 1);
        }
        current = current + 1;
    }
    proof {
        lemma_scan_end(origin, start as int, jumps@);
    }
    None
}

/// What one step of a machine did.
#[derive(Debug, PartialEq, Eq, Clone, Copy)]
pub struct Executed {
    /// The index of the instruction that was executed.
    pub index: usize,
    /// The instruction as it was fetched.
    pub instruction: Instruction,
    /// The byte that it emitted, if it emitted one.
    pub output: Option<u8>,
}

/// What a step from `s` reports: nothing for a halted machine, the fault if
/// the instruction raised one, else the instruction and what it emitted.
pub open spec fn report(s: State) -> Result<Option<Executed>, Error> {
    if halted(s) {
        Ok(None)
    } else {
        match fault(s) {
            Some(e) => Err(e),
            None => Ok(
                Some(
                    Executed {
                        index: s.next as usize,
                        instruction: s.program[s.next],
                        output: writes(s),
                    },
                ),
            ),
        }
    }
}

/// The byte that a read stores: the one delivered, or zero when the input
/// has run out.
pub open spec fn delivered(input: Option<u8>) -> u8 {
    match input {
        Some(byte) => byte,
        None => 0,
    }
}

/// Adds `amount` to `cell`, wrapping at 256.
fn add_wrapping(cell: u8, amount: usize) -> (r: u8)
    ensures
        r == cell_add(cell, amount as int),
{
    let low: usize = amount % 256;
    let sum: usize = (cell as usize + low) % 256;
    assert(sum == (cell + amount) % 256) by {
        vstd::arithmetic::div_mod::lemma_add_mod_noop_right(cell as int, amount as int, 256);
    }
    sum as u8
}

/// Subtracts `amount` from `cell`, wrapping at 256.
fn sub_wrapping(cell: u8, amount: usize) -> (r: u8)
    ensures
        r == cell_sub(cell, amount as int),
{
    let low: usize = amount % 256;
    let difference: usize = (cell as usize + 256 - low) % 256;
    assert(difference == (cell - amount) % 256) by {
        vstd::arithmetic::div_mod::lemma_sub_mod_noop_right(cell as int, amount as int, 256);
        vstd::arithmetic::div_mod::lemma_mod_add_multiples_vanish(cell - low, 256);
    }
    difference as u8
}

/// Appends zero cells until the tape has `len` cells.
fn grow_right(memory: &mut VecDeque<u8>, len: usize)
    requires
        old(memory)@.len() <= len,
    ensures
        final(memory)@ == old(memory)@ + zeros(len - old(memory)@.len()),
{
    let ghost origin = memory@;
    while memory.len() < len
        invariant
            origin == old(memory)@,
            origin.len() <= memory@.len() <= len,
            memory@ == origin + zeros(memory@.len() - origin.len()),
        decreases len - memory@.len(),
    {
        memory.push_back(0u8);
        assert(memory@ =~= origin + zeros(memory@.len() - origin.len()));
    }
    assert(memory@ =~= origin + zeros(len - origin.len()));
}

/// Puts `count` zero cells in front of the tape.
fn grow_left(memory: &mut VecDeque<u8>, count: usize)
    requires
        old(memory)@.len() + count <= usize::MAX,
    ensures
        final(memory)@ == zeros(count as int) + old(memory)@,
{
    let ghost origin = memory@;
    let mut done: usize = 0;
    assert(memory@ =~= zeros(0) + origin);
    while done < count
        invariant
            origin == old(memory)@,
            done <= count,
            memory@ == zeros(done as int) + origin,
        decreases count - done,
    {
        memory.push_front(0u8);
        done = done + 1;
        assert(memory@ =~= zeros(done as int) + origin);
    }
}

/// A program in execution.
///
/// A machine made by [`Machine::new`] is sound, and stepping keeps it so.
pub struct Machine {
    program: Vec<Instruction>,
    memory: VecDeque<u8>,
    pointer: usize,
    next_instruction: usize,
}

impl View for Machine {
    type V = State;

    closed spec fn view(&self) -> State {
        State {
            program: self.program@,
            memory: self.memory@,
            pointer: self.pointer as int,
            next: self.next_instruction as int,
        }
    }
}

impl Machine {
    /// A machine about to execute the first instruction of `program` on a
    /// tape of one zero cell.
    pub fn new(program: Vec<Instruction>) -> (machine: Machine)
        ensures
            machine@ == initial(program@),
    {
        let mut memory: VecDeque<u8> = VecDeque::new();
        memory.push_back(0u8);
        assert(memory@ =~= seq![0u8]);
        Machine { program, memory, pointer: 0, next_instruction: 0 }
    }

    /// Whether nothing is left to execute.
    pub fn halted(&self) -> (r: bool)
        ensures
            r == halted(self@),
    {
        self.next_instruction >= self.program.len()
    }

    /// Whether the next instruction takes a byte of input.
    pub fn wants_input(&self) -> (r: bool)
        ensures
            r == reads(self@),
    {
        if self.next_instruction >= self.program.len() {
            false
        } else {
            match self.program[self.next_instruction] {
                Instruction::Read => true,
                _ => false,
            }
        }
    }

    /// The index of the cell under the pointer.
    pub fn pointer(&self) -> (r: usize)
        ensures
            r == self@.pointer,
    {
        self.pointer
    }

    /// The index of the instruction to execute next.
    pub fn next_instruction(&self) -> (r: usize)
        ensures
            r == self@.next,
    {
        self.next_instruction
    }

    /// The whole tape.
    pub fn memory(&self) -> (r: &VecDeque<u8>)
        ensures
            r@ == self@.memory,
    {
        &self.memory
    }

    /// The program, with the jump targets found so far.
    pub fn program(&self) -> (r: &Vec<Instruction>)
        ensures
            r@ == self@.program,
    {
        &self.program
    }

    /// Executes the next instruction.
    ///
    /// `input` is the byte that the instruction gets if it is a read; `None`
    /// when the input has run out, which reads as zero.
    pub fn step(&mut self, input: Option<u8>) -> (r: Result<Option<Executed>, Error>)
        requires
            sound(old(self)@),
        ensures
            final(self)@ == step(old(self)@, delivered(input)),
            r == report(old(self)@),
            r matches Ok(Some(executed)) ==> executed.index == old(self)@.next,
            sound(final(self)@),
    {
        if self.next_instruction >= self.program.len() {
            return Ok(None);
        }
        let index = self.next_instruction;
        let instruction = self.program[index];
        let mut output: Option<u8> = None;
        let mut next = index + 1;
        match instruction {
            Instruction::Right(n) => {
                let target = match self.pointer.checked_add(n) {
                    Some(target) => target,
                    None => {
                        return Err(Error::TapeOverflow);
                    },
                };
                if target == usize::MAX {
                    return Err(Error::TapeOverflow);
                }
                if target >= self.memory.len() {
                    grow_right(&mut self.memory, target + 1);
                }
                self.pointer = target;
            },
            Instruction::Left(n) => {
                if n > self.pointer {
                    let count = n - self.pointer;
                    if count > usize::MAX - self.memory.len() {
                        return Err(Error::TapeOverflow);
                    }
                    grow_left(&mut self.memory, count);
                    self.pointer = 0;
                } else {
                    self.pointer = self.pointer - n;
                }
            },
            Instruction::Increment(n) => {
                let cell = self.memory[self.pointer];
                let sum = add_wrapping(cell, n);
                store(&mut self.memory, self.pointer, sum);
            },
            Instruction::Decrement(n) => {
                let cell = self.memory[self.pointer];
                let difference = sub_wrapping(cell, n);
                store(&mut self.memory, self.pointer, difference);
            },
            Instruction::Write => {
                output = Some(self.memory[self.pointer]);
            },
            Instruction::Read => {
                let byte = match input {
                    Some(byte) => byte,
                    None => 0u8,
                };
                store(&mut self.memory, self.pointer, byte);
            },
            Instruction::JumpForwardIfZero { matching } => {
                if self.memory[self.pointer] == 0 {
                    match matching {
                        Some(target) => {
                            next = target;
                        },
                        None => {
                            match fill_matching(&mut self.program, index) {
                                Some(target) => {
                                    next = target;
                                        },
                                None => {
                                    return Err(Error::MismatchedJump);
                                },
                            }
                        },
                    }
                }
            },
            Instruction::JumpBackwardUnlessZero { matching } => {
                if self.memory[self.pointer] != 0 {
                    next = matching;
                }
            },
        }
        self.next_instruction = next;
        Ok(Some(Executed { index, instruction, output }))
    }
}

} // verus!
