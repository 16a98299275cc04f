//! An interpreter that carries its streams and its settings with it.

use vstd::prelude::*;
use vstd::string::{StrSliceExecFns, StringExecFns};
use vstd::utf8::encode_utf8;
use std::collections::VecDeque;
use crate::error::Error;
use crate::instruction::Instruction;
use crate::interpreter::{
    advance, lemma_settled_stays, result_of, run, settled, start, Outcome, Run,
};
use crate::machine::{fault, sound, Machine};
use crate::render::{cells_text, decimal, push_cells, push_decimal};

verus! {

/// The streams of a run, held in memory, with the settings of the run.
///
/// `delay` is how many milliseconds whoever drives the run waits after each
/// instruction; the interpreter itself never waits.
pub struct Interpreter {
    inp: Vec<u8>,
    out: Vec<u8>,
    err: Vec<u8>,
    debug: bool,
    delay: u64,
}

/// What an [`Interpreter`] holds.
pub struct Streams {
    /// The input that is still to be read.
    pub inp: Seq<u8>,
    /// What was emitted.
    pub out: Seq<u8>,
    /// What was reported beside the output.
    pub err: Seq<u8>,
    /// Whether each instruction is reported.
    pub debug: bool,
    /// The pause after each instruction, in milliseconds.
    pub delay: u64,
}

impl View for Interpreter {
    type V = Streams;

    closed spec fn view(&self) -> Streams {
        Streams {
            inp: self.inp@,
            out: self.out@,
            err: self.err@,
            debug: self.debug,
            delay: self.delay,
        }
    }
}

impl Interpreter {
    /// An interpreter over the given streams with the given settings.
    pub fn new(inp: Vec<u8>, out: Vec<u8>, err: Vec<u8>, debug: bool, delay: u64) -> (interpreter:
        Interpreter)
        ensures
            interpreter@ == (Streams { inp: inp@, out: out@, err: err@, debug, delay }),
    {
        Interpreter { inp, out, err, debug, delay }
    }

    /// An interpreter over the given streams that reports nothing and never
    /// pauses.
    pub fn from_streams(input: Vec<u8>, output: Vec<u8>, error: Vec<u8>) -> (interpreter:
        Interpreter)
        ensures
            interpreter@ == (Streams {
                inp: input@,
                out: output@,
                err: error@,
                debug: false,
                delay: 0,
            }),
    {
        Interpreter::new(input, output, error, false, 0)
    }

    /// What was emitted so far.
    pub fn out(&self) -> (r: &Vec<u8>)
        ensures
            r@ == self@.out,
    {
        &self.out
    }

    /// What was reported beside the output so far.
    pub fn err(&self) -> (r: &Vec<u8>)
        ensures
            r@ == self@.err,
    {
        &self.err
    }

    /// The input that is still to be read.
    pub fn inp(&self) -> (r: &Vec<u8>)
        ensures
            r@ == self@.inp,
    {
        &self.inp
    }

    /// Whether each instruction is reported.
    pub fn debug(&self) -> (r: bool)
        ensures
            r == self@.debug,
    {
        self.debug
    }

    /// The pause after each instruction, in milliseconds.
    pub fn delay(&self) -> (r: u64)
        ensures
            r == self@.delay,
    {
        self.delay
    }

    /// Runs `program` on what is left of the input, appending what it emits
    /// to the output, and takes from the input what the program read. With
    /// `debug` set, every instruction is reported on the error stream.
    ///
    /// A program that does not end is given up after `u64::MAX` instructions.
    pub fn interpret(&mut self, program: Vec<Instruction>) -> (r: Result<Outcome, Error>)
        ensures
            ({
                let first = start(program@);
                let end = run(first, old(self)@.inp, u64::MAX as nat);
                &&& r == result_of(end)
                &&& final(self)@.out == old(self)@.out + end.output
                &&& final(self)@.inp == old(self)@.inp.skip(end.consumed as int)
                &&& final(self)@.err == if old(self)@.debug {
                    old(self)@.err + reported(first, old(self)@.inp, u64::MAX as nat)
                } else {
                    old(self)@.err
                }
                &&& final(self)@.debug == old(self)@.debug
                &&& final(self)@.delay == old(self)@.delay
            }),
    {
        let mut taken: usize = 0;
        let r = run_reporting(
            &self.inp,
            &mut self.out,
            &mut self.err,
            self.debug,
            program,
            &mut taken,
        );
        self.inp = self.inp.split_off(taken);
        r
    }
}

/// The index that a report gives: one before the instruction that comes
/// next, wrapping below zero.
pub open spec fn last_index(next: int) -> nat {
    if next == 0 {
        usize::MAX as nat
    } else {
        (next - 1) as nat
    }
}

/// The line that reports one instruction: the index before the one that
/// comes next, the text of the instruction, the pointer, and the cells.
pub open spec fn report_line(next: int, instruction: Instruction, pointer: nat, memory: Seq<u8>)
    -> Seq<char> {
    "{\"lastInstructionIndex\": "@ + decimal(last_index(next)) + ", \"lastInstruction\": \""@
        + instruction.text() + "\", \"currentPointer\": "@ + decimal(pointer)
        + ", \"memory\": \""@ + cells_text(memory) + "\"}\n"@
}

/// The report of the step that `r` takes next: nothing if it takes none or
/// faults, else the line about the instruction and the state it leaves.
pub open spec fn report_of(r: Run, input: Seq<u8>) -> Seq<u8> {
    if settled(r) || fault(r.machine) is Some {
        Seq::empty()
    } else {
        let after = advance(r, input).machine;
        encode_utf8(
            report_line(
                after.next,
                r.machine.program[r.machine.next],
                after.pointer as nat,
                after.memory,
            ),
        )
    }
}

/// What is reported of the first `steps` steps of a run.
pub open spec fn reported(first: Run, input: Seq<u8>, steps: nat) -> Seq<u8>
    decreases steps,
{
    if steps == 0 {
        Seq::empty()
    } else {
        reported(first, input, (steps - 1) as nat) + report_of(
            run(first, input, (steps - 1) as nat),
            input,
        )
    }
}

/// Nothing more is reported of a run that has settled.
pub proof fn lemma_reported_stays(first: Run, input: Seq<u8>, at: nat, later: nat)
    requires
        settled(run(first, input, at)),
        at <= later,
    ensures
        reported(first, input, later) == reported(first, input, at),
    decreases later,
{
    if later > at {
        lemma_reported_stays(first, input, at, (later - 1) as nat);
        lemma_settled_stays(first, input, at, (later - 1) as nat);
        assert(reported(first, input, later) =~= reported(first, input, at));
    }
}

/// Writes the line that reports an instruction.
fn format_report(next: usize, instruction: Instruction, pointer: usize, memory: &VecDeque<u8>)
    -> (line: String)
    ensures
        line@ == report_line(next as int, instruction, pointer as nat, memory@),
{
    let mut line = String::new();
    line.append("{\"lastInstructionIndex\": ");
    let last = if next == 0 {
        usize::MAX
    } else {
        next - 1
    };
    push_decimal(&mut line, last);
    line.append(", \"lastInstruction\": \"");
    let text = instruction.to_string();
    line.append(text.as_str());
    line.append("\", \"currentPointer\": ");
    push_decimal(&mut line, pointer);
    line.append(", \"memory\": \"");
    push_cells(&mut line, memory);
    line.append("\"}\n");
    assert(line@ =~= report_line(next as int, instruction, pointer as nat, memory@));
    line
}

/// Runs `program` with the largest limit, counts in `taken` the bytes of
/// input that were read and, if `debug` is set, reports every instruction
/// on `err`.
fn run_reporting(
    inp: &Vec<u8>,
    out: &mut Vec<u8>,
    err: &mut Vec<u8>,
    debug: bool,
    program: Vec<Instruction>,
    taken: &mut usize,
) -> (r: Result<Outcome, Error>)
    ensures
        ({
            let first = start(program@);
            let end = run(first, inp@, u64::MAX as nat);
            &&& r == result_of(end)
            &&& final(out)@ == old(out)@ + end.output
            &&& final(err)@ == if debug {
                old(err)@ + reported(first, inp@, u64::MAX as nat)
            } else {
                old(err)@
            }
            &&& *final(taken) == end.consumed
            &&& end.consumed <= inp@.len()
        }),
{
    let ghost first = start(program@);
    let mut machine = Machine::new(program);
    let mut consumed: usize = 0;
    let mut steps: u64 = 0;
    let limit: u64 = u64::MAX;
    assert(out@ =~= old(out)@ + first.output);
    assert(err@ =~= old(err)@ + reported(first, inp@, 0));
    while steps < limit
        invariant
            steps <= limit,
            limit == u64::MAX,
            first == start(program@),
            consumed <= inp@.len(),
            sound(machine@),
            run(first, inp@, steps as nat) == (Run {
                machine: machine@,
                consumed: consumed as nat,
                output: run(first, inp@, steps as nat).output,
                fault: None,
            }),
            out@ == old(out)@ + run(first, inp@, steps as nat).output,
            err@ == if debug {
                old(err)@ + reported(first, inp@, steps as nat)
            } else {
                old(err)@
            },
        decreases limit - steps,
    {
        let ghost now = run(first, inp@, steps as nat);
        if machine.halted() {
            proof {
                lemma_settled_stays(first, inp@, steps as nat, limit as nat);
                lemma_reported_stays(first, inp@, steps as nat, limit as nat);
            }
            *taken = consumed;
            return Ok(Outcome { halted: true, consumed });
        }
        let input = if machine.wants_input() && consumed < inp.len() {
            let byte = inp[consumed];
            consumed = consumed + 1;
            Some(byte)
        } else {
            None
        };
        assert(run(first, inp@, (steps + 1) as nat) == advance(now, inp@));
        match machine.step(input) {
            Err(e) => {
                proof {
                    lemma_settled_stays(first, inp@, (steps + 1) as nat, limit as nat);
                    lemma_reported_stays(first, inp@, (steps + 1) as nat, limit as nat);
                    assert(reported(first, inp@, (steps + 1) as nat) =~= reported(
                        first,
                        inp@,
                        steps as nat,
                    ));
                }
                *taken = consumed;
                return Err(e);
            },
            Ok(None) => {},
            Ok(Some(executed)) => {
                if let Some(byte) = executed.output {
                    out.push(byte);
                }
                assert(out@ =~= old(out)@ + advance(now, inp@).output);
                if debug {
                    let line = format_report(
                        machine.next_instruction(),
                        executed.instruction,
                        machine.pointer(),
                        machine.memory(),
                    );
                    let mut bytes = line.as_str().as_bytes_vec();
                    err.append(&mut bytes);
                    assert(err@ =~= old(err)@ + reported(first, inp@, (steps + 1) as nat));
                }
            },
        }
        steps = steps + 1;
    }
    *taken = consumed;
    Ok(Outcome { halted: machine.halted(), consumed })
}

} // verus!
