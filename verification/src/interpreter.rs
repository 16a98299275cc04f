//! Whole runs of a program over input and output that are held in memory.

use vstd::prelude::*;
use std::collections::VecDeque;
use crate::error::Error;
use crate::instruction::Instruction;
use crate::machine::{delivered, fault, halted, initial, reads, sound, step, writes, Machine, State};

verus! {

/// What an observer is shown after each instruction.
#[derive(Debug, Clone, PartialEq, Eq)]
pub struct InterpreterState<'a> {
    /// The index in the program of the instruction that was just executed.
    pub current_instruction: usize,
    /// The instruction that was just executed.
    pub instruction: Instruction,
    /// The index of the cell under the pointer.
    pub current_pointer: usize,
    /// The whole tape.
    pub memory: &'a VecDeque<u8>,
}

/// A run at one moment: the machine, how many bytes of input were taken,
/// what was emitted, and the fault that ended the run if one did.
pub struct Run {
    pub machine: State,
    pub consumed: nat,
    pub output: Seq<u8>,
    pub fault: Option<Error>,
}

/// The run of `program` before its first instruction.
pub open spec fn start(program: Seq<Instruction>) -> Run {
    Run { machine: initial(program), consumed: 0, output: Seq::empty(), fault: None }
}

/// Nothing more happens in this run.
pub open spec fn settled(r: Run) -> bool {
    r.fault is Some || halted(r.machine)
}

/// The byte of `input` that comes after the first `consumed`, if one is left.
pub open spec fn offered(input: Seq<u8>, consumed: nat) -> Option<u8> {
    if consumed < input.len() {
        Some(input[consumed as int])
    } else {
        None
    }
}

/// The run after one more instruction. A read takes the next byte of
/// `input` while there is one; a write adds its byte to the output.
pub open spec fn advance(r: Run, input: Seq<u8>) -> Run {
    if settled(r) {
        r
    } else {
        let given = if reads(r.machine) {
            offered(input, r.consumed)
        } else {
            None
        };
        Run {
            machine: step(r.machine, delivered(given)),
            consumed: if given is Some {
                r.consumed + 1
            } else {
                r.consumed
            },
            output: match writes(r.machine) {
                Some(byte) => r.output.push(byte),
                None => r.output,
            },
            fault: fault(r.machine),
        }
    }
}

/// The run after `steps` more instructions, or fewer if it settles before.
pub open spec fn run(r: Run, input: Seq<u8>, steps: nat) -> Run
    decreases steps,
{
    if steps == 0 {
        r
    } else {
        advance(run(r, input, (steps - 1) as nat), input)
    }
}

/// A run that has settled stays as it is.
pub proof fn lemma_settled_stays(r: Run, input: Seq<u8>, at: nat, later: nat)
    requires
        settled(run(r, input, at)),
        at <= later,
    ensures
        run(r, input, later) == run(r, input, at),
    decreases later,
{
    if later > at {
        lemma_settled_stays(r, input, at, (later - 1) as nat);
    }
}

/// How a run within a limit ended.
#[derive(Debug, PartialEq, Eq, Clone, Copy)]
pub struct Outcome {
    /// Whether the program ran to its end; `false` if the limit came first.
    pub halted: bool,
    /// How many bytes of the input were taken.
    pub consumed: usize,
}

/// What a run within `limit` steps returns.
pub open spec fn result_of(end: Run) -> Result<Outcome, Error> {
    match end.fault {
        Some(e) => Err(e),
        None => Ok(Outcome { halted: halted(end.machine), consumed: end.consumed as usize }),
    }
}

/// The step that `r` takes next executes an instruction: the run has not
/// settled and the instruction raises no fault.
pub open spec fn executes(r: Run) -> bool {
    !settled(r) && fault(r.machine) is None
}

/// `callback` was called with the state that the step from `before` to
/// `after` left: the index and the instruction of that step, and the
/// pointer and the tape after it.
pub open spec fn observed<F: FnMut(InterpreterState)>(callback: F, before: Run, after: Run) -> bool {
    exists|state: InterpreterState|
        #![trigger call_ensures(callback, (state,), ())]
        {
            &&& state.current_instruction == before.machine.next
            &&& state.instruction == before.machine.program[before.machine.next]
            &&& state.current_pointer == after.machine.pointer
            &&& state.memory@ == after.machine.memory
            &&& call_ensures(callback, (state,), ())
        }
}

/// If step `k` of the run from `first` executes an instruction, `callback`
/// was called with the state that it left.
pub open spec fn observed_at<F: FnMut(InterpreterState)>(
    callback: F,
    first: Run,
    input: Seq<u8>,
    k: nat,
) -> bool {
    executes(run(first, input, k)) ==> observed(
        callback,
        run(first, input, k),
        run(first, input, k + 1),
    )
}

/// Runs `program` on the input `inp` for at most `limit` instructions,
/// appending what it emits to `out`. `callback` is called after each
/// instruction that was executed, with the state it left.
#[verifier::loop_isolation(false)]
pub fn interpret_within<F: FnMut(InterpreterState)>(
    inp: &[u8],
    out: &mut Vec<u8>,
    program: Vec<Instruction>,
    mut callback: F,
    limit: u64,
) -> (r: Result<Outcome, Error>)
    requires
        forall|state: InterpreterState|
            state.current_pointer < state.memory@.len() ==> call_requires(callback, (state,)),
    ensures
        final(out)@ == old(out)@ + run(start(program@), inp@, limit as nat).output,
        r == result_of(run(start(program@), inp@, limit as nat)),
        forall|k: nat| k < limit ==> #[trigger] observed_at(callback, start(program@), inp@, k),
{
    let ghost first = start(program@);
    let ghost observer = callback;
    let mut machine = Machine::new(program);
    let mut consumed: usize = 0;
    let mut steps: u64 = 0;
    assert(out@ =~= old(out)@ + first.output);
    while steps < limit
        invariant
            steps <= limit,
            first == start(program@),
            callback == observer,
            consumed <= inp@.len(),
            sound(machine@),
            forall|state: InterpreterState|
                state.current_pointer < state.memory@.len() ==> call_requires(callback, (state,)),
            run(first, inp@, steps as nat) == (Run {
                machine: machine@,
                consumed: consumed as nat,
                output: run(first, inp@, steps as nat).output,
                fault: None,
            }),
            out@ == old(out)@ + run(first, inp@, steps as nat).output,
            forall|k: nat| k < steps ==> #[trigger] observed_at(observer, first, inp@, k),
        decreases limit - steps,
    {
        let ghost now = run(first, inp@, steps as nat);
        if machine.halted() {
            proof {
                lemma_settled_stays(first, inp@, steps as nat, limit as nat);
                assert forall|k: nat| steps <= k implies #[trigger] observed_at(
                    observer,
                    first,
                    inp@,
                    k,
                ) by {
                    lemma_settled_stays(first, inp@, steps as nat, k);
                }
            }
            return Ok(Outcome { halted: true, consumed });
        }
        let input = if machine.wants_input() && consumed < inp.len() {
            let byte = inp[consumed];
            consumed = consumed + 1;
            Some(byte)
        } else {
            None
        };
        assert(run(first, inp@, (steps + 1) as nat) == advance(now, inp@));
        match machine.step(input) {
            Err(e) => {
                proof {
                    lemma_settled_stays(first, inp@, (steps + 1) as nat, limit as nat);
                    assert forall|k: nat| steps <= k implies #[trigger] observed_at(
                        observer,
                        first,
                        inp@,
                        k,
                    ) by {
                        if k > steps {
                            lemma_settled_stays(first, inp@, (steps + 1) as nat, k);
                        }
                    }
                }
                return Err(e);
            },
            Ok(None) => {},
            Ok(Some(executed)) => {
                if let Some(byte) = executed.output {
                    out.push(byte);
                }
                assert(out@ =~= old(out)@ + advance(now, inp@).output);
                let state = InterpreterState {
                    current_instruction: executed.index,
                    instruction: executed.instruction,
                    current_pointer: machine.pointer(),
                    memory: machine.memory(),
                };
                assert(state.current_pointer < state.memory@.len());
                callback(state);
                assert(observed_at(observer, first, inp@, steps as nat)) by {
                    assert(call_ensures(observer, (state,), ()));
                }
            },
        }
        steps = steps + 1;
    }
    Ok(Outcome { halted: machine.halted(), consumed })
}

/// Runs `program` on the input `inp`, appending what it emits to `out`.
/// `callback` is called after each instruction that was executed, with the
/// state it left.
///
/// A program that does not end is given up after `u64::MAX` instructions.
pub fn interpret<F: FnMut(InterpreterState)>(
    inp: &[u8],
    out: &mut Vec<u8>,
    program: Vec<Instruction>,
    callback: F,
) -> (r: Result<Outcome, Error>)
    requires
        forall|state: InterpreterState|
            state.current_pointer < state.memory@.len() ==> call_requires(callback, (state,)),
    ensures
        final(out)@ == old(out)@ + run(start(program@), inp@, u64::MAX as nat).output,
        r == result_of(run(start(program@), inp@, u64::MAX as nat)),
        forall|k: nat| k < u64::MAX ==> #[trigger] observed_at(callback, start(program@), inp@, k),
{
    interpret_within(inp, out, program, callback, u64::MAX)
}

} // verus!
