//! The formats in which a run can be traced.

use vstd::prelude::*;
use vstd::string::StringExecFns;
use std::str::FromStr;
use colored::Colorize;
use crate::instruction::Instruction;
use crate::interpreter::InterpreterState;
use crate::render::{
    cells_text, decimal, decimal_text, lemma_decimal, pad_end, pad_start, padded_end,
    padded_start, printable, push_cells, push_decimal, push_padded_end,
};
use crate::text::same_text;

verus! {

/// The format of the trace of a run.
#[derive(Debug, PartialEq, Eq, Clone, Copy)]
pub enum DebugFormat {
    /// Text for a person to read.
    Text,
    /// One JSON object on each line.
    Json,
}

/// The format that `name` stands for.
pub open spec fn format_named(name: Seq<char>) -> Result<DebugFormat, ()> {
    if name == seq!['t', 'e', 'x', 't'] {
        Ok(DebugFormat::Text)
    } else if name == seq!['j', 's', 'o', 'n'] {
        Ok(DebugFormat::Json)
    } else {
        Err(())
    }
}

impl DebugFormat {
    /// Reads a format from its name.
    pub fn from_str(val: &str) -> (r: Result<DebugFormat, ()>)
        ensures
            r == format_named(val@),
    {
        proof {
            reveal_strlit("text");
            reveal_strlit("json");
            assert("text"@ =~= seq!['t', 'e', 'x', 't']);
            assert("json"@ =~= seq!['j', 's', 'o', 'n']);
        }
        if same_text(val, "text") {
            Ok(DebugFormat::Text)
        } else if same_text(val, "json") {
            Ok(DebugFormat::Json)
        } else {
            Err(())
        }
    }
}

impl FromStr for DebugFormat {
    type Err = ();

    /// Reads a format from its name, as the method of the same name does.
    fn from_str(val: &str) -> (r: Result<Self, Self::Err>)
        ensures
            r == format_named(val@),
    {
        DebugFormat::from_str(val)
    }
}

/// The line that traces one instruction as a JSON object: the index of the
/// instruction, its text, the pointer, and the cells of the tape.
pub open spec fn json_line(index: nat, instruction: Instruction, pointer: nat, memory: Seq<u8>)
    -> Seq<char> {
    "{\"currentInstructionIndex\": "@ + decimal(index) + ", \"instruction\": \""@
        + instruction.text() + "\", \"currentPointer\": "@ + decimal(pointer)
        + ", \"memory\": \""@ + cells_text(memory) + "\"}"@
}

/// Traces the instruction that left `state` as one line of JSON.
pub fn format_json(state: &InterpreterState) -> (line: String)
    ensures
        line@ == json_line(
            state.current_instruction as nat,
            state.instruction,
            state.current_pointer as nat,
            state.memory@,
        ),
{
    let mut line = String::new();
    line.append("{\"currentInstructionIndex\": ");
    push_decimal(&mut line, state.current_instruction);
    line.append(", \"instruction\": \"");
    let text = state.instruction.to_string();
    line.append(text.as_str());
    line.append("\", \"currentPointer\": ");
    push_decimal(&mut line, state.current_pointer);
    line.append(", \"memory\": \"");
    push_cells(&mut line, state.memory);
    line.append("\"}");
    assert(line@ =~= json_line(
        state.current_instruction as nat,
        state.instruction,
        state.current_pointer as nat,
        state.memory@,
    ));
    line
}

/// The last digit of the codes of a colour: `6` for cyan, `2` for green,
/// `5` for purple, `3` for yellow, `4` for blue.
pub open spec fn color_digit(name: Seq<char>) -> Option<char> {
    if name == "cyan"@ {
        Some('6')
    } else if name == "green"@ {
        Some('2')
    } else if name == "purple"@ {
        Some('5')
    } else if name == "yellow"@ {
        Some('3')
    } else if name == "blue"@ {
        Some('4')
    } else {
        None
    }
}

/// `text` between the escape sequence that switches on bold and the colour
/// of code `tens`, `ones`, and the one that switches everything off.
pub open spec fn escaped(tens: char, ones: char, text: Seq<char>) -> Seq<char> {
    seq!['\x1b', '[', '1', ';', tens, ones, 'm'] + text + seq!['\x1b', '[', '0', 'm']
}

/// `text` as it is, or made bold with the colour of code `tens`, `ones`.
pub open spec fn painted(tens: char, ones: char, text: Seq<char>, colorize: bool) -> Seq<char> {
    if colorize {
        escaped(tens, ones, text)
    } else {
        text
    }
}

/// Calls `Colorize::on_color` and `Colorize::bold` of the `colored` crate
/// and renders the result with `to_string`.
///
/// Believed of them, for text that holds no escape character and for the
/// colour names that `color_digit` knows: the result is `text` between the
/// sequence `ESC [ 1 ; 4 d m`, with `d` the digit of the colour, and the
/// sequence `ESC [ 0 m`; or it is `text` alone, which is what `colored`
/// writes when the environment or an override has colours switched off.
#[verifier::external_body]
fn bold_on(text: &str, background: &str) -> (out: String)
    requires
        printable(text@),
        color_digit(background@) is Some,
    ensures
        out@ == text@ || out@ == escaped('4', color_digit(background@)->Some_0, text@),
{
    text.on_color(background).bold().to_string()
}

/// Calls `Colorize::color` and `Colorize::bold` of the `colored` crate and
/// renders the result with `to_string`.
///
/// Believed of them, for text that holds no escape character and for the
/// colour names that `color_digit` knows: the result is `text` between the
/// sequence `ESC [ 1 ; 3 d m`, with `d` the digit of the colour, and the
/// sequence `ESC [ 0 m`; or it is `text` alone, which is what `colored`
/// writes when the environment or an override has colours switched off.
#[verifier::external_body]
fn bold_in(text: &str, foreground: &str) -> (out: String)
    requires
        printable(text@),
        color_digit(foreground@) is Some,
    ensures
        out@ == text@ || out@ == escaped('3', color_digit(foreground@)->Some_0, text@),
{
    text.color(foreground).bold().to_string()
}

/// The colour behind an instruction in a trace: one for each kind of work.
pub open spec fn tint(instruction: Instruction) -> Seq<char> {
    match instruction {
        Instruction::Right(_) | Instruction::Left(_) => "cyan"@,
        Instruction::Increment(_) | Instruction::Decrement(_) => "green"@,
        Instruction::Write => "purple"@,
        Instruction::Read => "yellow"@,
        Instruction::JumpForwardIfZero { .. } | Instruction::JumpBackwardUnlessZero { .. } => "blue"@,
    }
}

/// The name of the colour behind an instruction.
fn tint_name(instruction: Instruction) -> (name: &'static str)
    ensures
        name@ == tint(instruction),
        color_digit(name@) is Some,
{
    proof {
        reveal_strlit("cyan");
        reveal_strlit("green");
        reveal_strlit("purple");
        reveal_strlit("yellow");
        reveal_strlit("blue");
    }
    match instruction {
        Instruction::Right(_) | Instruction::Left(_) => "cyan",
        Instruction::Increment(_) | Instruction::Decrement(_) => "green",
        Instruction::Write => "purple",
        Instruction::Read => "yellow",
        Instruction::JumpForwardIfZero { .. } | Instruction::JumpBackwardUnlessZero { .. } => "blue",
    }
}

/// The cells of a tape in columns three wide, with `current` in place of
/// the cell under the pointer.
pub open spec fn cells_layout(memory: Seq<u8>, pointer: int, current: Seq<char>) -> Seq<char>
    decreases memory.len(),
{
    if memory.len() == 0 {
        Seq::empty()
    } else {
        cells_layout(memory.drop_last(), pointer, current) + seq![' '] + if memory.len() - 1
            == pointer {
            current
        } else {
            padded_start(decimal(memory.last() as nat), 3)
        }
    }
}

/// The line that traces one instruction for a reader: `#` and the index of
/// the instruction in a column three wide, `instruction`, and the cells.
pub open spec fn human_layout(
    index: nat,
    instruction: Seq<char>,
    memory: Seq<u8>,
    pointer: int,
    current: Seq<char>,
) -> Seq<char> {
    seq!['#'] + padded_end(decimal(index), 3) + seq![' '] + instruction + seq![' ']
        + cells_layout(memory, pointer, current)
}

/// Lays out the line that traces the instruction that left `state`, with
/// `instruction` and `current_cell` as they are to appear in it.
pub fn compose_human_readable(state: &InterpreterState, instruction: &str, current_cell: &str)
    -> (line: String)
    ensures
        line@ == human_layout(
            state.current_instruction as nat,
            instruction@,
            state.memory@,
            state.current_pointer as int,
            current_cell@,
        ),
{
    let mut line = String::new();
    line.append("#");
    let index = decimal_text(state.current_instruction);
    push_padded_end(&mut line, index.as_str(), 3);
    line.append(" ");
    line.append(instruction);
    line.append(" ");
    let ghost head = line@;
    proof {
        reveal_strlit("#");
        reveal_strlit(" ");
        assert("#"@ =~= seq!['#']);
        assert(" "@ =~= seq![' ']);
        assert(head =~= seq!['#'] + padded_end(decimal(state.current_instruction as nat), 3)
            + seq![' '] + instruction@ + seq![' ']);
    }
    let memory = state.memory;
    let pointer = state.current_pointer;
    let mut i: usize = 0;
    assert(memory@.take(0) =~= Seq::<u8>::empty());
    assert(line@ =~= head + cells_layout(memory@.take(0), pointer as int, current_cell@));
    while i < memory.len()
        invariant
            i <= memory@.len(),
            line@ == head + cells_layout(memory@.take(i as int), pointer as int, current_cell@),
        decreases memory@.len() - i,
    {
        line.append(" ");
        if i == pointer {
            line.append(current_cell);
        } else {
            let cell = decimal_text(memory[i] as usize);
            let column = pad_start(cell.as_str(), 3);
            line.append(column.as_str());
        }
        proof {
            reveal_strlit(" ");
            assert(" "@ =~= seq![' ']);
            assert(memory@.take(i + 1).drop_last() =~= memory@.take(i as int));
            assert(line@ =~= head + cells_layout(
                memory@.take(i + 1),
                pointer as int,
                current_cell@,
            ));
        }
        i = i + 1;
    }
    assert(memory@.take(memory@.len() as int) =~= memory@);
    line
}

/// The cell under the pointer of a trace, or zero if the pointer is off the
/// tape.
pub open spec fn current_cell(memory: Seq<u8>, pointer: int) -> nat {
    if 0 <= pointer < memory.len() {
        memory[pointer] as nat
    } else {
        0
    }
}

/// The line that traces one instruction for a reader, with the instruction
/// and the cell under the pointer painted or not.
pub open spec fn human_line(
    index: nat,
    instruction: Instruction,
    pointer: int,
    memory: Seq<u8>,
    instruction_width: int,
    instruction_painted: bool,
    cell_painted: bool,
) -> Seq<char> {
    human_layout(
        index,
        painted(
            '4',
            color_digit(tint(instruction))->Some_0,
            padded_end(instruction.text(), instruction_width),
            instruction_painted,
        ),
        memory,
        pointer,
        painted(
            '3',
            '4',
            padded_start(decimal(current_cell(memory, pointer)), 3),
            cell_painted,
        ),
    )
}

/// Traces the instruction that left `state` as a line for a reader: the
/// instruction in a column `instruction_width` wide, in bold on the colour
/// of its kind, and the cell under the pointer in bold blue. Whether the
/// escape sequences for that are written is for the environment to say.
pub fn format_human_readable(state: &InterpreterState, instruction_width: usize) -> (line: String)
    ensures
        exists|instruction_painted: bool, cell_painted: bool|
            line@ == human_line(
                state.current_instruction as nat,
                state.instruction,
                state.current_pointer as int,
                state.memory@,
                instruction_width as int,
                instruction_painted,
                cell_painted,
            ),
{
    let text = state.instruction.to_string();
    let column = pad_end(text.as_str(), instruction_width);
    let name = tint_name(state.instruction);
    proof {
        assert(printable(column@));
    }
    let instruction = bold_on(column.as_str(), name);
    let cell: usize = if state.current_pointer < state.memory.len() {
        state.memory[state.current_pointer] as usize
    } else {
        0
    };
    let number = decimal_text(cell);
    let number_column = pad_start(number.as_str(), 3);
    proof {
        lemma_decimal(cell as nat);
        assert(printable(number_column@));
        reveal_strlit("cyan");
        reveal_strlit("green");
        reveal_strlit("purple");
        reveal_strlit("yellow");
        reveal_strlit("blue");
        assert("blue"@[0] == 'b' && "cyan"@[0] == 'c');
        assert(color_digit("blue"@) == Some('4'));
    }
    let current = bold_in(number_column.as_str(), "blue");
    let line = compose_human_readable(state, instruction.as_str(), current.as_str());
    proof {
        let a = instruction@ != column@;
        let b = current@ != number_column@;
        assert(instruction@ == painted('4', color_digit(tint(state.instruction))->Some_0, column@, a));
        assert(current@ == painted('3', '4', number_column@, b));
        assert(line@ == human_line(
            state.current_instruction as nat,
            state.instruction,
            state.current_pointer as int,
            state.memory@,
            instruction_width as int,
            a,
            b,
        ));
    }
    line
}

} // verus!
