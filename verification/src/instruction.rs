//! The instruction model shared by the precompiler and the machine.

use vstd::prelude::*;
use vstd::string::StringExecFns;

verus! {

/// One instruction of a program.
///
/// The four repeatable kinds carry how many times they apply. A forward jump
/// carries the index to continue at once that is known; a backward jump
/// always carries it.
#[derive(Debug, PartialEq, Eq, Clone, Copy)]
#[allow(inconsistent_fields)]
pub enum Instruction {
    /// `>`: move the pointer to the right.
    Right(usize),
    /// `<`: move the pointer to the left.
    Left(usize),
    /// `+`: add to the cell under the pointer.
    Increment(usize),
    /// `-`: subtract from the cell under the pointer.
    Decrement(usize),
    /// `.`: emit the cell under the pointer.
    Write,
    /// `,`: store the next input byte in the cell under the pointer.
    Read,
    /// `[`: continue past the matching `]` if the cell under the pointer is zero.
    JumpForwardIfZero { matching: Option<usize> },
    /// `]`: continue at `matching` unless the cell under the pointer is zero.
    JumpBackwardUnlessZero { matching: usize },
}

impl Instruction {
    /// The source character this instruction is written with.
    pub open spec fn symbol(self) -> char {
        match self {
            Instruction::Right(_) => '>',
            Instruction::Left(_) => '<',
            Instruction::Increment(_) => '+',
            Instruction::Decrement(_) => '-',
            Instruction::Write => '.',
            Instruction::Read => ',',
            Instruction::JumpForwardIfZero { .. } => '[',
            Instruction::JumpBackwardUnlessZero { .. } => ']',
        }
    }

    /// How many source characters this instruction stands for.
    pub open spec fn count(self) -> nat {
        match self {
            Instruction::Right(n) => n as nat,
            Instruction::Left(n) => n as nat,
            Instruction::Increment(n) => n as nat,
            Instruction::Decrement(n) => n as nat,
            _ => 1,
        }
    }

    /// How often the symbol of this instruction is written: once for each
    /// repetition, and once where the count is zero.
    pub open spec fn shown(self) -> nat {
        if self.count() <= 1 {
            1
        } else {
            self.count()
        }
    }

    /// The text of this instruction: its symbol, as often as it is shown.
    pub open spec fn text(self) -> Seq<char> {
        repeated(self.symbol(), self.shown())
    }

    /// Renders the instruction as the source text it stands for.
    pub fn to_string(&self) -> (s: String)
        ensures
            s@ == self.text(),
    {
        proof {
            reveal_strlit(">");
            reveal_strlit("<");
            reveal_strlit("+");
            reveal_strlit("-");
            reveal_strlit(".");
            reveal_strlit(",");
            reveal_strlit("[");
            reveal_strlit("]");
            assert(">"@ =~= seq!['>']);
            assert("<"@ =~= seq!['<']);
            assert("+"@ =~= seq!['+']);
            assert("-"@ =~= seq!['-']);
            assert("."@ =~= seq!['.']);
            assert(","@ =~= seq![',']);
            assert("["@ =~= seq!['[']);
            assert("]"@ =~= seq![']']);
            lemma_repeated_text_of_char(self.symbol(), self.shown());
        }
        match *self {
            Instruction::Right(n) => format_instruction(">", n),
            Instruction::Left(n) => format_instruction("<", n),
            Instruction::Increment(n) => format_instruction("+", n),
            Instruction::Decrement(n) => format_instruction("-", n),
            Instruction::Write => format_instruction(".", 1),
            Instruction::Read => format_instruction(",", 1),
            Instruction::JumpForwardIfZero { .. } => format_instruction("[", 1),
            Instruction::JumpBackwardUnlessZero { .. } => format_instruction("]", 1),
        }
    }
}

/// `n` copies of `c`.
pub open spec fn repeated(c: char, n: nat) -> Seq<char> {
    Seq::new(n, |i: int| c)
}

/// `n` copies of `unit` one after another.
pub open spec fn repeated_text(unit: Seq<char>, n: nat) -> Seq<char>
    decreases n,
{
    if n == 0 {
        Seq::empty()
    } else {
        repeated_text(unit, (n - 1) as nat) + unit
    }
}

/// Repeating a single character as text gives the same as repeating the character.
pub proof fn lemma_repeated_text_of_char(c: char, n: nat)
    ensures
        repeated_text(seq![c], n) == repeated(c, n),
    decreases n,
{
    if n > 0 {
        lemma_repeated_text_of_char(c, (n - 1) as nat);
    }
    assert(repeated_text(seq![c], n) =~= repeated(c, n));
}

/// `unit` written for a count of `n`: as it is for a count of one or none,
/// else `n` times over.
pub open spec fn written(unit: Seq<char>, n: nat) -> Seq<char> {
    if n <= 1 {
        unit
    } else {
        repeated_text(unit, n)
    }
}

/// Writes `instr` for a count of `n`: once if the count is one or none,
/// else `n` times over.
pub fn format_instruction(instr: &str, n: usize) -> (s: String)
    ensures
        s@ == written(instr@, n as nat),
{
    let mut s = String::new();
    s.append(instr);
    assert(s@ =~= repeated_text(instr@, 1)) by {
        assert(repeated_text(instr@, 0) =~= Seq::<char>::empty());
    }
    assert(s@ =~= instr@);
    let mut i: usize = 1;
    while i < n
        invariant
            1 <= i,
            i <= n || i == 1,
            s@ == repeated_text(instr@, i as nat),
        decreases n - i,
    {
        s.append(instr);
        i = i + 1;
    }
    assert(repeated_text(instr@, 1) =~= instr@) by {
        assert(repeated_text(instr@, 0) =~= Seq::<char>::empty());
    }
    s
}

} // verus!
