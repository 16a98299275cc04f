//! Writing numbers and tapes as text.

use vstd::prelude::*;
use vstd::string::{StrSliceExecFns, StringExecFns};
use std::collections::VecDeque;

verus! {

/// The character of the digit `d`.
pub open spec fn digit(d: int) -> char {
    if d == 0 {
        '0'
    } else if d == 1 {
        '1'
    } else if d == 2 {
        '2'
    } else if d == 3 {
        '3'
    } else if d == 4 {
        '4'
    } else if d == 5 {
        '5'
    } else if d == 6 {
        '6'
    } else if d == 7 {
        '7'
    } else if d == 8 {
        '8'
    } else {
        '9'
    }
}

/// `n` in decimal, without leading zeros.
pub open spec fn decimal(n: nat) -> Seq<char>
    decreases n,
{
    if n < 10 {
        seq![digit(n as int)]
    } else {
        decimal(n / 10).push(digit((n % 10) as int))
    }
}

/// `n` spaces.
pub open spec fn spaces(n: int) -> Seq<char> {
    Seq::new(n as nat, |i: int| ' ')
}

/// `text` with spaces behind it until it is `width` long.
pub open spec fn padded_end(text: Seq<char>, width: int) -> Seq<char> {
    if text.len() >= width {
        text
    } else {
        text + spaces(width - text.len())
    }
}

/// `text` with spaces before it until it is `width` long.
pub open spec fn padded_start(text: Seq<char>, width: int) -> Seq<char> {
    if text.len() >= width {
        text
    } else {
        spaces(width - text.len()) + text
    }
}

/// No character of `text` starts an escape sequence.
pub open spec fn printable(text: Seq<char>) -> bool {
    forall|i: int| 0 <= i < text.len() ==> text[i] != '\x1b'
}

/// A number in decimal has at least one character and none that starts an
/// escape sequence.
pub proof fn lemma_decimal(n: nat)
    ensures
        decimal(n).len() >= 1,
        printable(decimal(n)),
    decreases n,
{
    if n >= 10 {
        lemma_decimal(n / 10);
    }
}

/// The digit `d` as text.
fn digit_text(d: usize) -> (r: &'static str)
    requires
        d < 10,
    ensures
        r@ == seq![digit(d as int)],
{
    proof {
        reveal_strlit("0");
        reveal_strlit("1");
        reveal_strlit("2");
        reveal_strlit("3");
        reveal_strlit("4");
        reveal_strlit("5");
        reveal_strlit("6");
        reveal_strlit("7");
        reveal_strlit("8");
        reveal_strlit("9");
    }
    let r = if d == 0 {
        "0"
    } else if d == 1 {
        "1"
    } else if d == 2 {
        "2"
    } else if d == 3 {
        "3"
    } else if d == 4 {
        "4"
    } else if d == 5 {
        "5"
    } else if d == 6 {
        "6"
    } else if d == 7 {
        "7"
    } else if d == 8 {
        "8"
    } else {
        "9"
    };
    assert(r@ =~= seq![digit(d as int)]);
    r
}

/// Appends `n` in decimal to `text`.
pub fn push_decimal(text: &mut String, n: usize)
    ensures
        final(text)@ == old(text)@ + decimal(n as nat),
    decreases n,
{
    if n >= 10 {
        push_decimal(text, n / 10);
    }
    text.append(digit_text(n % 10));
    assert(text@ =~= old(text)@ + decimal(n as nat));
}

/// Appends `n` spaces to `text`.
pub fn push_spaces(text: &mut String, n: usize)
    ensures
        final(text)@ == old(text)@ + spaces(n as int),
{
    proof {
        reveal_strlit(" ");
    }
    let mut i: usize = 0;
    assert(text@ =~= old(text)@ + spaces(0));
    while i < n
        invariant
            i <= n,
            text@ == old(text)@ + spaces(i as int),
        decreases n - i,
    {
        text.append(" ");
        i = i + 1;
        proof {
            reveal_strlit(" ");
            assert(" "@ =~= seq![' ']);
            assert(text@ =~= old(text)@ + spaces(i as int));
        }
    }
}

/// `n` in decimal.
pub fn decimal_text(n: usize) -> (text: String)
    ensures
        text@ == decimal(n as nat),
{
    let mut text = String::new();
    push_decimal(&mut text, n);
    assert(text@ =~= decimal(n as nat));
    text
}

/// Appends `piece` to `text` with spaces behind it until it is `width` long.
pub fn push_padded_end(text: &mut String, piece: &str, width: usize)
    ensures
        final(text)@ == old(text)@ + padded_end(piece@, width as int),
{
    let len = piece.unicode_len();
    text.append(piece);
    if len < width {
        push_spaces(text, width - len);
    }
    assert(text@ =~= old(text)@ + padded_end(piece@, width as int));
}

/// `piece` with spaces before it until it is `width` long.
pub fn pad_start(piece: &str, width: usize) -> (text: String)
    ensures
        text@ == padded_start(piece@, width as int),
{
    let len = piece.unicode_len();
    let mut text = String::new();
    if len < width {
        push_spaces(&mut text, width - len);
    }
    text.append(piece);
    assert(text@ =~= padded_start(piece@, width as int));
    text
}

/// `piece` with spaces behind it until it is `width` long.
pub fn pad_end(piece: &str, width: usize) -> (text: String)
    ensures
        text@ == padded_end(piece@, width as int),
{
    let mut text = String::new();
    push_padded_end(&mut text, piece, width);
    assert(text@ =~= padded_end(piece@, width as int));
    text
}

/// The cells of a tape, each in decimal with a space before it.
pub open spec fn cells_text(memory: Seq<u8>) -> Seq<char>
    decreases memory.len(),
{
    if memory.len() == 0 {
        Seq::empty()
    } else {
        cells_text(memory.drop_last()) + seq![' '] + decimal(memory.last() as nat)
    }
}

/// Appends the cells of `memory` to `text`, each in decimal with a space
/// before it.
pub fn push_cells(text: &mut String, memory: &VecDeque<u8>)
    ensures
        final(text)@ == old(text)@ + cells_text(memory@),
{
    proof {
        reveal_strlit(" ");
    }
    let mut i: usize = 0;
    assert(memory@.take(0) =~= Seq::<u8>::empty());
    assert(text@ =~= old(text)@ + cells_text(memory@.take(0)));
    while i < memory.len()
        invariant
            i <= memory@.len(),
            text@ == old(text)@ + cells_text(memory@.take(i as int)),
        decreases memory@.len() - i,
    {
        text.append(" ");
        push_decimal(text, memory[i] as usize);
        proof {
            reveal_strlit(" ");
            assert(memory@.take(i + 1).drop_last() =~= memory@.take(i as int));
            assert(" "@ =~= seq![' ']);
            assert(text@ =~= old(text)@ + cells_text(memory@.take(i + 1)));
        }
        i = i + 1;
    }
    assert(memory@.take(memory@.len() as int) =~= memory@);
}

} // verus!
