//! What can go wrong when compiling or running a program.

use vstd::prelude::*;

verus! {

/// A fatal condition; nothing is retried after one.
#[derive(Debug, PartialEq, Eq, Clone, Copy)]
pub enum Error {
    /// A `[` without its `]`, or a `]` without its `[`.
    MismatchedJump,
    /// The tape would no longer fit the address space.
    TapeOverflow,
}

} // verus!
