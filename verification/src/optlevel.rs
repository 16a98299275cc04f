//! How much the precompiler fuses.

use vstd::prelude::*;
use std::str::FromStr;
use crate::text::same_text;

verus! {

/// The optimization level of a compilation.
#[derive(Debug, PartialEq, Eq, Clone, Copy)]
pub enum OptimizationLevel {
    /// One instruction for each source character.
    Off,
    /// Runs of the same repeatable character become one instruction.
    Speed,
}

/// The level that `name` stands for: `0` is `Off`, `1` is `Speed`.
pub open spec fn level_named(name: Seq<char>) -> Result<OptimizationLevel, ()> {
    if name == seq!['0'] {
        Ok(OptimizationLevel::Off)
    } else if name == seq!['1'] {
        Ok(OptimizationLevel::Speed)
    } else {
        Err(())
    }
}

impl OptimizationLevel {
    /// Reads a level from its name.
    pub fn from_str(val: &str) -> (r: Result<OptimizationLevel, ()>)
        ensures
            r == level_named(val@),
    {
        proof {
            reveal_strlit("0");
            reveal_strlit("1");
            assert("0"@ =~= seq!['0']);
            assert("1"@ =~= seq!['1']);
        }
        if same_text(val, "0") {
            Ok(OptimizationLevel::Off)
        } else if same_text(val, "1") {
            Ok(OptimizationLevel::Speed)
        } else {
            Err(())
        }
    }
}

impl FromStr for OptimizationLevel {
    type Err = ();

    /// Reads a level from its name, as the method of the same name does.
    fn from_str(val: &str) -> (r: Result<Self, Self::Err>)
        ensures
            r == level_named(val@),
    {
        OptimizationLevel::from_str(val)
    }
}

} // verus!
