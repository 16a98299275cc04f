//! An interpreter for a minimal tape language of eight instructions.
//!
//! Source bytes are turned into a program by [`precompile`]; a [`Machine`]
//! executes a program one instruction at a time on a tape of wrapping byte
//! cells that grows in both directions.

pub mod debug_format;
pub mod error;
pub mod fusion;
pub mod instruction;
pub mod interpret;
pub mod interpreter;
pub mod laws;
pub mod machine;
pub mod nesting;
pub mod optlevel;
pub mod precompile;
pub mod render;
pub mod text;

pub use debug_format::{compose_human_readable, format_human_readable, format_json, DebugFormat};
pub use error::Error;
pub use instruction::{format_instruction, Instruction};
pub use interpret::Interpreter;
pub use interpreter::{interpret, interpret_within, InterpreterState, Outcome};
pub use machine::{Executed, Machine};
pub use optlevel::OptimizationLevel;
pub use precompile::precompile;
