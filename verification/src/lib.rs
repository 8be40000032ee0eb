//! An interpreter for a minimal eight-command tape language.
//!
//! A program is a text whose command characters `+ - < > . , [ ]` drive a
//! tape of byte cells that is unbounded in both directions. The loader turns
//! the text into instructions whose loop brackets know each other's position;
//! the engine runs those instructions against the tape, one step at a time.

pub mod engine;
pub mod loader;
pub mod program;
pub mod tape;

pub use engine::{execute, step, Machine, RunError};
pub use loader::validate_code;
pub use program::{Instruction, ParseError};
pub use tape::{
    cell_decrement, cell_increment, cell_input, cell_next, cell_prev, cell_print, cell_value,
};
