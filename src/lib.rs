//! A streaming decoder for the Tockloader bootloader protocol.
//!
//! Bytes arrive one at a time through [`Parser::receive`]; a command is handed
//! back as soon as its terminating escape sequence has been seen.

pub mod command;
pub mod laws;
pub mod parser;

pub use command::{Command, CommandView};
pub use parser::{Parser, ParserView, State};
