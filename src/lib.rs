//! Allocation-free formatted output.
//!
//! A format string is compiled into an ordered program of literal and verb
//! pieces; each verb consumes one argument, which a scratch encoder turns
//! into bytes, and every byte run is handed to a sink that reports how many
//! bytes it logically accepted.
pub mod compiler;
pub mod digits;
pub mod double;
pub mod render;
pub mod scratch;
pub mod sink;
mod utf8;

pub use compiler::{compile, parse, FormatError, Piece, Verb};
pub use render::{args_match, render, Arg};
pub use sink::{BufFormatter, Formatter};
pub use utf8::encode_utf8;
