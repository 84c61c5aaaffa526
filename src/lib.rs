//! A byte-delimiter-oriented buffered reader that hands out each record as a
//! slice of its own fixed-size buffer, instead of copying it into one the
//! caller provides.
//!
//! Records longer than the buffer are handed out in pieces of exactly the
//! buffer's size; no byte is ever lost or duplicated.

pub mod bytes;
pub mod line_reader;
pub mod source;

pub use line_reader::LineReader;
