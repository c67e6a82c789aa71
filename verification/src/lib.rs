//! An interpreter for a tape language of eight single-character commands.
//!
//! [`parser`] turns source text into instructions whose loop brackets are
//! paired; [`interpreter`] executes them on a tape of bytes that grows on
//! demand, one step at a time, so that a driver can do the reading and the
//! displaying in between. The meaning of both is given by the spec functions
//! of [`brackets`] and [`machine`], against which the executable functions
//! are proved; [`text`] holds what is assumed of the standard library.

pub mod brackets;
pub mod interpreter;
pub mod machine;
pub mod parser;
pub mod text;
