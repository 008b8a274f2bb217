//! Escape-time rendering of a Julia set: the rules that decide when a point
//! has escaped, how an escape count becomes a colour, how the pixels of a
//! canvas are shared out among workers, and how their results are gathered
//! into an image.
//!
//! Real numbers do not appear in this crate. Where a rule needs a value that
//! a caller computed in binary64 arithmetic, the value arrives as its IEEE 754
//! encoding (see [`binary64::Binary64`]); the arithmetic itself is supplied by
//! the caller as closures.

pub mod binary64;
pub mod color;
pub mod config;
pub mod dispatch;
pub mod escape;
pub mod grid;
pub mod canvas;
