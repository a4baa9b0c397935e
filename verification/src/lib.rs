//! Boundary scan with a gear hash: advance a rolling 64-bit hash over a buffer
//! and stop at the first byte where the hash, under a mask, is zero.
//!
//! * [`gear`] is the model: the hash after a number of bytes, what a match is,
//!   and what a scan returns.
//! * [`scan`] holds the scans: byte by byte, and four strips at a time.
//! * [`laws`] relates several scans to one another.

pub mod gear;
pub mod laws;
pub mod scan;

pub use crate::gear::Table;
pub use crate::scan::{avx2_next_match, next_match, scalar_next_match};
