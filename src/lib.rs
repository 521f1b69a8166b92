//! Procedural noise synthesis and mixing in fixed-point arithmetic.
//!
//! A normalized sample in `[-1.0, 1.0]` is held as an integer in
//! `[-ONE, ONE]`; volumes use the same unit.
use vstd::prelude::*;

pub mod mixer;
pub mod noise;
pub mod sample;
pub mod sink;

mod random;
