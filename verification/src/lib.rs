//! Compares the parameters and regression tests that two runs of a model produce: an old
//! run and a new one are parsed, matched by name, and the differences rendered.
use vstd::prelude::*;

pub mod args;
pub mod config;
pub mod diff;
pub mod keys;
pub mod laws;
pub mod number;
pub mod parse;
pub mod print;
pub mod run;
pub mod text;

verus! {
} // verus!
