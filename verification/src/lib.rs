use vstd::prelude::*;

pub mod bytes;
pub mod cli;
pub mod config;
pub mod engine;
pub mod eol;
pub mod fmt;
pub mod lines;
pub mod matcher;
pub mod model;
pub mod parse;
pub mod scan;
pub mod sort;
pub mod sort_core;

verus! {

} // verus!
