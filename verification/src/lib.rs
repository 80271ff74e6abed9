//! Faithful, byte-preserving parsing and surgical editing of `~/.ssh/config`.
use vstd::prelude::*;

pub mod form;
pub mod host;
pub mod lcs;
pub mod model;
pub mod parser;
pub mod readback;
pub mod text;
pub mod writer;

verus! {

} // verus!
