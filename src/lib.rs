//! Website-fingerprinting defence by page morphing: the number and sizes of
//! a page's embedded resources, and the size of the page itself, are padded
//! towards targets chosen deterministically or drawn from distributions.
use vstd::prelude::*;

pub mod error;
pub mod deterministic;
pub mod text;
pub mod parsing;
pub mod distribution;
pub mod pad;
pub mod objects;
pub mod dom;
pub mod morphing;

verus! {

} // verus!
