//! Reading, sorting, merging and writing frequency lists of SDRangel and Perseus, with
//! the command line of the program that does so.

use vstd::prelude::*;

pub mod cli;
pub mod error;
pub mod fetch;
pub mod freq;
pub mod freqs;
pub mod level;
pub mod perseus;
pub mod schedule;
pub mod sdrangel;
pub mod text;

verus! {
}
