//! Groups sequencing-read files into paired-end samples and single reads,
//! and turns the result into assembler job lines.

mod chars;
pub mod path_name;
pub mod extension;
pub mod pattern;
pub mod classify;
pub mod laws;
pub mod jobs;

use vstd::prelude::*;

verus! {

/// Which end of a paired-end fragment a read file holds.
#[derive(Clone, Copy, Debug, PartialEq, Eq, Structural, Hash)]
pub enum ReadDirection {
    Forward,
    Reverse,
}

} // verus!
