//! The integer core of `klang`, a toolkit for WAV files: argument parsing, the
//! reproducible random generator, the tempo grid and its pattern roll, onset picking and
//! slicing, template placement, sample-width encoding and file-size display.

use vstd::prelude::*;

pub mod args;
pub mod grid;
pub mod onsets;
pub mod place;
pub mod rng;
pub mod sample;
pub mod size;
pub mod text;

verus! {

} // verus!
