//! The configuration of a run.
use vstd::prelude::*;

verus! {

/// The resolved configuration of one run.
pub struct Args {
    /// The program file.
    pub file: String,
    /// Bits per cell: 8, 16 or 32.
    pub cell_size: u32,
    /// Number of cells; positive.
    pub memory_size: u32,
    /// Pointer motion past either end of the tape wraps around.
    pub wrap_around: bool,
    /// Cell arithmetic that leaves the cell's range is an error instead of wrapping.
    pub no_overflows: bool,
    /// The program runs as parsed, without optimisation.
    pub unoptimised: bool,
    /// The run reports how long it took.
    pub timed: bool,
    /// Writing a cell prints a record of the pointer and the value.
    pub debug: bool,
    /// `Y` forks the program.
    pub fork: bool,
}

} // verus!
