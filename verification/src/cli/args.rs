//! The command line's arguments.

use vstd::prelude::*;

verus! {

/// Which sample count drives the LIR heatmap.
#[derive(Clone, Copy, Debug, PartialEq, Eq, Structural)]
pub enum Heat {
    /// Samples in the instruction and everything it calls.
    Total,
    /// Samples in the instruction itself.
    SelfCount,
}

/// What to render and where.
#[derive(Debug)]
pub struct Args {
    /// Input file, or `-` for standard input.
    pub input: String,
    /// Output file, or `-` for standard output; standard output if absent.
    pub output: Option<String>,
    /// Function name or zero-based index.
    pub func: String,
    /// Pass name or zero-based index.
    pub pass: String,
    /// Samples file with `totalLineHits` and `selfLineHits`.
    pub samples: Option<String>,
    /// Sample count used for the LIR heatmap.
    pub heatmap: Heat,
}

} // verus!
