//! Failures of a run.

use vstd::prelude::*;

verus! {

/// Why a run could not produce a ranking.
#[derive(Debug, Clone, Copy, PartialEq, Eq, Structural)]
pub enum PipelineError {
    /// There were no documents to process.
    EmptyInput,
    /// The dictionary could not be turned into a tokenizer.
    Resource,
    /// A worker stopped before handing back its output.
    WorkerFailed,
}

} // verus!
