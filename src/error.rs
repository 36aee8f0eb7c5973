//! Why a command could not be resolved.

use vstd::prelude::*;

verus! {

/// The ways resolving a command can fail.
#[derive(PartialEq, Eq, Structural, Debug, Clone, Copy)]
pub enum BotError {
    /// The judge or the feed could not be reached.
    SourceUnavailable,
    /// A response did not have the expected shape.
    ParseFailure,
    /// A command argument is not acceptable.
    InvalidArgument,
    /// The tagged query matched no problem.
    EmptySelection,
}

} // verus!
