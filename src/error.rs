//! Errors of the clustering library.
use vstd::prelude::*;

verus! {

/// Why an embedding matrix could not be built or a round could not run.
#[derive(Debug, Clone, Copy, PartialEq, Eq, Structural)]
pub enum ClusterError {
    /// The flat value list does not hold exactly `rows * dim` entries, or
    /// the matrix has no columns.
    MalformedInput,
    /// Some row is the zero vector, which has no direction.
    DegenerateVector,
    /// More rows or columns than the exact similarity arithmetic admits.
    TooLarge,
    /// A round was asked of a forest with no clusters.
    EmptyForest,
}

} // verus!
