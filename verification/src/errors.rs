//! The ways a request can be refused before any search starts.

use vstd::prelude::*;

verus! {

/// Why a request was refused. Every refusal is decided from the arguments
/// alone, before the search begins.
#[derive(Debug, Clone, Copy, PartialEq, Eq, Structural)]
pub enum ConfigError {
    /// There are no items to group.
    EmptyPopulation,
    /// The conflict relation is not square, or not symmetric.
    MalformedRelation,
    /// The minimum group size is zero, or larger than the population, so
    /// that not even one group can be formed.
    InfeasibleMinimum,
    /// The minimum group size is one. Rounds of singletons pair nobody, so
    /// they can be repeated without end and no longest schedule exists.
    UnboundedRounds,
}

} // verus!
