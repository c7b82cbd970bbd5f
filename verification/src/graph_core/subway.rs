//! Vocabulary of the obstacle-aware orthogonal router.

use vstd::prelude::*;

verus! {

/// How a route was produced: by the search, or by one of the deterministic
/// midpoint fallbacks when a limit was hit or no path exists.
#[derive(Clone, Copy, Debug, PartialEq, Eq, Structural)]
pub enum RouteKind {
    Routed,
    GridLimitFallback,
    ExpansionLimitFallback,
    NoPathFallback,
}

} // verus!
