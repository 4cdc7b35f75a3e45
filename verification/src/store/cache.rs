//! Queries over a scope's records: staleness, coverage health and impact.
pub mod gaps;
pub mod graph;
pub mod health;
pub mod impact;
pub mod materialize;
pub mod rules;
pub mod stale;
pub mod traceability;

use vstd::prelude::*;

verus! {

/// What rebuilding the cache loaded and which migrations it applied.
#[derive(Clone, Debug, PartialEq, Eq)]
pub struct MaterializeReport {
    pub records_loaded: u64,
    pub migrations_applied: Vec<String>,
}

/// Why a graph record appears on the shaping frontier.
#[derive(Clone, Copy, Debug, PartialEq, Eq, Structural)]
pub enum GapKind {
    /// A requirement has no domain assignment.
    MissingDomainId,
    /// A requirement has no source refs and no `references` edge.
    MissingSourceRefs,
    /// A resolved requirement has no `resolves` edge pointing at it.
    NoResolvingDecision,
    /// A resolved requirement or approved resolution produced no rule.
    NoProducedRules,
    /// No `produces` edge points at a rule.
    OrphanRule,
    /// A resolution resolves no requirement.
    OrphanResolution,
    /// A source nothing references.
    UnreferencedSource,
    /// A reference to a record that does not exist in the scope.
    DanglingReference,
    /// A `contradicts` pair has no resolving decision.
    UnresolvedContradictsPair,
    /// A question is still open.
    OpenQuestion,
    /// A topic is still unexplored.
    UnexploredTopic,
}

} // verus!
