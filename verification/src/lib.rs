//! A deterministic, exhaustive model checker for client algorithms over a
//! revision-versioned key/value store.
//!
//! A scenario describes a handful of abstract clients performing reads,
//! writes and removes (with branching choices) against a shared store.  The
//! planner enumerates every linearization of the clients' program orders, the
//! runner replays each one against a clone of a baseline store through
//! per-client write-through caches, and a set of invariants is evaluated
//! after every step.  The first interleaving that violates an invariant is
//! reported with a reproducer: the plan, the failing step and the store at
//! that moment.

pub mod actor;
pub mod checker;
pub mod config;
pub mod format;
pub mod lex;
pub mod planner;
pub mod runner;
pub mod store;
pub mod table;

use vstd::prelude::*;

verus! {

/// A `Clone` implementation is exact when every value it can return is equal
/// (in the specification sense) to the value that was cloned.  The primitive
/// types and compounds of them have exact clones; contracts that follow a
/// value through a clone are stated unconditionally in terms of
/// `vstd::pervasive::cloned` and collapse to equalities under this premise.
pub open spec fn clone_exact<T: Clone>() -> bool {
    forall|a: T, b: T| vstd::pervasive::cloned::<T>(a, b) ==> b == a
}

} // verus!
