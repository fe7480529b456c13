//! The configuration a scenario runs under.  The engine treats it opaquely:
//! it is recorded with each block of results and handed to every actor.

use vstd::prelude::*;

verus! {

/// An opaque scenario configuration, distinguished by its identifier.
#[derive(Clone, Copy, PartialEq, Eq, Structural, Debug)]
pub struct Config {
    pub id: usize,
}

} // verus!
