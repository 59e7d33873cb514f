//! Subpass bookkeeping.
//!
//! Building an actual subpass description is pure argument plumbing into the
//! device API and lives with the embedding program; the manager itself
//! carries no state.
use vstd::prelude::*;

verus! {

/// Builder of subpass descriptions.  Stateless: every description is built
/// from its arguments alone.
#[derive(Clone, Copy, PartialEq, Eq, Structural, Debug)]
pub struct SubpassManager {}

impl SubpassManager {
    /// A fresh manager.
    pub fn new() -> (r: SubpassManager)
        ensures
            r == (SubpassManager {  }),
    {
        SubpassManager {  }
    }
}

} // verus!
