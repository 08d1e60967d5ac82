//! The options that the command line sets.

use vstd::prelude::*;

verus! {

/// What the command line asked for.
pub struct Options {
    /// How many results to show; 0 shows all of them.
    pub limit: usize,
    /// The search terms, joined by single spaces.
    pub query: String,
    /// Keep asking for queries after the first one.
    pub interactive: bool,
}

impl Default for Options {
    fn default() -> (r: Self)
        ensures
            r.limit == 0,
            r.query@ == Seq::<char>::empty(),
            !r.interactive,
    {
        Options { limit: 0, query: String::new(), interactive: false }
    }
}

} // verus!
