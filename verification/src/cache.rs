//! A store of evaluations by position.
use crate::chess::board::Board;
use std::collections::HashMap;
use vstd::prelude::*;

verus! {

/// What is remembered of a position.
#[derive(Copy, Clone, Debug, PartialEq, Eq, Structural)]
pub struct Evaluation;

/// The evaluations remembered so far, by position.
pub struct Cache {
    hashmap: HashMap<Board, Evaluation>,
}

impl View for Cache {
    type V = Map<Board, Evaluation>;

    closed spec fn view(&self) -> Map<Board, Evaluation> {
        self.hashmap@
    }
}

impl Default for Cache {
    /// A cache that remembers nothing.
    fn default() -> (cache: Cache)
        ensures
            cache@ == Map::<Board, Evaluation>::empty(),
    {
        Cache { hashmap: HashMap::new() }
    }
}

impl Cache {
    /// Forgets everything.
    pub fn clear(&mut self)
        ensures
            final(self)@ == Map::<Board, Evaluation>::empty(),
    {
        self.hashmap.clear();
    }
}

} // verus!
