//! Indexes from document values to the documents they were found in.

use vstd::prelude::*;
use crate::json::JsonValue;

verus! {

/// What an index holds for one value: one document, or several.
#[derive(Debug, PartialEq, Eq)]
pub enum IndexEntry {
    Uniq(JsonValue),
    Multiple(Vec<JsonValue>),
}

/// An index: value/entry pairs, each value at most once.
#[derive(Debug, PartialEq, Eq)]
pub struct Index {
    entries: Vec<(JsonValue, IndexEntry)>,
}

impl View for Index {
    type V = Seq<(JsonValue, IndexEntry)>;

    closed spec fn view(&self) -> Seq<(JsonValue, IndexEntry)> {
        self.entries@
    }
}

impl Index {
    #[verifier::type_invariant]
    spec fn values_distinct(self) -> bool {
        forall|i: int, j: int|
            0 <= i < j < self.entries@.len() ==> (#[trigger] self.entries@[i]).0 != (#[trigger] self.entries@[j]).0
    }

    /// An index with nothing in it.
    pub fn new() -> (r: Index)
        ensures
            r@ == Seq::<(JsonValue, IndexEntry)>::empty(),
    {
        Index { entries: Vec::new() }
    }

    /// The number of values indexed.
    pub fn len(&self) -> (n: usize)
        ensures
            n == self@.len(),
            forall|i: int, j: int| 0 <= i < j < self@.len() ==> (#[trigger] self@[i]).0 != (#[trigger] self@[j]).0,
    {
        proof {
            use_type_invariant(self);
        }
        self.entries.len()
    }
}

} // verus!
