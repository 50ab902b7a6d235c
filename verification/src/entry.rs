//! The operations that the log records.

use vstd::prelude::*;
use crate::json::{JsonValue, same_value};

verus! {

/// The key that marks a document as deleted.
pub const DELETE_KEY: &'static str = "$$delete";

/// One logged operation and the document it carries.
#[derive(Debug, PartialEq, Eq)]
pub enum Entry {
    Insert(JsonValue),
    Delete(JsonValue),
    Update(JsonValue),
}

impl Entry {
    /// The document an entry carries, whatever its kind.
    pub open spec fn doc(self) -> JsonValue {
        match self {
            Entry::Insert(x) => x,
            Entry::Delete(x) => x,
            Entry::Update(x) => x,
        }
    }

    /// The document an entry carries: this is what the entry is written as.
    pub fn document(&self) -> (d: &JsonValue)
        ensures
            *d == self.doc(),
            match *self {
                Entry::Insert(x) => *d == x,
                Entry::Delete(x) => *d == x,
                Entry::Update(x) => *d == x,
            },
    {
        match self {
            Entry::Insert(x) => x,
            Entry::Delete(x) => x,
            Entry::Update(x) => x,
        }
    }
}

/// An entry's document is the whole value its variant carries.
pub proof fn lemma_doc_is_carried_value(e: Entry)
    ensures
        match e {
            Entry::Insert(x) => e.doc() == x,
            Entry::Delete(x) => e.doc() == x,
            Entry::Update(x) => e.doc() == x,
        },
{
}

/// `a` and `b` are the same kind of operation on the same document.
pub open spec fn same_entry(a: Entry, b: Entry) -> bool {
    match (a, b) {
        (Entry::Insert(x), Entry::Insert(y)) => same_value(x, y),
        (Entry::Delete(x), Entry::Delete(y)) => same_value(x, y),
        (Entry::Update(x), Entry::Update(y)) => same_value(x, y),
        _ => false,
    }
}

impl Clone for Entry {
    /// A copy: the same kind of operation on a copy of the document.
    fn clone(&self) -> (r: Self)
        ensures
            same_entry(r, *self),
    {
        match self {
            Entry::Insert(x) => Entry::Insert(x.clone()),
            Entry::Delete(x) => Entry::Delete(x.clone()),
            Entry::Update(x) => Entry::Update(x.clone()),
        }
    }
}

} // verus!
