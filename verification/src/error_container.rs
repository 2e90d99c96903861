//! Append-only, order-preserving collection of parse diagnostics.

use vstd::prelude::*;

verus! {

/// One parse diagnostic: the 1-based line that was current when the
/// tree-construction stage flagged the condition, and its message.
/// Immutable once appended.
#[derive(Debug)]
pub struct Error {
    pub line: u64,
    pub msg: String,
}

/// Ordered list of parse diagnostics. Records are only ever appended;
/// there is no deduplication and no cap, and emission order is kept.
#[derive(Debug)]
pub struct ErrorContainer {
    pub errors: Vec<Error>,
}

impl ErrorContainer {
    /// An empty collection.
    pub fn new() -> (r: Self)
        ensures
            r.errors@.len() == 0,
    {
        Self { errors: Vec::new() }
    }

    /// Appends one record at the end; earlier records are untouched.
    pub fn add(&mut self, line: u64, msg: String)
        ensures
            final(self).errors@ == old(self).errors@.push((Error { line, msg })),
    {
        self.errors.push(Error { line, msg });
    }

    /// How many records have been appended so far.
    pub fn count(&self) -> (r: usize)
        ensures
            r == self.errors@.len(),
    {
        self.errors.len()
    }

    /// The `index`-th record in emission order, or `None` once `index`
    /// reaches the count.
    pub fn get(&self, index: usize) -> (r: Option<&Error>)
        ensures
            index < self.errors@.len() <==> r is Some,
            r matches Some(e) ==> *e == self.errors@[index as int],
    {
        if index < self.errors.len() {
            Some(&self.errors[index])
        } else {
            None
        }
    }
}

/// Law: the collection is append-only and order-preserving. Appending one
/// record grows the sequence by exactly one, leaves every earlier record at
/// its index, and places the new record last; retrieval by index therefore
/// returns the records in emission order.
pub proof fn lemma_append_preserves_order(before: Seq<Error>, e: Error)
    ensures
        before.push(e).len() == before.len() + 1,
        forall|i: int| 0 <= i < before.len() ==> before.push(e)[i] == before[i],
        before.push(e)[before.len() as int] == e,
{
}

} // verus!
