//! Opaque identity for a node of the document arena.

use vstd::prelude::*;

verus! {

/// Identity of one node in the document arena: the node's slot index.
///
/// A handle never owns the node it denotes; it is only valid for the
/// document it was created by, and only while that document is alive.
/// Equality and hashing go by the identity alone.
#[derive(PartialEq, Eq, Structural, Clone, Copy, Debug, Hash)]
pub struct Handle(pub usize);

impl Handle {
    /// The raw slot index behind the handle.
    pub fn as_raw(self) -> (r: usize)
        ensures
            r == self.0,
    {
        self.0
    }
}

} // verus!
