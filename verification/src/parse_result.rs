//! Terminal value of one parse.
//!
//! Produced exactly once, at end of input: the adapter hands over exclusive
//! ownership of the finished document together with the collected
//! diagnostics, and discards its registries. The caller owns the result;
//! dropping it releases the document and every diagnostic exactly once,
//! which Rust's single-ownership move semantics enforce by construction
//! (the consuming conversion cannot run twice, and no accessor outlives the
//! value).

use vstd::prelude::*;

use crate::dom::Dom;
use crate::error_container::ErrorContainer;

verus! {

/// What a completed parse yields: the document tree and the diagnostics,
/// in emission order.
#[derive(Debug)]
pub struct ParseResult {
    /// The finished document; even a malformed input yields one.
    pub doc: Dom,
    /// The diagnostics; they never suppress document production.
    pub error_container: ErrorContainer,
}

} // verus!
