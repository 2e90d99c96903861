//! Adapter between an HTML5 tree-construction engine and a document tree.
//!
//! The engine drives the [`sink::Sink`] through a fixed set of callbacks,
//! one per tree-construction operation; the sink builds the document inside
//! a [`dom::Dom`] arena, keeps per-node registries (element names, template
//! contents, MathML text-integration points), and collects parse errors.
//! At end of input the sink is consumed into a [`parse_result::ParseResult`],
//! which owns the finished document and the diagnostics.

pub mod dom;
pub mod error_container;
pub mod handle;
pub mod parse_result;
pub mod sink;
