//! Core analysis for a cross-language binding generator.
//!
//! Two independent components, consumed by a surrounding code-generation
//! pipeline:
//!
//! * [`depth_first`] — a dependency orderer: it takes items that each expose a
//!   unique name and the names they depend on, and yields them so that every
//!   item comes after all items it depends on, failing fatally on a cycle.
//! * [`types`] — a canonical type-name database: it resolves a type's identity
//!   across its canonical spelling, its C++ spelling and a mangled "dead"
//!   spelling, and records by-value safety and prelude-inclusion policy.

pub mod depth_first;
pub mod text;
pub mod types;
