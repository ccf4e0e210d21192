//! Migration core for a layered triple store whose string-valued dictionary
//! entries change from an escaped source-literal form to their decoded
//! Unicode form.
//!
//! The crate verifies the four parts the migration depends on: the escape
//! decoder for string literals, the typed-dictionary transcoder that detects
//! and repairs reordering, the triple-index remapper, and the bookkeeping of
//! the layer driver (ordinal maps, their composition across layers, and the
//! on-disk form of the per-layer remap state).

pub mod dict;
pub mod escape;
pub mod idmap;
pub mod layer;
pub mod parent_map;
pub mod triples;
