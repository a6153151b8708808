//! Incremental CSS class/identifier extraction engine.
//!
//! The library walks element records collected from parsed component files,
//! derives deterministic collision-resolved identifiers for managed elements,
//! expands grouped-class notation, maintains a content-addressed cache of
//! per-file results, and aggregates per-file class/identifier sets into a
//! global set used to regenerate a stylesheet skeleton.

pub mod agg;
pub mod cache;
pub mod codec;
pub mod css;
pub mod group;
pub mod id;
pub mod laws;
pub mod strset;
pub mod text;
