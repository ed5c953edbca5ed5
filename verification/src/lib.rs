//! A directory-scoped key/value store.
//!
//! Values are attached to absolute directory paths. A lookup from a
//! directory walks the chain of its ancestors, nearest first, so that
//! a key defined closer to the directory overrides the same key defined
//! farther up. The whole store is persisted as a single JSON document.

pub mod config;
pub mod json;
pub mod path;
pub mod projector;
pub mod store;
pub(crate) mod strutil;
