//! In-process data structures for an interactive-story chat service.
//!
//! The heart of the crate is [`collections::ExpiringHashMap`], a key-value
//! store that forgets entries which have not been read or written within a
//! configurable duration.  Eviction is lazy: no background thread runs; a
//! cleanup pass piggybacks on every insert and lookup.  The remaining modules
//! hold the plain session-state records that a surrounding service persists.

pub mod collections;
mod freshness;
pub mod laws;
pub mod persistance;
pub mod play;
