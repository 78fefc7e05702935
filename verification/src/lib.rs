//! Core engines of a terminal process inspector.
//!
//! Three small engines carry the logic that every view of the inspector
//! depends on: building a rooted process tree from a flat snapshot of the
//! host's processes (with optional pruning to a focus process), turning two
//! time-separated counter samples into rates, and a scrollable-viewport
//! cursor with a proportional position indicator.  Everything here works on
//! plain values; reading `/proc`, drawing to the terminal, and the event
//! loop live outside this crate.

pub mod delta;
pub mod lines;
pub mod render;
pub mod scroll;
pub mod spark;
pub mod tree;
