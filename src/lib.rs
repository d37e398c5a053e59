//! Slot map: array storage with persistent indices.
//!
//! A `Vec`-like collection whose values are reached through stable handles.
//! A handle pairs a storage position with a version; a freed position is
//! reused by bumping its version, so a handle to a removed value never
//! reaches the value that later takes its place.
//!
//! Positions and versions are `u32` values. A position's version wraps
//! around to 0 once it passes `u32::MAX`, so after 2^32 reuses of one
//! position a handle that old could match again; nothing guards against
//! that.
pub mod index;
pub mod laws;
pub mod map;
pub mod model;

pub use index::SlotMapIndex;
pub use map::{Iter, IterMut, SlotMapVec};
