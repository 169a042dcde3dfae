//! Garbage collection: which packs and layers in the object store nothing refers
//! to any more, and which of them may be deleted.
//!
//! A pack that no volume manifest and no snapshot refers to is dead, and so is a
//! layer that no image refers to. What is seen dead for the first time is marked
//! with the time; it is deleted when it has stayed dead for a grace period. A
//! budget caps how much one run deletes.

pub mod discover;
pub mod layers;
pub mod listing;
pub mod orchestrate;
pub mod pack_set;
pub mod prefix;
pub mod report;
pub mod state;
