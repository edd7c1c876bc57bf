//! Memories that last across sessions.

pub mod hygiene;
pub mod searcher;
pub mod store;
