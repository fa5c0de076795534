//! Persistent, structurally shared maps used to carry arbitrary data through
//! the channel.

pub mod avl;
pub mod linked_list;
pub mod listing;
