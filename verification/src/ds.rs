//! The data structures of this crate, one module each.

pub mod linked_list;
pub mod sorting;
pub mod stack;
pub mod vector;
