//! Owned, singly linked data structures with machine-checked contracts.
//!
//! * [`ds::linked_list::ListNode`]: a non-empty chain of owned nodes.
//! * [`ds::stack::Stack`]: a LIFO stack kept in such a chain.
//! * [`ds::vector::Vector`]: a growable buffer with geometric growth.

pub mod ds;
