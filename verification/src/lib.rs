//! A first-fit free-list allocator over one contiguous byte range.
//!
//! The allocator hands out addresses; it never touches the bytes behind them.
//! Its free list is kept most-recently-freed last, blocks are split on
//! allocation and never merged again.

pub mod heap;
pub mod layout;
pub mod linked_list;
pub mod node;

