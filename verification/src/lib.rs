//! An in-memory, self-balancing ordered key-value buffer.
//!
//! The map is kept as an AVL tree: every node carries its subtree height,
//! and insertions rebalance on the way back up, so the height stays
//! logarithmic in the number of keys whatever the insertion order.
//! Contents can be exported in ascending key order (`flush`) and the
//! buffer reset to empty (`clear`); `should_flush` reports when the
//! buffer has reached a caller-chosen size threshold.

pub mod avl;
