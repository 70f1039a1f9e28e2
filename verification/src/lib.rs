//! A read-mostly associative container built from an immutable snapshot map
//! and a lock-protected dirty overlay, with a miss-counted promotion
//! heuristic that consolidates the overlay into a fresh snapshot.

pub mod entry;
pub mod laws;
pub mod map;
