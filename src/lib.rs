//! Scene tree with generational node ids, ordered traversals, and
//! z-order aware hover resolution.
//!
//! - `tree`: the arena of generational slots and its structural operations.
//! - `iter`: depth-first (double-ended) and breadth-first cursors.
//! - `style`: per-node attributes and interaction states keyed by id.
//! - `hover`: the priority walk that finds the node under the pointer and
//!   the events a change of hovered node produces.
//! - `modifiers`, `dropdown`: builders on top of the tree and stores.

pub mod tree;
pub mod iter;
pub mod style;
pub mod hover;
pub mod modifiers;
pub mod dropdown;
