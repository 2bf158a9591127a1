//! A mutating, depth-first, pre-order walk over JSON-like trees.
//!
//! `visit_mut` hands each node, with its position, to a caller's mutator,
//! which may rewrite the node and decides whether its children are visited.
//! `tree` holds the data, `walk` the engine, `record` the model of a walk
//! that the engine's contract speaks of, and `laws` what holds of every walk.

use vstd::prelude::*;

pub mod laws;
pub mod record;
pub mod tree;
pub mod walk;

pub use tree::{Key, KeyView, Parent, Value};

pub use record::Visit;
pub use walk::visit_mut;
