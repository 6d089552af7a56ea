//! Topology reduction for electrical networks with switchable connections.
//!
//! Buses joined by a closed, zero-impedance switch are collapsed into one
//! simulation node. The crate offers a disjoint-set structure over node
//! identifiers, the per-switch decision rules, and the dense renumbering of
//! the resulting classes.

pub mod aggregation;
pub mod laws;
pub mod mapping;
pub mod merge;
pub mod switch;
