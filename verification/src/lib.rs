//! A dependency-graph engine: entities with multi-parent / multi-child
//! relations, visited in a learnability-respecting order (every entity only
//! after all of its prerequisites), with a caller-supplied priority
//! comparator re-evaluated at every step to pick among the eligible entities.
pub mod graph;
pub mod laws;
pub mod order;
