//! A navigation graph over the records that pass a predicate, and what can be
//! asked of it: shortest paths, walks, and the classes of nodes that play the
//! same part in its structure.

pub mod wiring;
pub mod classes;
pub mod graph;
pub mod paths;
pub mod roaming;
