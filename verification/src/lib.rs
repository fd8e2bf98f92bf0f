//! Verified core of the Mazui maze generator: the tree-shaped path network that
//! the generator grows from seeded random draws, and the breadth-first search
//! that picks its start and exit as the endpoints of the network's exact
//! diameter.

pub mod graph;
pub mod growth;
pub mod random;
pub mod tree;
