//! Discrete topology of a subdivided icosahedral sphere: compressed adjacency relations
//! between cells, edges and vertices with one deterministic edge numbering, the integer
//! incidence operators d0 and d1, and the laws that tie them together.
use vstd::prelude::*;

pub mod adjacency;
pub mod grid;
pub mod laws;
pub mod operators;
pub mod sphere;
pub mod triangulation;

verus! {

} // verus!
