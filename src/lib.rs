//! A compiler from a graph of typed nodes and connections to program text:
//! the graph model, a dependency sorter, a small template engine and the
//! code generator that ties them together.
use vstd::prelude::*;

pub mod text;
pub mod ir;
pub mod topological_sort;
pub mod generator;
pub mod template_engine;

verus! {

} // verus!
