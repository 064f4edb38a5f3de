//! A canonical, diff-friendly text snapshot of a variation graph: three
//! row sets (node adjacency, path steps, node occurrences) extracted from
//! a handle graph, sorted under total orders that make the output
//! independent of the graph's internal iteration order, and carried
//! through a lossless tab/comma-delimited text codec.

use vstd::prelude::*;

pub mod codec;
pub mod extract;
pub mod order;
pub mod rows;
pub mod sort;
pub mod text;

verus! {

} // verus!
