//! Mesh file formats and the combinatorial core of scan repair.
use vstd::prelude::*;

pub mod geom;
pub mod graph;
pub mod io;
pub mod numbering;
pub mod sorting;
pub mod text;

verus! {

} // verus!
