//! A boundary-representation kernel: identity-bearing topology, sweeps, and the
//! combinatorial half of trimmed-surface tessellation.
use vstd::prelude::*;

pub mod errors;
pub mod boundary;
pub mod checks;
pub mod consistency;
pub mod edge;
pub mod face;
pub mod graph;
pub mod ident;
pub mod laws;
pub mod likeness;
pub mod mapping;
pub mod polyline;
pub mod polymesh;
pub mod roundtrip;
pub mod shell;
pub mod solid;
pub mod surgery;
pub mod sweep;
pub mod sweep_face;
pub mod sweep_shell;
pub mod tessellation;
pub mod vertex;
pub mod wire;

verus! {

} // verus!
