//! Combinatorial core of a lamp designer: polyhedra whose faces carry printed
//! circuit boards, a path through all faces along which a LED strip is
//! soldered, and the designs that describe such lamps.
#![allow(unused_imports)]

pub mod design;
pub mod make_path;
pub mod polyhedron;
pub mod flags;
pub mod visits;
pub mod pcbdron;
pub mod pcboron;
pub mod load;
pub mod ui;
pub mod rebuild;
pub mod search;
pub mod reapply;
pub mod laws;

use vstd::prelude::*;

verus! {

} // verus!
