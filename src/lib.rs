//! Economical containers: a clone-on-write vector and a string that keeps
//! short content inline.
use vstd::prelude::*;

pub mod laws;
pub mod string;
pub mod vec;

pub use string::EcoString;
pub use vec::EcoVec;

verus! {

} // verus!
