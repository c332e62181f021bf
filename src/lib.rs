use vstd::prelude::*;

pub mod bench;
pub mod pooledmm;
pub mod tree;
pub mod zeroed;

pub use crate::pooledmm::TNonFreePooledMemManager;
pub use crate::zeroed::Zeroed;

verus! {

} // verus!
