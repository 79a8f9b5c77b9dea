//! The futexes that threads wait on.
use vstd::prelude::*;

verus! {

/// The futexes of one piece of shared memory.
#[derive(Debug, Clone, Copy, PartialEq, Eq, Structural)]
pub struct FutexMap {
    /// The id of the shared memory.
    pub smid: usize,
}

impl FutexMap {
    pub open spec fn spec_new_smem(id: usize) -> FutexMap {
        FutexMap { smid: id }
    }

    /// The futexes of the shared memory with this id.
    pub fn new_smem(id: usize) -> (futex: FutexMap)
        ensures
            futex == FutexMap::spec_new_smem(id),
    {
        FutexMap { smid: id }
    }
}

} // verus!
