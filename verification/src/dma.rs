//! DMA brokerage. The platform offers no IOMMU-backed contiguous
//! allocation, so every request is rejected.

use vstd::prelude::*;

use crate::errors::Error;

verus! {

pub struct DmaManager {}

impl DmaManager {
    pub fn new() -> (m: DmaManager) {
        DmaManager {  }
    }

    /// Physically contiguous DMA memory cannot be granted here.
    pub fn alloc_dma(&mut self, size: usize) -> (r: Result<usize, Error>)
        ensures
            r == Err::<usize, Error>(Error::NotSupported),
            *final(self) == *old(self),
    {
        let _ = size;
        Err(Error::NotSupported)
    }

    /// Releasing is a no-op, matching the absent allocation path.
    pub fn free_dma(&mut self, paddr: usize, size: usize)
        ensures
            *final(self) == *old(self),
    {
        let _ = paddr;
        let _ = size;
    }
}

} // verus!
