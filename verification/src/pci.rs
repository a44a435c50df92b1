//! PCI enhanced configuration access: computing the memory-mapped address
//! of one function's configuration space. The volatile accesses themselves
//! are the host shell's.

use vstd::prelude::*;

verus! {

pub struct PciManager {
    /// Base of the memory-mapped configuration window.
    pub ecam_base: usize,
}

impl PciManager {
    pub fn new(ecam_base: usize) -> (m: PciManager)
        ensures
            m.ecam_base == ecam_base,
    {
        PciManager { ecam_base }
    }

    /// The configuration-space address of `(bus, dev, func)` at `offset`:
    /// the bus selects a 1 MiB window, the device a 32 KiB one, the
    /// function a 4 KiB one.
    pub fn get_addr(&self, bus: u8, dev: u8, func: u8, offset: usize) -> (r: usize)
        requires
            self.ecam_base + (bus as int) * 0x100000 + (dev as int) * 0x8000 + (func as int)
                * 0x1000 + offset <= usize::MAX,
        ensures
            r == self.ecam_base + (bus as int) * 0x100000 + (dev as int) * 0x8000 + (func as int)
                * 0x1000 + offset,
    {
        self.ecam_base + (bus as usize) * 0x100000 + (dev as usize) * 0x8000 + (func as usize)
            * 0x1000 + offset
    }
}

} // verus!
