//! Value types describing physical devices.

use vstd::prelude::*;

verus! {

/// Opaque generational handle to a node of the device tree. Stable across
/// tree mutations; a dangling handle is detected by a generation mismatch.
#[derive(Clone, Copy, Debug, PartialEq, Eq, Structural)]
pub struct DeviceId {
    pub index: u32,
    pub generation: u32,
}

/// Lifecycle state of a physical device node. A node starts `Ready`; a
/// successful driver spawn moves it to `Running`, a failed one to `Error`.
#[derive(Clone, Copy, Debug, PartialEq, Eq, Structural)]
pub enum DeviceState {
    Running,
    Ready,
    Error,
}

/// One memory-mapped I/O region of a device.
#[derive(Clone, Copy, Debug, PartialEq, Eq, Structural)]
pub struct MMIORegion {
    pub base_addr: u64,
    pub size: u64,
}

/// Value object describing one physical device.
#[derive(Debug)]
pub struct DeviceDesc {
    /// Device name, unique per tree.
    pub name: String,
    /// Compatibility strings, most specific first.
    pub compatible: Vec<String>,
    /// Memory-mapped I/O regions, in device order.
    pub mmio: Vec<MMIORegion>,
    /// Interrupt lines, in device order.
    pub irq: Vec<u64>,
}

/// One element of a flattened subtree reported by a driver: `parent` is an
/// index of an earlier element in the same report, or `usize::MAX` to attach
/// to the mount point.
#[derive(Debug)]
pub struct DeviceDescNode {
    pub parent: usize,
    pub desc: DeviceDesc,
}

/// A node of the device tree.
#[derive(Debug)]
pub struct DeviceNode {
    pub id: DeviceId,
    pub parent: Option<DeviceId>,
    pub children: Vec<DeviceId>,
    pub desc: DeviceDesc,
    pub state: DeviceState,
    /// Identifiers of the logic devices registered under this node.
    pub logical_devices: Vec<u64>,
}

/// Two descriptors carry the same semantic content.
pub open spec fn desc_matches(a: DeviceDesc, b: DeviceDesc) -> bool {
    &&& a.name@ == b.name@
    &&& a.compatible.deep_view() == b.compatible.deep_view()
    &&& a.mmio@ == b.mmio@
    &&& a.irq@ == b.irq@
}

/// Copies a list of strings, preserving its contents.
pub fn clone_strings(v: &Vec<String>) -> (r: Vec<String>)
    ensures
        r.deep_view() == v.deep_view(),
{
    let mut r: Vec<String> = Vec::new();
    let mut i: usize = 0;
    while i < v.len()
        invariant
            i <= v.len(),
            r@.len() == i,
            forall|j: int| 0 <= j < i ==> r.deep_view()[j] == v.deep_view()[j],
        decreases v.len() - i,
    {
        r.push(v[i].clone());
        proof {
            assert(r@[i as int] == v@[i as int]);
        }
        i = i + 1;
    }
    proof {
        assert(r.deep_view() =~= v.deep_view());
    }
    r
}

/// Copies a list of MMIO regions.
pub fn copy_regions(v: &Vec<MMIORegion>) -> (r: Vec<MMIORegion>)
    ensures
        r@ == v@,
{
    let mut r: Vec<MMIORegion> = Vec::new();
    let mut i: usize = 0;
    while i < v.len()
        invariant
            i <= v.len(),
            r@ == v@.take(i as int),
        decreases v.len() - i,
    {
        r.push(v[i]);
        proof {
            assert(r@ =~= v@.take(i + 1 as int));
        }
        i = i + 1;
    }
    proof {
        assert(r@ =~= v@);
    }
    r
}

/// Copies a list of interrupt numbers.
pub fn copy_irqs(v: &Vec<u64>) -> (r: Vec<u64>)
    ensures
        r@ == v@,
{
    let mut r: Vec<u64> = Vec::new();
    let mut i: usize = 0;
    while i < v.len()
        invariant
            i <= v.len(),
            r@ == v@.take(i as int),
        decreases v.len() - i,
    {
        r.push(v[i]);
        proof {
            assert(r@ =~= v@.take(i + 1 as int));
        }
        i = i + 1;
    }
    proof {
        assert(r@ =~= v@);
    }
    r
}

impl DeviceDesc {
    /// Copies the descriptor, preserving its semantic content.
    pub fn duplicate(&self) -> (r: DeviceDesc)
        ensures
            desc_matches(r, *self),
    {
        DeviceDesc {
            name: self.name.clone(),
            compatible: clone_strings(&self.compatible),
            mmio: copy_regions(&self.mmio),
            irq: copy_irqs(&self.irq),
        }
    }
}

} // verus!
