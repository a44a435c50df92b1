//! The device manager core: one aggregate that the single-threaded IPC loop
//! drives. Every handler is a pure state transition from a decoded request
//! to a reply and a list of actions; the host shell performs the actions
//! (capability operations, one-way notifications) and sends the reply.

use vstd::prelude::*;

use crate::config::{find_driver, Manifest};
use crate::device::{
    desc_matches, DeviceDesc, DeviceDescNode, DeviceId, DeviceNode, DeviceState, MMIORegion,
};
use crate::errors::Error;
use crate::hooks::{spec_notes_for_entry, HookTable, Notification};
use crate::kmap::KeyMap;
use crate::logic::LogicDeviceService;
use crate::tree::DeviceTree;

verus! {

/// The page size capability slices are rounded up to.
pub const PGSIZE: u64 = 4096;

/// A capability operation or signal the host shell must perform on the
/// kernel's objects. Handlers return these instead of calling the kernel.
#[derive(Clone, Copy, Debug, PartialEq, Eq, Structural)]
pub enum CapAction {
    /// Move the capability in the receive window into a managed slot.
    MoveFromRecv { dst: u64 },
    /// Mint the capability in the receive window into a managed slot,
    /// stamped with a badge and full rights.
    MintFromRecv { dst: u64, badge: u64 },
    /// Mint a badged, full-rights copy of a managed endpoint into a fresh
    /// slot.
    MintEndpoint { src: u64, dst: u64, badge: u64 },
    /// Carve the MMIO range `[base_addr, base_addr + pages * PGSIZE)` into a
    /// frame capability in `dst`.
    RetypeMmio { base_addr: u64, pages: u64, dst: u64 },
    /// Obtain the handler capability of an interrupt line into `dst`.
    GetIrqCap { irq: u64, dst: u64 },
    /// Enable an interrupt line at priority one (first acquisition only).
    EnableIrq { irq: u64 },
    /// Acknowledge an interrupt on a cached handler capability.
    AckIrq { slot: u64 },
    /// Send a one-way hook notification to a subscriber endpoint. A send
    /// failure is logged and must not stop later actions.
    Notify { slot: u64, logic_id: u64 },
    /// Lower the interrupt threshold of one CPU so its lines can fire.
    SetIrqThreshold { cpu: u64 },
}

/// The aggregate state of the device manager.
pub struct UnicornManager {
    pub running: bool,
    /// The driver manifest, immutable after initialization.
    pub config: Manifest,
    pub tree: DeviceTree,
    /// Driver badge to device node.
    pub pids: KeyMap<DeviceId>,
    /// MMIO base address to the managed slot of its frame capability.
    pub mmio_cache: KeyMap<u64>,
    /// IRQ number to the managed slot of its handler capability.
    pub irq_cache: KeyMap<u64>,
    pub logic: LogicDeviceService,
    pub hooks: HookTable,
    /// Nodes awaiting a driver spawn; drained at the top of the loop.
    pub spawn_queue: Vec<DeviceId>,
    /// Monotonic allocator over this process's capability space.
    pub next_slot: u64,
}

impl UnicornManager {
    /// Every registered driver badge maps to a live node in state
    /// `Running`, and no two badges share a node.
    pub open spec fn pids_ok(self) -> bool {
        &&& forall|b: u64|
            #[trigger] self.pids.spec_contains(b) ==> (self.tree.spec_get(self.pids.spec_at(b))
                matches Some(n) && n.state == DeviceState::Running)
        &&& forall|b1: u64, b2: u64|
            b1 != b2 && #[trigger] self.pids.spec_contains(b1) && #[trigger] self.pids.spec_contains(
                b2,
            ) ==> self.pids.spec_at(b1) != self.pids.spec_at(b2)
    }

    /// Every cached MMIO base address is the base of some region of some
    /// live node.
    pub open spec fn mmio_ok(self) -> bool {
        forall|a: u64|
            #[trigger] self.mmio_cache.spec_contains(a) ==> exists|x: DeviceId|
                (#[trigger] self.tree.spec_get(x)) matches Some(n) && exists|i: int|
                    0 <= i < n.desc.mmio@.len() && (#[trigger] n.desc.mmio@[i]).base_addr == a
    }

    /// Every cached IRQ number is an interrupt line of some live node.
    pub open spec fn irq_ok(self) -> bool {
        forall|q: u64|
            #[trigger] self.irq_cache.spec_contains(q) ==> exists|x: DeviceId|
                (#[trigger] self.tree.spec_get(x)) matches Some(n) && exists|i: int|
                    0 <= i < n.desc.irq@.len() && #[trigger] n.desc.irq@[i] == q
    }

    /// Enqueued spawn candidates are live handles.
    pub open spec fn queue_ok(self) -> bool {
        forall|k: int| 0 <= k < self.spawn_queue@.len() ==> self.tree.live(
            #[trigger] self.spawn_queue@[k],
        )
    }

    pub open spec fn wf(self) -> bool {
        &&& self.tree.wf()
        &&& self.pids.wf()
        &&& self.mmio_cache.wf()
        &&& self.irq_cache.wf()
        &&& self.logic.wf()
        &&& self.pids_ok()
        &&& self.mmio_ok()
        &&& self.irq_ok()
        &&& self.queue_ok()
    }

    /// A fresh manager around a loaded manifest.
    pub fn new(config: Manifest) -> (m: UnicornManager)
        ensures
            m.wf(),
            m.config == config,
            m.tree.slots().len() == 0,
            m.logic.devices@.len() == 0,
            m.hooks.hooks@.len() == 0,
            m.spawn_queue@.len() == 0,
            !m.running,
    {
        UnicornManager {
            running: false,
            config,
            tree: DeviceTree::new(),
            pids: KeyMap::new(),
            mmio_cache: KeyMap::new(),
            irq_cache: KeyMap::new(),
            logic: LogicDeviceService::new(),
            hooks: HookTable::new(),
            spawn_queue: Vec::new(),
            next_slot: 1,
        }
    }

    /// Hands out the next free slot of the capability space.
    fn alloc_slot(&mut self) -> (s: u64)
        requires
            old(self).next_slot < u64::MAX,
        ensures
            s == old(self).next_slot,
            (*final(self) == UnicornManager { next_slot: (old(self).next_slot + 1) as u64, ..*old(
                self,
            ) }),
    {
        let s = self.next_slot;
        self.next_slot = self.next_slot + 1;
        s
    }

    /// Routes a kernel interrupt notification: the badge carries the IRQ
    /// number. A cached line is acknowledged on its handler capability; an
    /// unknown one is ignored. Never replied to.
    pub fn handle_irq(&self, irq: u64) -> (r: Option<CapAction>)
        requires
            self.wf(),
        ensures
            r == (match self.irq_cache.spec_get(irq) {
                Some(slot) => Some(CapAction::AckIrq { slot }),
                None => None::<CapAction>,
            }),
    {
        match self.irq_cache.get(irq) {
            Some(slot) => Some(CapAction::AckIrq { slot }),
            None => None,
        }
    }

    /// The binary that a spawn of `id` would launch: the node must resolve,
    /// be `Ready`, and match a manifest entry. `Running` and `Error` nodes
    /// (and unmatched ones) yield nothing.
    pub open spec fn spec_prepare(self, id: DeviceId) -> Option<Seq<char>> {
        match self.tree.spec_get(id) {
            Some(n) => if n.state == DeviceState::Ready {
                find_driver(self.config.drivers@, n.desc.name@, n.desc.compatible.deep_view())
            } else {
                None
            },
            None => None,
        }
    }

    /// Decides whether draining `id` from the spawn queue launches a driver,
    /// and which binary.
    pub fn prepare_spawn(&self, id: DeviceId) -> (r: Option<String>)
        requires
            self.wf(),
        ensures
            match r {
                Some(bin) => self.spec_prepare(id) matches Some(b) && bin@ == b,
                None => self.spec_prepare(id) is None,
            },
    {
        match self.tree.get_node(id) {
            Some(node) => {
                if matches!(node.state, DeviceState::Ready) {
                    self.config.match_driver(&node.desc.name, &node.desc.compatible)
                } else {
                    None
                }
            },
            None => None,
        }
    }

    /// Records a successful spawn: the badge now maps to the node, which
    /// becomes `Running`. The node can never be prepared for a second spawn.
    pub fn commit_spawn(&mut self, id: DeviceId, pid: u64)
        requires
            old(self).wf(),
            (old(self).spec_prepare(id) is Some),
        ensures
            final(self).wf(),
            (final(self).spec_prepare(id) is None),
            final(self).pids.spec_get(pid) == Some(id),
            forall|b: u64| b != pid ==> final(self).pids.spec_get(b) == old(self).pids.spec_get(b),
            (final(self).tree.spec_get(id) matches Some(n) && n == DeviceNode {
                state: DeviceState::Running,
                ..old(self).tree.spec_get(id)->0
            }),
            forall|x: DeviceId|
                x.index != id.index ==> #[trigger] final(self).tree.spec_get(x) == old(
                    self,
                ).tree.spec_get(x),
            final(self).config == old(self).config,
            final(self).logic == old(self).logic,
            final(self).hooks == old(self).hooks,
            final(self).spawn_queue == old(self).spawn_queue,
            final(self).mmio_cache == old(self).mmio_cache,
            final(self).irq_cache == old(self).irq_cache,
            final(self).next_slot == old(self).next_slot,
    {
        let ghost pre = *self;
        let ok = self.tree.set_state(id, DeviceState::Running);
        proof {
            assert(ok);
        }
        self.pids.insert(pid, id);
        proof {
            lemma_wf_after_state_change(pre, *self, id);
            assert(self.pids.spec_get(pid) == Some(id));
            assert(self.pids_ok()) by {
                assert forall|b: u64| #[trigger] self.pids.spec_contains(b) implies (
                self.tree.spec_get(self.pids.spec_at(b)) matches Some(n) && n.state
                    == DeviceState::Running) by {
                    if b == pid {
                        assert(self.pids.spec_at(b) == id);
                        assert(self.tree.spec_get(id) is Some);
                    } else {
                        assert(self.pids.spec_get(b) == pre.pids.spec_get(b));
                        assert(pre.pids.spec_get(b) is Some);
                        assert(pre.pids.spec_contains(b));
                        let t = pre.pids.spec_at(b);
                        assert(self.pids.spec_at(b) == t);
                        if t.index == id.index {
                            assert(pre.tree.spec_get(t) is Some);
                            assert(pre.tree.spec_get(t)->0.state == DeviceState::Running);
                            assert(pre.tree.spec_get(id)->0.state == DeviceState::Ready);
                            assert(pre.tree.slot_ok(id.index as int));
                            assert(false);
                        } else {
                            assert(self.tree.spec_get(t) == pre.tree.spec_get(t));
                        }
                    }
                }
                assert forall|b1: u64, b2: u64|
                    b1 != b2 && #[trigger] self.pids.spec_contains(b1)
                        && #[trigger] self.pids.spec_contains(b2) implies self.pids.spec_at(b1)
                    != self.pids.spec_at(b2) by {
                    if b1 != pid && b2 != pid {
                        assert(self.pids.spec_get(b1) == pre.pids.spec_get(b1));
                        assert(self.pids.spec_get(b2) == pre.pids.spec_get(b2));
                        assert(pre.pids.spec_contains(b1) && pre.pids.spec_contains(b2));
                        assert(self.pids.spec_at(b1) == pre.pids.spec_at(b1));
                        assert(self.pids.spec_at(b2) == pre.pids.spec_at(b2));
                    } else {
                        let other = if b1 == pid {
                            b2
                        } else {
                            b1
                        };
                        assert(self.pids.spec_get(other) == pre.pids.spec_get(other));
                        assert(pre.pids.spec_contains(other));
                        assert(self.pids.spec_at(other) == pre.pids.spec_at(other));
                        if pre.pids.spec_at(other) == id {
                            assert(pre.tree.spec_get(id)->0.state == DeviceState::Running);
                            assert(false);
                        }
                        assert(self.pids.spec_at(if b1 == pid { b1 } else { b2 }) == id);
                    }
                }
            }
        }
    }

    /// Records a failed spawn: the node becomes `Error` and is never
    /// retried.
    pub fn fail_spawn(&mut self, id: DeviceId)
        requires
            old(self).wf(),
            (old(self).spec_prepare(id) is Some),
        ensures
            final(self).wf(),
            (final(self).spec_prepare(id) is None),
            (final(self).tree.spec_get(id) matches Some(n) && n == DeviceNode {
                state: DeviceState::Error,
                ..old(self).tree.spec_get(id)->0
            }),
            forall|x: DeviceId|
                x.index != id.index ==> #[trigger] final(self).tree.spec_get(x) == old(
                    self,
                ).tree.spec_get(x),
            final(self).pids == old(self).pids,
            final(self).config == old(self).config,
            final(self).logic == old(self).logic,
            final(self).hooks == old(self).hooks,
            final(self).spawn_queue == old(self).spawn_queue,
            final(self).mmio_cache == old(self).mmio_cache,
            final(self).irq_cache == old(self).irq_cache,
            final(self).next_slot == old(self).next_slot,
    {
        let ghost pre = *self;
        let ok = self.tree.set_state(id, DeviceState::Error);
        proof {
            assert(ok);
        }
        proof {
            lemma_wf_after_state_change(pre, *self, id);
            assert(self.pids_ok()) by {
                assert forall|b: u64| #[trigger] self.pids.spec_contains(b) implies (
                self.tree.spec_get(self.pids.spec_at(b)) matches Some(n) && n.state
                    == DeviceState::Running) by {
                    assert(pre.pids.spec_contains(b));
                    let t = pre.pids.spec_at(b);
                    if t.index == id.index {
                        assert(pre.tree.spec_get(t) is Some);
                        assert(pre.tree.spec_get(t)->0.state == DeviceState::Running);
                        assert(pre.tree.spec_get(id)->0.state == DeviceState::Ready);
                        assert(pre.tree.slot_ok(id.index as int));
                        assert(false);
                    } else {
                        assert(self.tree.spec_get(t) == pre.tree.spec_get(t));
                    }
                }
            }
        }
    }

    /// Takes the next spawn candidate off the queue.
    pub fn take_spawn(&mut self) -> (r: Option<DeviceId>)
        requires
            old(self).wf(),
        ensures
            final(self).wf(),
            match r {
                Some(id) => old(self).spawn_queue@.len() > 0 && id == old(self).spawn_queue@[0]
                    && final(self).spawn_queue@ == old(self).spawn_queue@.drop_first(),
                None => old(self).spawn_queue@.len() == 0 && *final(self) == *old(self),
            },
            (*final(self) == UnicornManager { spawn_queue: final(self).spawn_queue, ..*old(self) }),
    {
        if self.spawn_queue.len() == 0 {
            return None;
        }
        let id = self.spawn_queue.remove(0);
        Some(id)
    }

    /// Enqueues every `Ready` node of the subtree under `start` (breadth
    /// first) for a deferred driver spawn.
    pub fn scan_subtree(&mut self, start: DeviceId)
        requires
            old(self).wf(),
        ensures
            final(self).wf(),
            final(self).spawn_queue@.len() >= old(self).spawn_queue@.len(),
            final(self).spawn_queue@.take(old(self).spawn_queue@.len() as int) == old(
                self,
            ).spawn_queue@,
            forall|k: int|
                old(self).spawn_queue@.len() <= k < final(self).spawn_queue@.len()
                    ==> final(self).tree.spec_ready(#[trigger] final(self).spawn_queue@[k]),
            old(self).tree.spec_ready(start) ==> final(self).spawn_queue@.skip(
                old(self).spawn_queue@.len() as int,
            ).contains(start),
            crate::tree::closed_under_ready_children(
                final(self).tree,
                final(self).spawn_queue@.skip(old(self).spawn_queue@.len() as int),
            ),
            exists|vis: Set<DeviceId>|
                crate::tree::scan_cover(
                    final(self).tree,
                    start,
                    vis,
                    final(self).spawn_queue@.skip(old(self).spawn_queue@.len() as int),
                ),
            (*final(self) == UnicornManager { spawn_queue: final(self).spawn_queue, ..*old(self) }),
    {
        let found = self.tree.ready_descendants(start);
        let ghost pre_queue = self.spawn_queue@;
        let mut i: usize = 0;
        while i < found.len()
            invariant
                i <= found@.len(),
                self.tree.wf(),
                forall|k: int| 0 <= k < found@.len() ==> self.tree.spec_ready(#[trigger] found@[k]),
                self.spawn_queue@ == pre_queue + found@.take(i as int),
                (*self == UnicornManager { spawn_queue: self.spawn_queue, ..*old(self) }),
            decreases found@.len() - i,
        {
            self.spawn_queue.push(found[i]);
            proof {
                assert(self.spawn_queue@ =~= pre_queue + found@.take(i + 1));
            }
            i = i + 1;
        }
        proof {
            assert(self.spawn_queue@.take(pre_queue.len() as int) =~= pre_queue);
            assert(self.spawn_queue@.skip(pre_queue.len() as int) =~= found@);
            assert forall|k: int|
                pre_queue.len() <= k < self.spawn_queue@.len() implies self.tree.spec_ready(
                #[trigger] self.spawn_queue@[k]) by {
                assert(self.spawn_queue@[k] == found@.take(found@.len() as int)[k
                    - pre_queue.len()]);
            }
            assert(self.queue_ok()) by {
                assert forall|k: int| 0 <= k < self.spawn_queue@.len() implies self.tree.live(
                    #[trigger] self.spawn_queue@[k],
                ) by {
                    if k < pre_queue.len() {
                        assert(self.spawn_queue@[k] == pre_queue[k]);
                        assert(old(self).tree.live(pre_queue[k]));
                    }
                }
            }
        }
    }

    /// Enqueues every `Ready` node reachable from the root. Without a root
    /// this does nothing. Calling it again without intervening tree changes
    /// enqueues the same candidates; nodes that spawned meanwhile are
    /// `Running` or `Error` and yield no further spawn.
    pub fn scan_platform(&mut self)
        requires
            old(self).wf(),
        ensures
            final(self).wf(),
            final(self).spawn_queue@.len() >= old(self).spawn_queue@.len(),
            final(self).spawn_queue@.take(old(self).spawn_queue@.len() as int) == old(
                self,
            ).spawn_queue@,
            forall|k: int|
                old(self).spawn_queue@.len() <= k < final(self).spawn_queue@.len()
                    ==> final(self).tree.spec_ready(#[trigger] final(self).spawn_queue@[k]),
            (old(self).tree.root is Some && old(self).tree.spec_ready(old(self).tree.root->0)
                ==> final(self).spawn_queue@.skip(old(self).spawn_queue@.len() as int).contains(
                old(self).tree.root->0,
            )),
            crate::tree::closed_under_ready_children(
                final(self).tree,
                final(self).spawn_queue@.skip(old(self).spawn_queue@.len() as int),
            ),
            (old(self).tree.root matches Some(rt) ==> exists|vis: Set<DeviceId>|
                crate::tree::scan_cover(
                    final(self).tree,
                    rt,
                    vis,
                    final(self).spawn_queue@.skip(old(self).spawn_queue@.len() as int),
                )),
            (*final(self) == UnicornManager { spawn_queue: final(self).spawn_queue, ..*old(self) }),
            old(self).tree.root is None ==> *final(self) == *old(self),
    {
        let root = match self.tree.root {
            Some(r) => r,
            None => {
                proof {
                    assert(self.spawn_queue@.take(self.spawn_queue@.len() as int)
                        =~= self.spawn_queue@);
                    assert(self.spawn_queue@.skip(self.spawn_queue@.len() as int) =~= Seq::<
                        DeviceId,
                    >::empty());
                }
                return ;
            },
        };
        self.scan_subtree(root);
    }
}

/// Changing only the payload of one node (its state, compatibility list or
/// logic-device list) preserves the cache and queue invariants: the node
/// set, the descriptors' resource lists and liveness are untouched.
proof fn lemma_wf_after_state_change(pre: UnicornManager, post: UnicornManager, id: DeviceId)
    requires
        pre.wf(),
        post.tree.wf(),
        pre.tree.live(id),
        (post.tree.spec_get(id) matches Some(n) && {
            let o = pre.tree.spec_get(id)->0;
            &&& n.desc.mmio == o.desc.mmio
            &&& n.desc.irq == o.desc.irq
        }),
        forall|x: DeviceId|
            x.index != id.index ==> #[trigger] post.tree.spec_get(x) == pre.tree.spec_get(x),
        post.mmio_cache == pre.mmio_cache,
        post.irq_cache == pre.irq_cache,
        post.spawn_queue == pre.spawn_queue,
    ensures
        post.mmio_ok(),
        post.irq_ok(),
        post.queue_ok(),
{
    assert(post.tree.spec_get(id) is Some);
    assert forall|x: DeviceId| pre.tree.spec_get(x) is Some implies post.tree.spec_get(x)
        is Some by {
        if x.index == id.index {
            assert(pre.tree.slot_ok(id.index as int));
            assert(post.tree.spec_get(id) is Some);
            assert(pre.tree.spec_get(x) is Some ==> x == pre.tree.spec_get(id)->0.id);
            assert(post.tree.slot_ok(id.index as int));
        }
    }
    assert(post.mmio_ok()) by {
        assert forall|a: u64| #[trigger] post.mmio_cache.spec_contains(a) implies exists|
            x: DeviceId,
        |
            (#[trigger] post.tree.spec_get(x)) matches Some(n) && exists|i: int|
                0 <= i < n.desc.mmio@.len() && (#[trigger] n.desc.mmio@[i]).base_addr == a by {
            assert(pre.mmio_cache.spec_contains(a));
            let x = choose|x: DeviceId|
                (#[trigger] pre.tree.spec_get(x)) matches Some(n) && exists|i: int|
                    0 <= i < n.desc.mmio@.len() && (#[trigger] n.desc.mmio@[i]).base_addr == a;
            assert(post.tree.spec_get(x) is Some);
            if x.index == id.index {
                assert(pre.tree.spec_get(x) == pre.tree.spec_get(id));
                assert(post.tree.spec_get(x)->0.desc.mmio == pre.tree.spec_get(x)->0.desc.mmio);
            }
        }
    }
    assert(post.irq_ok()) by {
        assert forall|q: u64| #[trigger] post.irq_cache.spec_contains(q) implies exists|
            x: DeviceId,
        |
            (#[trigger] post.tree.spec_get(x)) matches Some(n) && exists|i: int|
                0 <= i < n.desc.irq@.len() && #[trigger] n.desc.irq@[i] == q by {
            assert(pre.irq_cache.spec_contains(q));
            let x = choose|x: DeviceId|
                (#[trigger] pre.tree.spec_get(x)) matches Some(n) && exists|i: int|
                    0 <= i < n.desc.irq@.len() && #[trigger] n.desc.irq@[i] == q;
            assert(post.tree.spec_get(x) is Some);
            if x.index == id.index {
                assert(pre.tree.spec_get(x) == pre.tree.spec_get(id));
                assert(post.tree.spec_get(x)->0.desc.irq == pre.tree.spec_get(x)->0.desc.irq);
            }
        }
    }
    assert(post.queue_ok()) by {
        assert forall|k: int| 0 <= k < post.spawn_queue@.len() implies post.tree.live(
            #[trigger] post.spawn_queue@[k],
        ) by {
            assert(pre.tree.live(pre.spawn_queue@[k]));
        }
    }
}

/// Once a queued node has been through a spawn attempt — committed to
/// `Running` or failed to `Error` — a later platform scan never prepares it
/// again: only `Ready` nodes yield a binary.
pub proof fn lemma_scan_idempotent(m: UnicornManager, id: DeviceId)
    requires
        (m.tree.spec_get(id) matches Some(n) && n.state != DeviceState::Ready),
    ensures
        (m.spec_prepare(id) is None),
{
}

/// A reply to one request: what the loop writes back before answering, or
/// `NoReply` for one-way messages.
#[derive(Debug)]
pub enum Reply {
    /// Plain success.
    Done,
    /// An MMIO grant: physical range registers plus the frame capability.
    Mmio { paddr: u64, size: u64, frame_slot: u64 },
    /// An IRQ grant: the handler capability.
    Irq { handler_slot: u64 },
    /// An allocated, badged endpoint capability.
    Endpoint { endpoint_slot: u64 },
    /// The assigned names a query matched.
    Names { names: Vec<String> },
    /// A physical device descriptor.
    Desc { desc: DeviceDesc },
    /// A logic device identifier and descriptor.
    LogicDesc { id: u64, ldesc: crate::logic::LogicDeviceDesc },
    /// An error-tagged reply carrying the code.
    Failure { err: Error },
    /// Do not reply to this message.
    NoReply,
}

/// How many whole pages cover `size` bytes.
pub open spec fn spec_pages(size: u64) -> u64 {
    (size / PGSIZE + if size % PGSIZE == 0 {
        0u64
    } else {
        1u64
    }) as u64
}

/// What GET_MMIO guarantees: the region registers of the caller's node, a
/// cached slot when the base was seen before (no kernel call), a fresh slot
/// and one retype action otherwise; `InvalidArgs` exactly on an unknown
/// badge or an out-of-range region index.
pub open spec fn mmio_post(
    pre: UnicornManager,
    post: UnicornManager,
    badge: u64,
    idx: u64,
    reply: Reply,
    acts: Seq<CapAction>,
) -> bool {
    match reply {
        Reply::Mmio { paddr, size, frame_slot } => {
            &&& pre.pids.spec_contains(badge)
            &&& {
                let nid = pre.pids.spec_at(badge);
                let n = pre.tree.spec_get(nid)->0;
                &&& idx < n.desc.mmio@.len()
                &&& paddr == n.desc.mmio@[idx as int].base_addr
                &&& size == n.desc.mmio@[idx as int].size
                &&& if pre.mmio_cache.spec_contains(paddr) {
                    &&& frame_slot == pre.mmio_cache.spec_at(paddr)
                    &&& acts.len() == 0
                    &&& post == pre
                } else {
                    &&& frame_slot == pre.next_slot
                    &&& acts == seq![
                        CapAction::RetypeMmio {
                            base_addr: paddr,
                            pages: spec_pages(size),
                            dst: frame_slot,
                        },
                    ]
                    &&& post.mmio_cache.spec_get(paddr) == Some(frame_slot)
                    &&& forall|a: u64|
                        a != paddr ==> post.mmio_cache.spec_get(a) == pre.mmio_cache.spec_get(a)
                    &&& post == UnicornManager {
                        mmio_cache: post.mmio_cache,
                        next_slot: (pre.next_slot + 1) as u64,
                        ..pre
                    }
                }
            }
        },
        Reply::Failure { err } => {
            &&& err == Error::InvalidArgs
            &&& post == pre
            &&& acts.len() == 0
            &&& (!pre.pids.spec_contains(badge) || idx >= pre.tree.spec_get(
                pre.pids.spec_at(badge),
            )->0.desc.mmio@.len())
        },
        _ => false,
    }
}

/// What GET_IRQ guarantees: the line of the caller's node at the index, a
/// cached handler slot when seen before, else a fresh slot with an acquire
/// action and a one-time enable; `InvalidArgs` exactly on an unknown badge
/// or an out-of-range index.
pub open spec fn irq_post(
    pre: UnicornManager,
    post: UnicornManager,
    badge: u64,
    idx: u64,
    reply: Reply,
    acts: Seq<CapAction>,
) -> bool {
    match reply {
        Reply::Irq { handler_slot } => {
            &&& pre.pids.spec_contains(badge)
            &&& {
                let nid = pre.pids.spec_at(badge);
                let n = pre.tree.spec_get(nid)->0;
                &&& idx < n.desc.irq@.len()
                &&& {
                    let irq = n.desc.irq@[idx as int];
                    if pre.irq_cache.spec_contains(irq) {
                        &&& handler_slot == pre.irq_cache.spec_at(irq)
                        &&& acts.len() == 0
                        &&& post == pre
                    } else {
                        &&& handler_slot == pre.next_slot
                        &&& acts == seq![
                            CapAction::GetIrqCap { irq, dst: handler_slot },
                            CapAction::EnableIrq { irq },
                        ]
                        &&& post.irq_cache.spec_get(irq) == Some(handler_slot)
                        &&& forall|q: u64|
                            q != irq ==> post.irq_cache.spec_get(q) == pre.irq_cache.spec_get(q)
                        &&& post == UnicornManager {
                            irq_cache: post.irq_cache,
                            next_slot: (pre.next_slot + 1) as u64,
                            ..pre
                        }
                    }
                }
            }
        },
        Reply::Failure { err } => {
            &&& err == Error::InvalidArgs
            &&& post == pre
            &&& acts.len() == 0
            &&& (!pre.pids.spec_contains(badge) || idx >= pre.tree.spec_get(
                pre.pids.spec_at(badge),
            )->0.desc.irq@.len())
        },
        _ => false,
    }
}

impl UnicornManager {
    /// Brokers one MMIO region of the calling driver's device: serves the
    /// cached frame capability when the base address was granted before,
    /// otherwise allocates a slot and asks for a fresh carve-out.
    pub fn get_mmio(&mut self, badge: u64, region_index: u64) -> (out: (Reply, Vec<CapAction>))
        requires
            old(self).wf(),
            old(self).next_slot < u64::MAX,
        ensures
            final(self).wf(),
            mmio_post(*old(self), *final(self), badge, region_index, out.0, out.1@),
    {
        let node_id = match self.pids.get(badge) {
            Some(id) => id,
            None => {
                return (Reply::Failure { err: Error::InvalidArgs }, Vec::new());
            },
        };
        let reg: MMIORegion = match self.tree.get_node(node_id) {
            Some(node) => {
                if region_index >= node.desc.mmio.len() as u64 {
                    return (Reply::Failure { err: Error::InvalidArgs }, Vec::new());
                }
                node.desc.mmio[region_index as usize]
            },
            None => {
                proof {
                    assert(false);
                }
                return (Reply::Failure { err: Error::InvalidArgs }, Vec::new());
            },
        };
        match self.mmio_cache.get(reg.base_addr) {
            Some(slot) => (
                Reply::Mmio { paddr: reg.base_addr, size: reg.size, frame_slot: slot },
                Vec::new(),
            ),
            None => {
                let ghost pre = *old(self);
                let slot = self.alloc_slot();
                self.mmio_cache.insert(reg.base_addr, slot);
                let pages = reg.size / PGSIZE + if reg.size % PGSIZE == 0 {
                    0
                } else {
                    1
                };
                let mut acts: Vec<CapAction> = Vec::new();
                acts.push(CapAction::RetypeMmio { base_addr: reg.base_addr, pages, dst: slot });
                proof {
                    assert(acts@ =~= seq![
                        CapAction::RetypeMmio {
                            base_addr: reg.base_addr,
                            pages: spec_pages(reg.size),
                            dst: slot,
                        },
                    ]);
                    assert(self.mmio_ok()) by {
                        assert forall|a: u64| #[trigger] self.mmio_cache.spec_contains(
                            a,
                        ) implies exists|x: DeviceId|
                            (#[trigger] self.tree.spec_get(x)) matches Some(n) && exists|i: int|
                                0 <= i < n.desc.mmio@.len() && (#[trigger] n.desc.mmio@[i]).base_addr
                                    == a by {
                            if a == reg.base_addr {
                                assert(self.tree.spec_get(node_id) matches Some(n) && exists|
                                    i: int,
                                |
                                    0 <= i < n.desc.mmio@.len() && (
                                    #[trigger] n.desc.mmio@[i]).base_addr == a) by {
                                    let n = self.tree.spec_get(node_id)->0;
                                    assert(n.desc.mmio@[region_index as int].base_addr == a);
                                }
                            } else {
                                assert(self.mmio_cache.spec_get(a) is Some);
                                assert(self.mmio_cache.spec_get(a) == pre.mmio_cache.spec_get(a));
                                assert(pre.mmio_cache.spec_contains(a));
                                assert(self.tree == pre.tree);
                            }
                        }
                    }
                }
                (Reply::Mmio { paddr: reg.base_addr, size: reg.size, frame_slot: slot }, acts)
            },
        }
    }

    /// Brokers one interrupt line of the calling driver's device: serves the
    /// cached handler capability when the line was granted before, otherwise
    /// allocates a slot, asks for the handler and enables the line once.
    pub fn get_irq(&mut self, badge: u64, irq_index: u64) -> (out: (Reply, Vec<CapAction>))
        requires
            old(self).wf(),
            old(self).next_slot < u64::MAX,
        ensures
            final(self).wf(),
            irq_post(*old(self), *final(self), badge, irq_index, out.0, out.1@),
    {
        let node_id = match self.pids.get(badge) {
            Some(id) => id,
            None => {
                return (Reply::Failure { err: Error::InvalidArgs }, Vec::new());
            },
        };
        let irq: u64 = match self.tree.get_node(node_id) {
            Some(node) => {
                if irq_index >= node.desc.irq.len() as u64 {
                    return (Reply::Failure { err: Error::InvalidArgs }, Vec::new());
                }
                node.desc.irq[irq_index as usize]
            },
            None => {
                proof {
                    assert(false);
                }
                return (Reply::Failure { err: Error::InvalidArgs }, Vec::new());
            },
        };
        match self.irq_cache.get(irq) {
            Some(slot) => (Reply::Irq { handler_slot: slot }, Vec::new()),
            None => {
                let ghost pre = *old(self);
                let slot = self.alloc_slot();
                self.irq_cache.insert(irq, slot);
                let mut acts: Vec<CapAction> = Vec::new();
                acts.push(CapAction::GetIrqCap { irq, dst: slot });
                acts.push(CapAction::EnableIrq { irq });
                proof {
                    assert(acts@ =~= seq![
                        CapAction::GetIrqCap { irq, dst: slot },
                        CapAction::EnableIrq { irq },
                    ]);
                    assert(self.irq_ok()) by {
                        assert forall|q: u64| #[trigger] self.irq_cache.spec_contains(
                            q,
                        ) implies exists|x: DeviceId|
                            (#[trigger] self.tree.spec_get(x)) matches Some(n) && exists|i: int|
                                0 <= i < n.desc.irq@.len() && #[trigger] n.desc.irq@[i] == q by {
                            if q == irq {
                                assert(self.tree.spec_get(node_id) matches Some(n) && exists|
                                    i: int,
                                |
                                    0 <= i < n.desc.irq@.len() && #[trigger] n.desc.irq@[i]
                                        == q) by {
                                    let n = self.tree.spec_get(node_id)->0;
                                    assert(n.desc.irq@[irq_index as int] == q);
                                }
                            } else {
                                assert(self.irq_cache.spec_get(q) is Some);
                                assert(self.irq_cache.spec_get(q) == pre.irq_cache.spec_get(q));
                                assert(pre.irq_cache.spec_contains(q));
                                assert(self.tree == pre.tree);
                            }
                        }
                    }
                }
                (Reply::Irq { handler_slot: slot }, acts)
            },
        }
    }
}

/// The spawn queue only grew, and every appended candidate was `Ready`.
pub open spec fn queue_extended(pre: UnicornManager, post: UnicornManager) -> bool {
    &&& post.spawn_queue@.len() >= pre.spawn_queue@.len()
    &&& post.spawn_queue@.take(pre.spawn_queue@.len() as int) == pre.spawn_queue@
    &&& forall|k: int|
        pre.spawn_queue@.len() <= k < post.spawn_queue@.len() ==> post.tree.spec_ready(
            #[trigger] post.spawn_queue@[k],
        )
}

/// What REPORT guarantees: the flattened subtree is mounted under the
/// calling driver's node and its `Ready` members are queued for spawning;
/// `InvalidArgs` exactly on an unknown badge or a forward parent reference
/// (elements before the offending one stay inserted).
pub open spec fn report_post(
    pre: UnicornManager,
    post: UnicornManager,
    badge: u64,
    nodes: Seq<DeviceDescNode>,
    reply: Reply,
    acts: Seq<CapAction>,
) -> bool {
    &&& DeviceTree::extends(post.tree, pre.tree)
    &&& acts.len() == 0
    &&& post.config == pre.config
    &&& post.pids == pre.pids
    &&& post.mmio_cache == pre.mmio_cache
    &&& post.irq_cache == pre.irq_cache
    &&& post.logic == pre.logic
    &&& post.hooks == pre.hooks
    &&& post.next_slot == pre.next_slot
    &&& match reply {
        Reply::Done => {
            &&& pre.pids.spec_contains(badge)
            &&& crate::tree::report_refs_ok(nodes)
            &&& exists|ids: Seq<DeviceId>|
                crate::tree::mounted(post.tree, pre.tree, pre.pids.spec_at(badge), nodes, ids)
            &&& queue_extended(pre, post)
        },
        Reply::Failure { err } => {
            &&& err == Error::InvalidArgs
            &&& (!pre.pids.spec_contains(badge) || !crate::tree::report_refs_ok(nodes))
            &&& post.spawn_queue == pre.spawn_queue
        },
        _ => false,
    }
}

/// What UPDATE guarantees: the calling driver's node gets the new
/// compatibility strings, returns to `Ready`, loses its badge binding, and
/// the subtree is rescanned; `InvalidArgs` exactly on an unknown badge.
pub open spec fn update_post(
    pre: UnicornManager,
    post: UnicornManager,
    badge: u64,
    compatible: Vec<String>,
    reply: Reply,
    acts: Seq<CapAction>,
) -> bool {
    &&& acts.len() == 0
    &&& post.config == pre.config
    &&& post.mmio_cache == pre.mmio_cache
    &&& post.irq_cache == pre.irq_cache
    &&& post.logic == pre.logic
    &&& post.hooks == pre.hooks
    &&& post.next_slot == pre.next_slot
    &&& match reply {
        Reply::Done => {
            &&& pre.pids.spec_contains(badge)
            &&& !post.pids.spec_contains(badge)
            &&& forall|b: u64| b != badge ==> post.pids.spec_get(b) == pre.pids.spec_get(b)
            &&& {
                let id = pre.pids.spec_at(badge);
                let o = pre.tree.spec_get(id)->0;
                &&& (post.tree.spec_get(id) matches Some(n) && n == DeviceNode {
                    desc: DeviceDesc { compatible, ..o.desc },
                    state: DeviceState::Ready,
                    ..o
                })
                &&& forall|x: DeviceId|
                    x.index != id.index ==> #[trigger] post.tree.spec_get(x) == pre.tree.spec_get(
                        x,
                    )
            }
            &&& queue_extended(pre, post)
        },
        Reply::Failure { err } => {
            &&& err == Error::InvalidArgs
            &&& !pre.pids.spec_contains(badge)
            &&& post == pre
        },
        _ => false,
    }
}

/// Growing the tree (mounting reported nodes) without touching badges,
/// caches or the queue preserves the aggregate invariants: surviving nodes
/// keep their state and descriptor.
proof fn lemma_wf_preserved_by_extends(pre: UnicornManager, post: UnicornManager)
    requires
        pre.wf(),
        post.tree.wf(),
        DeviceTree::extends(post.tree, pre.tree),
        post.pids == pre.pids,
        post.mmio_cache == pre.mmio_cache,
        post.irq_cache == pre.irq_cache,
        post.spawn_queue == pre.spawn_queue,
    ensures
        post.pids_ok(),
        post.mmio_ok(),
        post.irq_ok(),
        post.queue_ok(),
{
    assert(post.pids_ok()) by {
        assert forall|b: u64| #[trigger] post.pids.spec_contains(b) implies (post.tree.spec_get(
            post.pids.spec_at(b),
        ) matches Some(n) && n.state == DeviceState::Running) by {
            assert(pre.pids.spec_contains(b));
            let t = pre.pids.spec_at(b);
            assert(pre.tree.spec_get(t) is Some);
            assert(post.tree.spec_get(t) is Some);
            assert(crate::tree::same_except_children(
                post.tree.spec_get(t)->0,
                pre.tree.spec_get(t)->0,
            ));
        }
    }
    assert(post.mmio_ok()) by {
        assert forall|a: u64| #[trigger] post.mmio_cache.spec_contains(a) implies exists|
            x: DeviceId,
        |
            (#[trigger] post.tree.spec_get(x)) matches Some(n) && exists|i: int|
                0 <= i < n.desc.mmio@.len() && (#[trigger] n.desc.mmio@[i]).base_addr == a by {
            assert(pre.mmio_cache.spec_contains(a));
            let x = choose|x: DeviceId|
                (#[trigger] pre.tree.spec_get(x)) matches Some(n) && exists|i: int|
                    0 <= i < n.desc.mmio@.len() && (#[trigger] n.desc.mmio@[i]).base_addr == a;
            assert(pre.tree.spec_get(x) is Some);
            assert(post.tree.spec_get(x) is Some);
            assert(crate::tree::same_except_children(
                post.tree.spec_get(x)->0,
                pre.tree.spec_get(x)->0,
            ));
            assert(post.tree.spec_get(x)->0.desc.mmio == pre.tree.spec_get(x)->0.desc.mmio);
        }
    }
    assert(post.irq_ok()) by {
        assert forall|q: u64| #[trigger] post.irq_cache.spec_contains(q) implies exists|
            x: DeviceId,
        |
            (#[trigger] post.tree.spec_get(x)) matches Some(n) && exists|i: int|
                0 <= i < n.desc.irq@.len() && #[trigger] n.desc.irq@[i] == q by {
            assert(pre.irq_cache.spec_contains(q));
            let x = choose|x: DeviceId|
                (#[trigger] pre.tree.spec_get(x)) matches Some(n) && exists|i: int|
                    0 <= i < n.desc.irq@.len() && #[trigger] n.desc.irq@[i] == q;
            assert(pre.tree.spec_get(x) is Some);
            assert(post.tree.spec_get(x) is Some);
            assert(post.tree.spec_get(x)->0.desc.irq == pre.tree.spec_get(x)->0.desc.irq);
        }
    }
    assert(post.queue_ok()) by {
        assert forall|k: int| 0 <= k < post.spawn_queue@.len() implies post.tree.live(
            #[trigger] post.spawn_queue@[k],
        ) by {
            assert(pre.tree.live(pre.spawn_queue@[k]));
        }
    }
}

impl UnicornManager {
    /// Mounts a driver-reported flattened subtree under the caller's node
    /// and queues the new `Ready` devices for driver spawning (drained at
    /// the next loop turn, never inline).
    pub fn report(&mut self, badge: u64, nodes: Vec<DeviceDescNode>) -> (out: (
        Reply,
        Vec<CapAction>,
    ))
        requires
            old(self).wf(),
            old(self).tree.slots().len() + nodes@.len() <= u32::MAX as nat,
        ensures
            final(self).wf(),
            report_post(*old(self), *final(self), badge, nodes@, out.0, out.1@),
    {
        let node_id = match self.pids.get(badge) {
            Some(id) => id,
            None => {
                return (Reply::Failure { err: Error::InvalidArgs }, Vec::new());
            },
        };
        let ghost pre = *old(self);
        let r = self.tree.mount_subtree(node_id, nodes);
        proof {
            lemma_wf_preserved_by_extends(pre, *self);
        }
        match r {
            Ok(_) => {
                let ghost mid = *self;
                self.scan_subtree(node_id);
                proof {
                    crate::tree::lemma_extends_trans(pre.tree, mid.tree, self.tree);
                    assert(self.tree == mid.tree);
                    assert(queue_extended(pre, *self));
                }
                (Reply::Done, Vec::new())
            },
            Err(e) => {
                proof {
                    assert(pre.tree.live(node_id));
                }
                (Reply::Failure { err: e }, Vec::new())
            },
        }
    }

    /// Replaces the compatibility strings of the calling driver's node after
    /// a bus-level probe, returns the node to `Ready`, unbinds the badge,
    /// and rescans the subtree so a more specific driver can spawn.
    pub fn update(&mut self, badge: u64, compatible: Vec<String>) -> (out: (Reply, Vec<CapAction>))
        requires
            old(self).wf(),
        ensures
            final(self).wf(),
            update_post(*old(self), *final(self), badge, compatible, out.0, out.1@),
    {
        let node_id = match self.pids.remove(badge) {
            Some(id) => id,
            None => {
                return (Reply::Failure { err: Error::InvalidArgs }, Vec::new());
            },
        };
        let ghost pre = *old(self);
        let ghost afterpids = *self;
        proof {
            assert(pre.tree.live(node_id));
        }
        let ok1 = self.tree.set_compatible(node_id, compatible);
        let ghost mid1 = *self;
        let ok2 = self.tree.set_state(node_id, DeviceState::Ready);
        let ghost mid2 = *self;
        proof {
            assert(ok1 && ok2);
            lemma_wf_after_state_change(pre, mid2, node_id);
            assert(mid2.pids_ok()) by {
                assert forall|b: u64| #[trigger] mid2.pids.spec_contains(b) implies (
                mid2.tree.spec_get(mid2.pids.spec_at(b)) matches Some(n) && n.state
                    == DeviceState::Running) by {
                    assert(mid2.pids.spec_get(b) == pre.pids.spec_get(b));
                    assert(pre.pids.spec_contains(b));
                    assert(b != badge);
                    let t = pre.pids.spec_at(b);
                    assert(mid2.pids.spec_at(b) == t);
                    if t.index == node_id.index {
                        assert(pre.tree.spec_get(t) is Some);
                        assert(t != node_id ==> pre.tree.slot_ok(node_id.index as int));
                        assert(t == node_id);
                        assert(pre.pids.spec_at(badge) == node_id);
                        assert(false);
                    } else {
                        assert(mid2.tree.spec_get(t) == pre.tree.spec_get(t));
                    }
                }
                assert forall|b1: u64, b2: u64|
                    b1 != b2 && #[trigger] mid2.pids.spec_contains(b1)
                        && #[trigger] mid2.pids.spec_contains(b2) implies mid2.pids.spec_at(b1)
                    != mid2.pids.spec_at(b2) by {
                    assert(mid2.pids.spec_get(b1) == pre.pids.spec_get(b1));
                    assert(mid2.pids.spec_get(b2) == pre.pids.spec_get(b2));
                    assert(pre.pids.spec_contains(b1) && pre.pids.spec_contains(b2));
                }
            }
            assert(mid2.wf());
        }
        self.scan_subtree(node_id);
        proof {
            assert(queue_extended(pre, *self));
        }
        (Reply::Done, Vec::new())
    }
}

/// Notifications as deliverable actions, order kept.
pub open spec fn note_actions(notes: Seq<Notification>) -> Seq<CapAction> {
    notes.map_values(
        |n: Notification| CapAction::Notify { slot: n.subscriber_slot, logic_id: n.logic_id },
    )
}

/// What REGISTER_LOGIC guarantees: with an endpoint present the device is
/// accepted — the caller need not be a registered driver — stored under the
/// generated name, linked to the named parent node when one exists, and the
/// actions first secure the endpoint (badged mint or plain move into the
/// fresh slot) and then notify every matching hook, before any reply;
/// `InvalidArgs` exactly when no endpoint came with the message.
pub open spec fn register_post(
    pre: UnicornManager,
    post: UnicornManager,
    desc: crate::logic::LogicDeviceDesc,
    has_endpoint: bool,
    reply: Reply,
    acts: Seq<CapAction>,
) -> bool {
    match reply {
        Reply::Done => {
            &&& has_endpoint
            &&& post.logic.devices@.len() == pre.logic.devices@.len() + 1
            &&& post.logic.devices@.drop_last() == pre.logic.devices@
            &&& {
                let e = post.logic.devices@.last();
                &&& e.id == pre.logic.counter.next_id
                &&& e.endpoint_slot == pre.next_slot
                &&& e.assigned_name@ == crate::logic::spec_name_of(
                    pre.logic.devices@,
                    pre.logic.counter,
                    desc,
                )
                &&& crate::logic::ldesc_matches(e.desc, desc)
                &&& acts == seq![
                    (match desc.badge {
                        Some(b) => CapAction::MintFromRecv { dst: pre.next_slot, badge: b },
                        None => CapAction::MoveFromRecv { dst: pre.next_slot },
                    }),
                ] + note_actions(spec_notes_for_entry(pre.hooks.hooks@, e))
                &&& (if (exists|x: DeviceId|
                    (#[trigger] pre.tree.spec_get(x)) matches Some(n) && n.desc.name@
                        == desc.parent_name@) {
                    exists|x: DeviceId|
                        {
                            &&& (#[trigger] pre.tree.spec_get(x)) matches Some(n)
                                && n.desc.name@ == desc.parent_name@
                            &&& (post.tree.spec_get(x) matches Some(n2) && {
                                let n = pre.tree.spec_get(x)->0;
                                n2.logical_devices@ == n.logical_devices@.push(e.id)
                            })
                            &&& forall|y: DeviceId|
                                y.index != x.index ==> #[trigger] post.tree.spec_get(y)
                                    == pre.tree.spec_get(y)
                        }
                } else {
                    post.tree == pre.tree
                })
            }
            &&& post.logic.counter == crate::logic::spec_bump(pre.logic.counter, desc.dev_type)
            &&& post.hooks == pre.hooks
            &&& post.config == pre.config
            &&& post.pids == pre.pids
            &&& post.mmio_cache == pre.mmio_cache
            &&& post.irq_cache == pre.irq_cache
            &&& post.spawn_queue == pre.spawn_queue
            &&& post.next_slot == pre.next_slot + 1
        },
        Reply::Failure { err } => {
            &&& err == Error::InvalidArgs
            &&& !has_endpoint
            &&& post == pre
            &&& acts.len() == 0
        },
        _ => false,
    }
}

/// What HOOK guarantees: the subscription is appended and the actions first
/// secure the subscriber endpoint, then replay the new hook once against
/// every already-registered matching logic device; `InvalidArgs` exactly
/// when no endpoint came with the message.
pub open spec fn hook_post(
    pre: UnicornManager,
    post: UnicornManager,
    target: crate::hooks::HookTarget,
    has_endpoint: bool,
    reply: Reply,
    acts: Seq<CapAction>,
) -> bool {
    match reply {
        Reply::Done => {
            &&& has_endpoint
            &&& {
                let h = crate::hooks::Hook { target, subscriber_slot: pre.next_slot };
                &&& post.hooks.hooks@ == pre.hooks.hooks@.push(h)
                &&& acts == seq![(CapAction::MoveFromRecv { dst: pre.next_slot })]
                    + note_actions(crate::hooks::spec_replay(pre.logic.devices@, h))
            }
            &&& post == UnicornManager {
                hooks: post.hooks,
                next_slot: (pre.next_slot + 1) as u64,
                ..pre
            }
        },
        Reply::Failure { err } => {
            &&& err == Error::InvalidArgs
            &&& !has_endpoint
            &&& post == pre
            &&& acts.len() == 0
        },
        _ => false,
    }
}

impl UnicornManager {
    /// Registers a driver-reported logic device: secures its endpoint in a
    /// fresh managed slot (a badged mint when the descriptor asks for one,
    /// else a move), assigns the stable name, links the entry to the named
    /// parent node when it exists, and fires every matching hook before the
    /// reply is sent.
    pub fn register_logic(
        &mut self,
        badge: u64,
        desc: crate::logic::LogicDeviceDesc,
        has_endpoint: bool,
    ) -> (out: (Reply, Vec<CapAction>))
        requires
            old(self).wf(),
            old(self).next_slot < u64::MAX,
            old(self).logic.devices@.len() + 1 < u64::MAX,
        ensures
            final(self).wf(),
            register_post(*old(self), *final(self), desc, has_endpoint, out.0, out.1@),
    {
        let _ = badge;
        if !has_endpoint {
            return (Reply::Failure { err: Error::InvalidArgs }, Vec::new());
        }
        let ghost pre = *old(self);
        let slot = self.alloc_slot();
        let first_act = match desc.badge {
            Some(b) => CapAction::MintFromRecv { dst: slot, badge: b },
            None => CapAction::MoveFromRecv { dst: slot },
        };
        let parent_name = desc.parent_name.clone();
        let ghost gdesc = desc;
        let (id, _name) = self.logic.register(desc, slot);
        let ghost mid = *self;
        match self.tree.find_id_by_name(&parent_name) {
            Some(pid) => {
                let ok = self.tree.push_logical(pid, id);
                proof {
                    assert(ok);
                    lemma_wf_after_state_change(pre, *self, pid);
                    assert(self.pids_ok()) by {
                        assert forall|b: u64| #[trigger] self.pids.spec_contains(b) implies (
                        self.tree.spec_get(self.pids.spec_at(b)) matches Some(n) && n.state
                            == DeviceState::Running) by {
                            assert(pre.pids.spec_contains(b));
                            let t = pre.pids.spec_at(b);
                            if t.index == pid.index {
                                assert(pre.tree.spec_get(t) is Some);
                                assert(t == pid);
                                assert(self.tree.spec_get(pid) is Some);
                                assert(self.tree.spec_get(pid)->0.state == pre.tree.spec_get(
                                    pid,
                                )->0.state);
                            } else {
                                assert(self.tree.spec_get(t) == pre.tree.spec_get(t));
                            }
                        }
                    }
                    assert(exists|x: DeviceId|
                        (#[trigger] pre.tree.spec_get(x)) matches Some(n) && n.desc.name@
                            == gdesc.parent_name@);
                }
            },
            None => {
                proof {
                    assert(self.tree == pre.tree);
                    assert(!(exists|x: DeviceId|
                        (#[trigger] pre.tree.spec_get(x)) matches Some(n) && n.desc.name@
                            == gdesc.parent_name@)) by {
                        if exists|x: DeviceId|
                            (#[trigger] pre.tree.spec_get(x)) matches Some(n) && n.desc.name@
                                == gdesc.parent_name@ {
                            let x = choose|x: DeviceId|
                                (#[trigger] pre.tree.spec_get(x)) matches Some(n) && n.desc.name@
                                    == gdesc.parent_name@;
                            assert(pre.tree.spec_get(x) is Some);
                        }
                    }
                }
            },
        }
        let last = self.logic.devices.len() - 1;
        let notes = self.hooks.fire_for_entry(&self.logic.devices[last]);
        let mut acts: Vec<CapAction> = Vec::new();
        acts.push(first_act);
        let mut i: usize = 0;
        while i < notes.len()
            invariant
                i <= notes@.len(),
                acts@.len() == i + 1,
                acts@[0] == first_act,
                forall|k: int|
                    0 <= k < i ==> acts@[k + 1] == (CapAction::Notify {
                        slot: notes@[k].subscriber_slot,
                        logic_id: notes@[k].logic_id,
                    }),
            decreases notes@.len() - i,
        {
            let n = notes[i];
            acts.push(CapAction::Notify { slot: n.subscriber_slot, logic_id: n.logic_id });
            i = i + 1;
        }
        proof {
            assert(acts@ =~= seq![first_act] + note_actions(notes@));
        }
        (Reply::Done, acts)
    }

    /// Subscribes an endpoint to logic-device notifications, securing the
    /// endpoint in a fresh managed slot and immediately replaying the hook
    /// against every matching logic device already registered.
    pub fn hook(
        &mut self,
        target: crate::hooks::HookTarget,
        has_endpoint: bool,
    ) -> (out: (Reply, Vec<CapAction>))
        requires
            old(self).wf(),
            old(self).next_slot < u64::MAX,
        ensures
            final(self).wf(),
            hook_post(*old(self), *final(self), target, has_endpoint, out.0, out.1@),
    {
        if !has_endpoint {
            return (Reply::Failure { err: Error::InvalidArgs }, Vec::new());
        }
        let slot = self.alloc_slot();
        let notes = {
            let hooks = &mut self.hooks;
            hooks.hook(target, slot, &self.logic)
        };
        let mut acts: Vec<CapAction> = Vec::new();
        acts.push(CapAction::MoveFromRecv { dst: slot });
        let mut i: usize = 0;
        while i < notes.len()
            invariant
                i <= notes@.len(),
                acts@.len() == i + 1,
                acts@[0] == (CapAction::MoveFromRecv { dst: slot }),
                forall|k: int|
                    0 <= k < i ==> acts@[k + 1] == (CapAction::Notify {
                        slot: notes@[k].subscriber_slot,
                        logic_id: notes@[k].logic_id,
                    }),
            decreases notes@.len() - i,
        {
            let n = notes[i];
            acts.push(CapAction::Notify { slot: n.subscriber_slot, logic_id: n.logic_id });
            i = i + 1;
        }
        proof {
            assert(acts@ =~= seq![(CapAction::MoveFromRecv { dst: slot })] + note_actions(
                notes@,
            ));
        }
        (Reply::Done, acts)
    }

    /// Hands a client a badged copy of a registered device's endpoint: the
    /// first entry of the requested kind with exactly the requested name.
    pub fn alloc_logic(&mut self, badge: u64, dev_type: u32, criteria: &String) -> (out: (
        Reply,
        Vec<CapAction>,
    ))
        requires
            old(self).wf(),
            old(self).next_slot < u64::MAX,
        ensures
            final(self).wf(),
            match out.0 {
                Reply::Endpoint { endpoint_slot } => {
                    &&& crate::logic::find_alloc(old(self).logic.devices@, dev_type, criteria@)
                        matches Some(p) && endpoint_slot == old(self).next_slot && out.1@ == seq![
                        (CapAction::MintEndpoint { src: p.1, dst: endpoint_slot, badge }),
                    ]
                    &&& (*final(self) == UnicornManager {
                        next_slot: (old(self).next_slot + 1) as u64,
                        ..*old(self)
                    })
                },
                Reply::Failure { err } => {
                    &&& err == Error::NotFound
                    &&& (crate::logic::find_alloc(old(self).logic.devices@, dev_type, criteria@)
                        is None)
                    &&& *final(self) == *old(self)
                    &&& out.1@.len() == 0
                },
                _ => false,
            },
    {
        match self.logic.alloc_logic(dev_type, criteria) {
            Some(p) => {
                let slot = self.alloc_slot();
                let mut acts: Vec<CapAction> = Vec::new();
                acts.push(CapAction::MintEndpoint { src: p.1, dst: slot, badge });
                proof {
                    assert(acts@ =~= seq![
                        (CapAction::MintEndpoint { src: p.1, dst: slot, badge }),
                    ]);
                }
                (Reply::Endpoint { endpoint_slot: slot }, acts)
            },
            None => (Reply::Failure { err: Error::NotFound }, Vec::new()),
        }
    }

    /// Answers a registry query with the matching assigned names, in
    /// registration order.
    pub fn query(&self, query: &crate::logic::DeviceQuery) -> (out: (Reply, Vec<CapAction>))
        ensures
            (out.0 matches Reply::Names { names } && names.deep_view() == crate::logic::spec_query(
                self.logic.devices@,
                *query,
            )),
            out.1@.len() == 0,
    {
        let names = self.logic.query(query);
        (Reply::Names { names }, Vec::new())
    }

    /// Looks a physical device descriptor up by name; `NotFound` exactly
    /// when no live node carries the name.
    pub fn get_desc(&self, name: &String) -> (out: (Reply, Vec<CapAction>))
        requires
            self.wf(),
        ensures
            out.1@.len() == 0,
            match out.0 {
                Reply::Desc { desc } => exists|x: DeviceId|
                    (#[trigger] self.tree.spec_get(x)) matches Some(n) && n.desc.name@ == name@
                        && desc_matches(desc, n.desc),
                Reply::Failure { err } => err == Error::NotFound && forall|x: DeviceId|
                    (#[trigger] self.tree.spec_get(x)) matches Some(n) ==> n.desc.name@ != name@,
                _ => false,
            },
    {
        match self.tree.find_desc(name) {
            Some(desc) => (Reply::Desc { desc }, Vec::new()),
            None => (Reply::Failure { err: Error::NotFound }, Vec::new()),
        }
    }

    /// Looks a logic device up by its exact assigned name; `NotFound`
    /// exactly when no entry carries the name.
    pub fn get_logic_desc(&self, name: &String) -> (out: (Reply, Vec<CapAction>))
        ensures
            out.1@.len() == 0,
            match out.0 {
                Reply::LogicDesc { id, ldesc } => crate::logic::find_named(
                    self.logic.devices@,
                    name@,
                ) matches Some(e) && id == e.id && crate::logic::ldesc_matches(ldesc, e.desc),
                Reply::Failure { err } => err == Error::NotFound && crate::logic::find_named(
                    self.logic.devices@,
                    name@,
                ) is None,
                _ => false,
            },
    {
        match self.logic.get_desc(name) {
            Some(p) => (Reply::LogicDesc { id: p.0, ldesc: p.1 }, Vec::new()),
            None => (Reply::Failure { err: Error::NotFound }, Vec::new()),
        }
    }
}

/// The kind of platform description the boot environment supplies.
#[derive(Clone, Copy, Debug, PartialEq, Eq, Structural)]
pub enum PlatformType {
    ACPI,
    DTB,
    Unknown,
}

/// The boot-info page, as plain values (the host shell maps and reads the
/// actual page).
#[derive(Clone, Copy, Debug, PartialEq, Eq, Structural)]
pub struct BootInfo {
    pub platform_type: PlatformType,
    pub addr: u64,
    pub size: u64,
    pub initrd_paddr: u64,
    pub initrd_size: u64,
    pub cpus: u64,
}

/// The name of the root platform node for a boot platform type.
pub open spec fn spec_platform_name(t: PlatformType) -> Seq<char> {
    match t {
        PlatformType::ACPI => "acpi"@,
        PlatformType::DTB => "dtb"@,
        PlatformType::Unknown => ""@,
    }
}

/// A decoded incoming message, dispatched by (protocol, method). The badge
/// is the kernel-stamped identity of the sender.
pub enum Request {
    /// (KERNEL, NOTIFY): the badge carries the interrupt number.
    KernelNotify { badge: u64 },
    ScanPlatform { badge: u64 },
    Report { badge: u64, nodes: Vec<DeviceDescNode> },
    Update { badge: u64, compatible: Vec<String> },
    GetMmio { badge: u64, region_index: u64 },
    GetIrq { badge: u64, irq_index: u64 },
    RegisterLogic { badge: u64, desc: crate::logic::LogicDeviceDesc, has_endpoint: bool },
    AllocLogic { badge: u64, dev_type: u32, criteria: String },
    Query { badge: u64, query: crate::logic::DeviceQuery },
    GetDesc { badge: u64, name: String },
    GetLogicDesc { badge: u64, name: String },
    Hook { badge: u64, target: crate::hooks::HookTarget, has_endpoint: bool },
    Unhook { badge: u64 },
    /// Any (protocol, method) pair outside the table.
    Unknown { proto: u64, method: u64 },
}

impl UnicornManager {
    /// Machine-limit room a request needs before it can be dispatched: free
    /// capability slots, registry and tree headroom.
    pub open spec fn dispatch_ready(self, req: Request) -> bool {
        match req {
            Request::Report { nodes, .. } => self.tree.slots().len() + nodes@.len()
                <= u32::MAX as nat,
            Request::GetMmio { .. } => self.next_slot < u64::MAX,
            Request::GetIrq { .. } => self.next_slot < u64::MAX,
            Request::AllocLogic { .. } => self.next_slot < u64::MAX,
            Request::Hook { .. } => self.next_slot < u64::MAX,
            Request::RegisterLogic { .. } => self.next_slot < u64::MAX
                && self.logic.devices@.len() + 1 < u64::MAX,
            _ => true,
        }
    }

    /// Seeds the device tree with the root platform node described by the
    /// boot info, and asks for every CPU's interrupt threshold to be
    /// lowered. An unknown platform type leaves the tree untouched.
    pub fn init_root_platform(&mut self, bootinfo: &BootInfo) -> (acts: Vec<CapAction>)
        requires
            old(self).wf(),
            old(self).tree.slots().len() < u32::MAX as nat,
        ensures
            final(self).wf(),
            bootinfo.platform_type is Unknown ==> *final(self) == *old(self) && acts@.len() == 0,
            !(bootinfo.platform_type is Unknown) ==> {
                &&& exists|id: DeviceId|
                    {
                        &&& !old(self).tree.live(id)
                        &&& (#[trigger] final(self).tree.spec_get(id)) matches Some(n) && {
                            &&& n.desc.name@ == spec_platform_name(bootinfo.platform_type)
                            &&& n.desc.compatible@.len() == 0
                            &&& n.desc.mmio@ == seq![
                                MMIORegion { base_addr: bootinfo.addr, size: bootinfo.size },
                            ]
                            &&& n.desc.irq@.len() == 0
                            &&& n.state == DeviceState::Ready
                            &&& n.parent is None
                        }
                        &&& (old(self).tree.root is None ==> final(self).tree.root == Some(id))
                    }
                &&& DeviceTree::extends(final(self).tree, old(self).tree)
                &&& acts@ == Seq::new(
                    bootinfo.cpus as nat,
                    |i: int| CapAction::SetIrqThreshold { cpu: i as u64 },
                )
                &&& (*final(self) == UnicornManager { tree: final(self).tree, ..*old(self) })
            },
    {
        let name: &str = match bootinfo.platform_type {
            PlatformType::ACPI => "acpi",
            PlatformType::DTB => "dtb",
            PlatformType::Unknown => {
                return Vec::new();
            },
        };
        let mut mmio: Vec<MMIORegion> = Vec::new();
        mmio.push(MMIORegion { base_addr: bootinfo.addr, size: bootinfo.size });
        let desc = DeviceDesc {
            name: String::from_str(name),
            compatible: Vec::new(),
            mmio,
            irq: Vec::new(),
        };
        let ghost pre = *old(self);
        let r = self.tree.insert(None, desc);
        proof {
            assert(r is Ok);
            lemma_wf_preserved_by_extends(pre, *self);
        }
        let mut acts: Vec<CapAction> = Vec::new();
        let mut cpu: u64 = 0;
        while cpu < bootinfo.cpus
            invariant
                cpu <= bootinfo.cpus,
                acts@ == Seq::new(cpu as nat, |i: int| CapAction::SetIrqThreshold { cpu: i as u64 }),
            decreases bootinfo.cpus - cpu,
        {
            acts.push(CapAction::SetIrqThreshold { cpu });
            proof {
                assert(acts@ =~= Seq::new(
                    (cpu + 1) as nat,
                    |i: int| CapAction::SetIrqThreshold { cpu: i as u64 },
                ));
            }
            cpu = cpu + 1;
        }
        acts
    }

    /// Registers the boot ramdisk, when present, as a device node under the
    /// root, so a ramdisk driver can be matched and spawned.
    pub fn init_initrd_device(&mut self, bootinfo: &BootInfo)
        requires
            old(self).wf(),
            old(self).tree.slots().len() < u32::MAX as nat,
        ensures
            final(self).wf(),
            bootinfo.initrd_size == 0 ==> *final(self) == *old(self),
            bootinfo.initrd_size != 0 ==> {
                &&& exists|id: DeviceId|
                    {
                        &&& !old(self).tree.live(id)
                        &&& (#[trigger] final(self).tree.spec_get(id)) matches Some(n) && {
                            &&& n.desc.name@ == "ramdisk"@
                            &&& n.desc.compatible.deep_view() == seq!["ramdisk"@]
                            &&& n.desc.mmio@ == seq![
                                MMIORegion {
                                    base_addr: bootinfo.initrd_paddr,
                                    size: bootinfo.initrd_size,
                                },
                            ]
                            &&& n.state == DeviceState::Ready
                            &&& n.parent == old(self).tree.root
                        }
                    }
                &&& DeviceTree::extends(final(self).tree, old(self).tree)
                &&& (*final(self) == UnicornManager { tree: final(self).tree, ..*old(self) })
            },
    {
        if bootinfo.initrd_size == 0 {
            return ;
        }
        let mut compatible: Vec<String> = Vec::new();
        compatible.push(String::from_str("ramdisk"));
        proof {
            assert(compatible.deep_view() =~= seq!["ramdisk"@]);
        }
        let mut mmio: Vec<MMIORegion> = Vec::new();
        mmio.push(MMIORegion { base_addr: bootinfo.initrd_paddr, size: bootinfo.initrd_size });
        let desc = DeviceDesc {
            name: String::from_str("ramdisk"),
            compatible,
            mmio,
            irq: Vec::new(),
        };
        let ghost pre = *old(self);
        let parent = self.tree.root;
        proof {
            if parent is Some {
                assert(pre.tree.live(parent->0));
            }
        }
        let r = self.tree.insert(parent, desc);
        proof {
            assert(r is Ok);
            lemma_wf_preserved_by_extends(pre, *self);
        }
    }

    /// Stops the serve loop after the current message.
    pub fn stop(&mut self)
        ensures
            (*final(self) == UnicornManager { running: false, ..*old(self) }),
    {
        self.running = false;
    }

    /// Routes one decoded message to its handler and returns the reply with
    /// the actions the host shell must perform — actions first, reply
    /// after, so a notified subscriber observes the change as committed.
    /// Unknown (protocol, method) pairs earn `InvalidMethod`; kernel
    /// notifications are never replied to.
    pub fn dispatch(&mut self, req: Request) -> (out: (Reply, Vec<CapAction>))
        requires
            old(self).wf(),
            old(self).dispatch_ready(req),
        ensures
            final(self).wf(),
            match req {
                Request::KernelNotify { badge } => {
                    &&& out.0 is NoReply
                    &&& *final(self) == *old(self)
                    &&& out.1@ == (match old(self).irq_cache.spec_get(badge) {
                        Some(slot) => seq![(CapAction::AckIrq { slot })],
                        None => Seq::<CapAction>::empty(),
                    })
                },
                Request::ScanPlatform { .. } => {
                    &&& out.0 is Done
                    &&& out.1@.len() == 0
                    &&& queue_extended(*old(self), *final(self))
                    &&& (old(self).tree.root is Some && old(self).tree.spec_ready(
                        old(self).tree.root->0,
                    ) ==> final(self).spawn_queue@.skip(
                        old(self).spawn_queue@.len() as int,
                    ).contains(old(self).tree.root->0))
                    &&& crate::tree::closed_under_ready_children(
                        final(self).tree,
                        final(self).spawn_queue@.skip(old(self).spawn_queue@.len() as int),
                    )
                    &&& (old(self).tree.root matches Some(rt) ==> exists|vis: Set<DeviceId>|
                        crate::tree::scan_cover(
                            final(self).tree,
                            rt,
                            vis,
                            final(self).spawn_queue@.skip(old(self).spawn_queue@.len() as int),
                        ))
                    &&& (*final(self) == UnicornManager {
                        spawn_queue: final(self).spawn_queue,
                        ..*old(self)
                    })
                },
                Request::Report { badge, nodes } => report_post(
                    *old(self),
                    *final(self),
                    badge,
                    nodes@,
                    out.0,
                    out.1@,
                ),
                Request::Update { badge, compatible } => update_post(
                    *old(self),
                    *final(self),
                    badge,
                    compatible,
                    out.0,
                    out.1@,
                ),
                Request::GetMmio { badge, region_index } => mmio_post(
                    *old(self),
                    *final(self),
                    badge,
                    region_index,
                    out.0,
                    out.1@,
                ),
                Request::GetIrq { badge, irq_index } => irq_post(
                    *old(self),
                    *final(self),
                    badge,
                    irq_index,
                    out.0,
                    out.1@,
                ),
                Request::RegisterLogic { badge, desc, has_endpoint } => register_post(
                    *old(self),
                    *final(self),
                    desc,
                    has_endpoint,
                    out.0,
                    out.1@,
                ),
                Request::AllocLogic { badge, dev_type, criteria } => match out.0 {
                    Reply::Endpoint { endpoint_slot } => {
                        &&& crate::logic::find_alloc(old(self).logic.devices@, dev_type, criteria@)
                            matches Some(p) && endpoint_slot == old(self).next_slot && out.1@
                            == seq![
                            (CapAction::MintEndpoint { src: p.1, dst: endpoint_slot, badge }),
                        ]
                        &&& (*final(self) == UnicornManager {
                            next_slot: (old(self).next_slot + 1) as u64,
                            ..*old(self)
                        })
                    },
                    Reply::Failure { err } => err == Error::NotFound && crate::logic::find_alloc(
                        old(self).logic.devices@,
                        dev_type,
                        criteria@,
                    ) is None && *final(self) == *old(self) && out.1@.len() == 0,
                    _ => false,
                },
                Request::Query { badge, query } => {
                    &&& *final(self) == *old(self)
                    &&& (out.0 matches Reply::Names { names } && names.deep_view()
                        == crate::logic::spec_query(old(self).logic.devices@, query))
                },
                Request::GetDesc { badge, name } => {
                    &&& *final(self) == *old(self)
                    &&& match out.0 {
                        Reply::Desc { desc } => exists|x: DeviceId|
                            (#[trigger] old(self).tree.spec_get(x)) matches Some(n)
                                && n.desc.name@ == name@ && desc_matches(desc, n.desc),
                        Reply::Failure { err } => err == Error::NotFound && forall|x: DeviceId|
                            (#[trigger] old(self).tree.spec_get(x)) matches Some(n)
                                ==> n.desc.name@ != name@,
                        _ => false,
                    }
                },
                Request::GetLogicDesc { badge, name } => {
                    &&& *final(self) == *old(self)
                    &&& match out.0 {
                        Reply::LogicDesc { id, ldesc } => crate::logic::find_named(
                            old(self).logic.devices@,
                            name@,
                        ) matches Some(e) && id == e.id && crate::logic::ldesc_matches(
                            ldesc,
                            e.desc,
                        ),
                        Reply::Failure { err } => err == Error::NotFound
                            && crate::logic::find_named(old(self).logic.devices@, name@) is None,
                        _ => false,
                    }
                },
                Request::Hook { badge, target, has_endpoint } => hook_post(
                    *old(self),
                    *final(self),
                    target,
                    has_endpoint,
                    out.0,
                    out.1@,
                ),
                Request::Unhook { .. } => {
                    &&& (out.0 matches Reply::Failure { err } && err == Error::NotImplemented)
                    &&& *final(self) == *old(self)
                    &&& out.1@.len() == 0
                },
                Request::Unknown { .. } => {
                    &&& (out.0 matches Reply::Failure { err } && err == Error::InvalidMethod)
                    &&& *final(self) == *old(self)
                    &&& out.1@.len() == 0
                },
            },
    {
        match req {
            Request::KernelNotify { badge } => {
                let mut acts: Vec<CapAction> = Vec::new();
                match self.handle_irq(badge) {
                    Some(a) => {
                        acts.push(a);
                        proof {
                            assert(acts@ =~= seq![
                                (CapAction::AckIrq {
                                    slot: old(self).irq_cache.spec_get(badge)->0,
                                }),
                            ]);
                        }
                    },
                    None => {
                        proof {
                            assert(acts@ =~= Seq::<CapAction>::empty());
                        }
                    },
                }
                (Reply::NoReply, acts)
            },
            Request::ScanPlatform { .. } => {
                self.scan_platform();
                (Reply::Done, Vec::new())
            },
            Request::Report { badge, nodes } => self.report(badge, nodes),
            Request::Update { badge, compatible } => self.update(badge, compatible),
            Request::GetMmio { badge, region_index } => self.get_mmio(badge, region_index),
            Request::GetIrq { badge, irq_index } => self.get_irq(badge, irq_index),
            Request::RegisterLogic { badge, desc, has_endpoint } => self.register_logic(
                badge,
                desc,
                has_endpoint,
            ),
            Request::AllocLogic { badge, dev_type, criteria } => self.alloc_logic(
                badge,
                dev_type,
                &criteria,
            ),
            Request::Query { badge: _, query } => self.query(&query),
            Request::GetDesc { badge: _, name } => self.get_desc(&name),
            Request::GetLogicDesc { badge: _, name } => self.get_logic_desc(&name),
            Request::Hook { badge: _, target, has_endpoint } => self.hook(target, has_endpoint),
            Request::Unhook { .. } => (Reply::Failure { err: Error::NotImplemented }, Vec::new()),
            Request::Unknown { .. } => (Reply::Failure { err: Error::InvalidMethod }, Vec::new()),
        }
    }
}

} // verus!
