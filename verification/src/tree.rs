//! The arena-backed tree of physical device nodes, keyed by generational
//! handles.
//!
//! Handles stay stable across mutations; a dangling handle is detected by a
//! generation mismatch. The tree is add-only: slots are never freed, so all
//! generations stay at zero, but every lookup still validates the generation
//! to keep the handle contract stable.

use vstd::prelude::*;
use vstd::pervasive::VecAdditionalExecFns;

use crate::device::{desc_matches, DeviceDesc, DeviceDescNode, DeviceId, DeviceNode, DeviceState};
use crate::errors::Error;

verus! {

/// A freshly inserted node: no children, no logic devices, state `Ready`.
pub open spec fn fresh_node(
    n: DeviceNode,
    id: DeviceId,
    parent: Option<DeviceId>,
    desc: DeviceDesc,
) -> bool {
    &&& n.id == id
    &&& n.parent == parent
    &&& n.children@.len() == 0
    &&& n.desc == desc
    &&& n.state == DeviceState::Ready
    &&& n.logical_devices@.len() == 0
}

/// Two nodes agree on everything but their `children` list.
pub open spec fn same_except_children(a: DeviceNode, b: DeviceNode) -> bool {
    &&& a.id == b.id
    &&& a.parent == b.parent
    &&& a.desc == b.desc
    &&& a.state == b.state
    &&& a.logical_devices == b.logical_devices
}

#[derive(Debug)]
pub struct DeviceTree {
    pub nodes: Vec<Option<DeviceNode>>,
    pub generations: Vec<u32>,
    pub free_head: Option<u32>,
    pub root: Option<DeviceId>,
}

impl DeviceTree {
    /// The slot array: one entry per allocated index.
    pub open spec fn slots(self) -> Seq<Option<DeviceNode>> {
        self.nodes@
    }

    /// The per-slot generation counters.
    pub open spec fn gens(self) -> Seq<u32> {
        self.generations@
    }

    pub open spec fn spec_free_head(self) -> Option<u32> {
        self.free_head
    }

    /// The node a handle resolves to: its slot must be live and the
    /// generations must agree.
    pub open spec fn spec_get(self, id: DeviceId) -> Option<DeviceNode> {
        if id.index < self.slots().len() && self.slots()[id.index as int] is Some
            && self.slots()[id.index as int]->0.id.generation == id.generation {
            Some(self.slots()[id.index as int]->0)
        } else {
            None
        }
    }

    /// The handle resolves to a node.
    pub open spec fn live(self, id: DeviceId) -> bool {
        self.spec_get(id) is Some
    }

    /// Well-formedness of one slot: a stored node knows its own index and
    /// generation, is linked into its parent's `children` list, and all its
    /// children point back at it.
    pub open spec fn slot_ok(self, i: int) -> bool {
        self.slots()[i] matches Some(n) ==> {
            &&& n.id.index == i
            &&& n.id.generation == self.gens()[i]
            &&& match n.parent {
                Some(p) => self.live(p) && self.spec_get(p)->0.children@.contains(n.id),
                None => true,
            }
            &&& n.children@.no_duplicates()
            &&& forall|k: int| 0 <= k < n.children@.len() ==> {
                &&& self.live(#[trigger] n.children@[k])
                &&& self.spec_get(n.children@[k])->0.parent == Some(n.id)
            }
        }
    }

    /// The tree invariant. Beyond per-slot consistency: the generation array
    /// matches the slot array, the root handle (once set) resolves, a
    /// non-empty tree has a root, and the free list head (if any) names an
    /// empty slot.
    pub open spec fn wf(self) -> bool {
        &&& self.slots().len() == self.gens().len()
        &&& self.slots().len() <= u32::MAX as nat
        &&& forall|i: int| 0 <= i < self.slots().len() ==> self.slot_ok(i)
        &&& match self.root {
            Some(r) => self.live(r),
            None => true,
        }
        &&& self.slots().len() > 0 ==> self.root is Some
        &&& match self.spec_free_head() {
            Some(h) => h < self.slots().len() && self.slots()[h as int] is None,
            None => true,
        }
    }

    /// All nodes of `pre` survive into `post` with the same identity,
    /// descriptor, state and logic devices; their children lists may only
    /// have grown at the end.
    pub open spec fn extends(post: DeviceTree, pre: DeviceTree) -> bool {
        forall|id: DeviceId| pre.spec_get(id) is Some ==> {
            &&& #[trigger] post.spec_get(id) is Some
            &&& same_except_children(post.spec_get(id)->0, pre.spec_get(id)->0)
            &&& pre.spec_get(id)->0.children@.is_prefix_of(post.spec_get(id)->0.children@)
        }
    }

    pub fn new() -> (t: DeviceTree)
        ensures
            t.wf(),
            t.slots().len() == 0,
            t.root is None,
    {
        DeviceTree { nodes: Vec::new(), generations: Vec::new(), free_head: None, root: None }
    }

    pub fn get_node(&self, id: DeviceId) -> (r: Option<&DeviceNode>)
        ensures
            match r {
                Some(n) => self.spec_get(id) == Some(*n),
                None => self.spec_get(id) is None,
            },
    {
        if (id.index as usize) < self.nodes.len() {
            match &self.nodes[id.index as usize] {
                Some(n) => {
                    if n.id.generation == id.generation {
                        Some(n)
                    } else {
                        None
                    }
                },
                None => None,
            }
        } else {
            None
        }
    }

    pub fn contains(&self, id: DeviceId) -> (r: bool)
        ensures
            r == self.live(id),
    {
        self.get_node(id).is_some()
    }

    /// Inserts a new node under `parent_id` (or as a root when `None`),
    /// allocating a slot from the free list or by appending. Fails with
    /// `InvalidArgs` exactly when `parent_id` is a dangling handle.
    pub fn insert(&mut self, parent_id: Option<DeviceId>, desc: DeviceDesc) -> (r: Result<
        DeviceId,
        Error,
    >)
        requires
            old(self).wf(),
            old(self).slots().len() < u32::MAX as nat,
        ensures
            final(self).wf(),
            match r {
                Ok(id) => {
                    &&& (parent_id matches Some(p) ==> old(self).live(p))
                    &&& !old(self).live(id)
                    &&& final(self).spec_get(id) matches Some(n) && fresh_node(n, id, parent_id, desc)
                    &&& (match parent_id {
                        Some(p) => final(self).spec_get(p)->0.children@ == old(self).spec_get(
                            p,
                        )->0.children@.push(id),
                        None => true,
                    })
                    &&& forall|x: DeviceId|
                        x.index != id.index && (parent_id matches Some(p) ==> x.index != p.index)
                            ==> #[trigger] final(self).spec_get(x) == old(self).spec_get(x)
                    &&& DeviceTree::extends(*final(self), *old(self))
                    &&& final(self).root == (if parent_id is None && old(self).root is None {
                        Some(id)
                    } else {
                        old(self).root
                    })
                    &&& old(self).slots().len() <= final(self).slots().len() <= old(self).slots().len()
                        + 1
                },
                Err(e) => {
                    &&& e == Error::InvalidArgs
                    &&& parent_id matches Some(p) && !old(self).live(p)
                    &&& *final(self) == *old(self)
                },
            },
    {
        if let Some(pid) = parent_id {
            if !self.contains(pid) {
                return Err(Error::InvalidArgs);
            }
        }

        let idx: u32 = match self.free_head {
            Some(head) => {
                self.free_head = None;
                head
            },
            None => {
                let i = self.nodes.len() as u32;
                self.nodes.push(None);
                self.generations.push(0);
                i
            },
        };

        let generation = self.generations[idx as usize];
        let id = DeviceId { index: idx, generation };

        let node = DeviceNode {
            id,
            parent: parent_id,
            children: Vec::new(),
            desc,
            state: DeviceState::Ready,
            logical_devices: Vec::new(),
        };
        self.nodes.set(idx as usize, Some(node));

        let ghost mid = *self;

        match parent_id {
            Some(pid) => {
                let mut taken: Option<DeviceNode> = None;
                self.nodes.set_and_swap(pid.index as usize, &mut taken);
                match taken {
                    Some(mut pn) => {
                        pn.children.push(id);
                        self.nodes.set(pid.index as usize, Some(pn));
                    },
                    None => {
                        // Unreachable: the parent slot was checked live and
                        // differs from the fresh slot.
                        proof {
                            assert(old(self).slots()[pid.index as int] is Some);
                            assert(pid.index != idx);
                        }
                        return Err(Error::InvalidArgs);
                    },
                }
            },
            None => {
                if self.root.is_none() {
                    self.root = Some(id);
                }
            },
        }

        proof {
            lemma_insert_wf(*old(self), *self, id, parent_id, desc);
        }
        Ok(id)
    }
}

/// The slot picked by `insert` is empty in the old tree, so the fresh handle
/// cannot be live there, nor appear in any old `children` list.
proof fn lemma_fresh_not_child(pre: DeviceTree, id: DeviceId)
    requires
        pre.wf(),
        !pre.live(id),
    ensures
        forall|i: int|
            0 <= i < pre.slots().len() && pre.slots()[i] is Some
                ==> !pre.slots()[i]->0.children@.contains(id),
{
    assert forall|i: int|
        0 <= i < pre.slots().len() && pre.slots()[i] is Some implies !(pre.slots()[i]->0.children@.contains(id)) by {
        assert(pre.slot_ok(i));
        let n = pre.slots()[i]->0;
        if n.children@.contains(id) {
            let k = choose|k: int| 0 <= k < n.children@.len() && n.children@[k] == id;
            assert(pre.live(n.children@[k]));
        }
    }
}

/// Re-establishes the tree invariant after `insert` wrote the fresh node and
/// linked it to its parent.
proof fn lemma_insert_wf(
    pre: DeviceTree,
    post: DeviceTree,
    id: DeviceId,
    parent_id: Option<DeviceId>,
    desc: DeviceDesc,
)
    requires
        pre.wf(),
        pre.slots().len() < u32::MAX as nat,
        !pre.live(id),
        id.index < post.slots().len(),
        pre.slots().len() <= post.slots().len() <= pre.slots().len() + 1,
        post.gens().len() == post.slots().len(),
        // old slots other than the fresh one and the parent are unchanged;
        // gens extended from pre
        forall|i: int|
            0 <= i < pre.slots().len() && i != id.index && (parent_id matches Some(p) ==> i
                != p.index) ==> post.slots()[i] == pre.slots()[i],
        forall|i: int| 0 <= i < pre.gens().len() ==> post.gens()[i] == pre.gens()[i],
        post.slots().len() > pre.slots().len() ==> id.index == pre.slots().len(),
        id.generation == post.gens()[id.index as int],
        post.slots()[id.index as int] matches Some(n) && fresh_node(n, id, parent_id, desc),
        match parent_id {
            Some(p) => {
                &&& pre.live(p)
                &&& p.index != id.index
                &&& post.slots()[p.index as int] matches Some(pn) && same_except_children(
                    pn,
                    pre.spec_get(p)->0,
                ) && pn.children@ == pre.spec_get(p)->0.children@.push(id)
                &&& post.root == pre.root
            },
            None => post.root == (if pre.root is None {
                Some(id)
            } else {
                pre.root
            }),
        },
        post.spec_free_head() is None,
    ensures
        post.wf(),
        DeviceTree::extends(post, pre),
        forall|x: DeviceId|
            x.index != id.index && (parent_id matches Some(p) ==> x.index != p.index)
                ==> #[trigger] post.spec_get(x) == pre.spec_get(x),
{
    lemma_fresh_not_child(pre, id);

    // Frame: handles away from the touched slots resolve as before.
    assert forall|x: DeviceId|
        x.index != id.index && (parent_id matches Some(p) ==> x.index != p.index) implies #[trigger] post.spec_get(
        x,
    ) == pre.spec_get(x) by {
        if x.index < pre.slots().len() {
            assert(post.slots()[x.index as int] == pre.slots()[x.index as int]);
        } else if x.index < post.slots().len() {
            assert(x.index == id.index);
        }
    }

    // The fresh handle and (when present) the parent handle resolve as set up.
    assert(post.spec_get(id) == Some(post.slots()[id.index as int]->0));
    if parent_id is Some {
        let p = parent_id->0;
        assert(pre.spec_get(p) == Some(pre.slots()[p.index as int]->0));
        assert(post.spec_get(p) == Some(post.slots()[p.index as int]->0));
    }

    assert(DeviceTree::extends(post, pre)) by {
        assert forall|x: DeviceId| pre.spec_get(x) is Some implies {
            &&& #[trigger] post.spec_get(x) is Some
            &&& same_except_children(post.spec_get(x)->0, pre.spec_get(x)->0)
            &&& pre.spec_get(x)->0.children@.is_prefix_of(post.spec_get(x)->0.children@)
        } by {
            if parent_id is Some && x.index == parent_id->0.index {
                let p = parent_id->0;
                assert(pre.slot_ok(p.index as int));
                assert(pre.spec_get(x) is Some ==> x == pre.slots()[p.index as int]->0.id);
            } else {
                assert(x.index != id.index) by {
                    if x.index == id.index && id.index < pre.slots().len() {
                        assert(pre.slot_ok(id.index as int));
                        assert(pre.slots()[id.index as int]->0.id.generation == pre.gens()[id.index as int]);
                    }
                }
            }
        }
    }

    assert forall|i: int| 0 <= i < post.slots().len() implies post.slot_ok(i) by {
        if post.slots()[i] is Some {
            let n = post.slots()[i]->0;
            if i == id.index {
                // The fresh node: empty children; its parent got it appended.
                if parent_id is Some {
                    let p = parent_id->0;
                    assert(post.spec_get(p)->0.children@.contains(n.id)) by {
                        let c = post.spec_get(p)->0.children@;
                        assert(c[c.len() - 1] == id);
                    }
                }
            } else if parent_id is Some && i == parent_id->0.index {
                let p = parent_id->0;
                // The parent node: children extended with a fresh handle.
                assert(pre.slot_ok(i));
                let oldn = pre.slots()[i]->0;
                assert(same_except_children(n, oldn));
                assert(n.children@ == oldn.children@.push(id));
                assert(n.children@.no_duplicates()) by {
                    assert(!oldn.children@.contains(id));
                    assert(forall|k: int|
                        0 <= k < oldn.children@.len() ==> n.children@[k] == oldn.children@[k]);
                }
                assert forall|k: int| 0 <= k < n.children@.len() implies {
                    &&& post.live(#[trigger] n.children@[k])
                    &&& post.spec_get(n.children@[k])->0.parent == Some(n.id)
                } by {
                    if k < oldn.children@.len() {
                        let c = oldn.children@[k];
                        assert(pre.live(c));
                        assert(c.index != id.index);
                        if c.index == p.index {
                            assert(pre.spec_get(c)->0.parent == Some(oldn.id));
                            assert(pre.spec_get(c) == Some(oldn));
                        }
                        assert(post.spec_get(c) is Some);
                    } else {
                        assert(n.children@[k] == id);
                    }
                }
                match n.parent {
                    Some(gp) => {
                        assert(pre.live(gp));
                        assert(pre.spec_get(gp)->0.children@.contains(oldn.id));
                        if gp.index == p.index {
                            assert(pre.spec_get(gp) == Some(oldn));
                            assert(post.spec_get(gp) == Some(n));
                            assert(n.children@.contains(oldn.id)) by {
                                let c = choose|k: int|
                                    0 <= k < oldn.children@.len() && oldn.children@[k] == oldn.id;
                                assert(n.children@[c] == oldn.id);
                            }
                        } else {
                            assert(post.spec_get(gp) == pre.spec_get(gp));
                            assert(post.spec_get(gp)->0.children@.contains(n.id));
                        }
                    },
                    None => {},
                }
            } else {
                // Untouched nodes: their neighbours changed at most by an
                // appended child.
                assert(pre.slot_ok(i));
                assert(post.slots()[i] == pre.slots()[i]);
                match n.parent {
                    Some(p2) => {
                        assert(pre.live(p2));
                        assert(post.spec_get(p2) is Some);
                        assert(pre.spec_get(p2)->0.children@.contains(n.id));
                        if parent_id is Some && p2.index == parent_id->0.index {
                            let oldpn = pre.spec_get(p2)->0;
                            let newpn = post.spec_get(p2)->0;
                            assert(newpn.children@ == oldpn.children@.push(id));
                            let c = choose|k: int|
                                0 <= k < oldpn.children@.len() && oldpn.children@[k] == n.id;
                            assert(newpn.children@[c] == n.id);
                        }
                    },
                    None => {},
                }
                assert forall|k: int| 0 <= k < n.children@.len() implies {
                    &&& post.live(#[trigger] n.children@[k])
                    &&& post.spec_get(n.children@[k])->0.parent == Some(n.id)
                } by {
                    let c = n.children@[k];
                    assert(pre.live(c));
                    assert(pre.spec_get(c)->0.parent == Some(n.id));
                    assert(c.index != id.index);
                    if parent_id is Some && c.index == parent_id->0.index {
                        assert(same_except_children(post.spec_get(c)->0, pre.spec_get(c)->0));
                    } else {
                        assert(post.spec_get(c) == pre.spec_get(c));
                    }
                }
            }
        }
    }

    if post.slots().len() > 0 {
        assert(post.root is Some) by {
            if pre.slots().len() == 0 {
                assert(post.slots().len() == 1);
                assert(parent_id matches Some(p) ==> pre.live(p) && p.index
                    < pre.slots().len());
                assert(parent_id is None);
            }
        }
    }
    match post.root {
        Some(r) => {
            assert(post.live(r)) by {
                if r == id {
                } else if pre.root == Some(r) {
                    assert(pre.live(r));
                    assert(post.spec_get(r) is Some);
                }
            }
        },
        None => {},
    }
}

/// Every parent reference in a flattened report is either the attach-to-mount
/// marker (`usize::MAX`) or points at an earlier element of the same report.
pub open spec fn report_refs_ok(nodes: Seq<DeviceDescNode>) -> bool {
    forall|k: int|
        0 <= k < nodes.len() ==> ((#[trigger] nodes[k].parent) == usize::MAX || nodes[k].parent
            < k)
}

/// After a successful mount, `ids` names the freshly inserted nodes, in
/// report order: each carries the reported descriptor, starts `Ready`, and
/// hangs off the mount point or the mapped earlier element.
pub open spec fn mounted(
    post: DeviceTree,
    pre: DeviceTree,
    mount_point: DeviceId,
    nodes: Seq<DeviceDescNode>,
    ids: Seq<DeviceId>,
) -> bool {
    &&& ids.len() == nodes.len()
    &&& ids.no_duplicates()
    &&& forall|k: int| 0 <= k < nodes.len() ==> !pre.live(#[trigger] ids[k])
    &&& forall|k: int|
        0 <= k < nodes.len() ==> ((#[trigger] post.spec_get(ids[k])) matches Some(n) && {
            &&& desc_matches(n.desc, nodes[k].desc)
            &&& n.state == DeviceState::Ready
            &&& n.parent == Some(
                if nodes[k].parent == usize::MAX {
                    mount_point
                } else {
                    ids[nodes[k].parent as int]
                },
            )
        })
}

/// `extends` composes.
pub proof fn lemma_extends_trans(a: DeviceTree, b: DeviceTree, c: DeviceTree)
    requires
        DeviceTree::extends(c, b),
        DeviceTree::extends(b, a),
    ensures
        DeviceTree::extends(c, a),
{
    assert forall|id: DeviceId| a.spec_get(id) is Some implies {
        &&& #[trigger] c.spec_get(id) is Some
        &&& same_except_children(c.spec_get(id)->0, a.spec_get(id)->0)
        &&& a.spec_get(id)->0.children@.is_prefix_of(c.spec_get(id)->0.children@)
    } by {
        assert(b.spec_get(id) is Some);
        let sa = a.spec_get(id)->0.children@;
        let sb = b.spec_get(id)->0.children@;
        let sc = c.spec_get(id)->0.children@;
        assert(sa.is_prefix_of(sb));
        assert(sb.is_prefix_of(sc));
        assert(sa =~= sc.subrange(0, sa.len() as int)) by {
            assert(forall|j: int| 0 <= j < sa.len() ==> sa[j] == sb[j] && sb[j] == sc[j]);
        }
    }
}

impl DeviceTree {
    /// Mounts a subtree reported by a driver under `mount_point`. `nodes` is
    /// a flattened list whose `parent` fields index earlier elements of the
    /// list, or carry `usize::MAX` to attach to the mount point. Fails with
    /// `InvalidArgs` exactly when the mount point dangles or some parent
    /// reference points forward; elements before the offending one stay
    /// inserted.
    pub fn mount_subtree(&mut self, mount_point: DeviceId, nodes: Vec<DeviceDescNode>) -> (r:
        Result<(), Error>)
        requires
            old(self).wf(),
            old(self).slots().len() + nodes@.len() <= u32::MAX as nat,
        ensures
            final(self).wf(),
            DeviceTree::extends(*final(self), *old(self)),
            final(self).root == old(self).root,
            match r {
                Ok(_) => {
                    &&& old(self).live(mount_point)
                    &&& report_refs_ok(nodes@)
                    &&& exists|ids: Seq<DeviceId>|
                        mounted(*final(self), *old(self), mount_point, nodes@, ids)
                },
                Err(e) => {
                    &&& e == Error::InvalidArgs
                    &&& !(old(self).live(mount_point) && report_refs_ok(nodes@))
                },
            },
    {
        if !self.contains(mount_point) {
            return Err(Error::InvalidArgs);
        }

        let mut index_map: Vec<DeviceId> = Vec::new();
        let mut i: usize = 0;
        while i < nodes.len()
            invariant
                self.wf(),
                i <= nodes@.len(),
                old(self).wf(),
                old(self).live(mount_point),
                old(self).slots().len() + nodes@.len() <= u32::MAX as nat,
                self.slots().len() <= old(self).slots().len() + i,
                DeviceTree::extends(*self, *old(self)),
                self.root == old(self).root,
                index_map@.len() == i,
                index_map@.no_duplicates(),
                forall|k: int| 0 <= k < i ==> !old(self).live(#[trigger] index_map@[k]),
                forall|k: int|
                    0 <= k < i ==> ((#[trigger] nodes@[k].parent) == usize::MAX || nodes@[k].parent
                        < k),
                forall|k: int|
                    0 <= k < i ==> ((#[trigger] self.spec_get(index_map@[k])) matches Some(n) && {
                        &&& desc_matches(n.desc, nodes@[k].desc)
                        &&& n.state == DeviceState::Ready
                        &&& n.parent == Some(
                            if nodes@[k].parent == usize::MAX {
                                mount_point
                            } else {
                                index_map@[nodes@[k].parent as int]
                            },
                        )
                    }),
            decreases nodes@.len() - i,
        {
            let parent_ref = nodes[i].parent;
            let pid = if parent_ref == usize::MAX {
                mount_point
            } else {
                if parent_ref >= i {
                    return Err(Error::InvalidArgs);
                }
                index_map[parent_ref]
            };
            proof {
                assert(self.live(pid)) by {
                    if parent_ref == usize::MAX {
                        assert(old(self).spec_get(mount_point) is Some);
                    }
                }
            }
            let ghost before = *self;
            let desc = nodes[i].desc.duplicate();
            match self.insert(Some(pid), desc) {
                Ok(new_id) => {
                    proof {
                        assert(!old(self).live(new_id)) by {
                            if old(self).spec_get(new_id) is Some {
                                assert(before.spec_get(new_id) is Some);
                            }
                        }
                        assert(!index_map@.contains(new_id)) by {
                            if index_map@.contains(new_id) {
                                let k = choose|k: int|
                                    0 <= k < index_map@.len() && index_map@[k] == new_id;
                                assert(before.spec_get(index_map@[k]) is Some);
                            }
                        }
                        lemma_extends_trans(*old(self), before, *self);
                        assert(index_map@.push(new_id).no_duplicates());
                    }
                    index_map.push(new_id);
                },
                Err(_) => {
                    // Unreachable: `pid` was shown live just above.
                    proof {
                        assert(false);
                    }
                    return Err(Error::InvalidArgs);
                },
            }
            proof {
                assert forall|k: int| 0 <= k < i + 1 implies ((#[trigger] self.spec_get(
                    index_map@[k],
                )) matches Some(n) && {
                    &&& desc_matches(n.desc, nodes@[k].desc)
                    &&& n.state == DeviceState::Ready
                    &&& n.parent == Some(
                        if nodes@[k].parent == usize::MAX {
                            mount_point
                        } else {
                            index_map@[nodes@[k].parent as int]
                        },
                    )
                }) by {
                    if k < i {
                        assert(before.spec_get(index_map@[k]) is Some);
                        assert(self.spec_get(index_map@[k]) is Some);
                        assert(same_except_children(
                            self.spec_get(index_map@[k])->0,
                            before.spec_get(index_map@[k])->0,
                        ));
                    }
                }
            }
            i = i + 1;
        }

        proof {
            assert(mounted(*self, *old(self), mount_point, nodes@, index_map@));
        }
        Ok(())
    }
}

/// A handle set closed under `Ready` children: every `Ready` child of a
/// member is a member.
pub open spec fn closed_under_ready_children(t: DeviceTree, s: Seq<DeviceId>) -> bool {
    forall|x: DeviceId, k: int|
        #![trigger s.contains(x), t.spec_get(x)->0.children@[k]]
        s.contains(x) && t.spec_get(x) is Some && 0 <= k < t.spec_get(x)->0.children@.len()
            && t.spec_ready(t.spec_get(x)->0.children@[k]) ==> s.contains(
            t.spec_get(x)->0.children@[k],
        )
}

/// A scan of the subtree under `start` is covered by a set of live,
/// traversed handles: it holds the start (when live), follows every child
/// edge, and the scan result is exactly its `Ready` members. Any set with
/// these properties contains every node reachable from the start, so the
/// result misses no reachable `Ready` node.
pub open spec fn scan_cover(t: DeviceTree, start: DeviceId, vis: Set<DeviceId>, r: Seq<DeviceId>) -> bool {
    &&& t.live(start) ==> vis.contains(start)
    &&& forall|x: DeviceId| #[trigger] vis.contains(x) ==> t.live(x)
    &&& forall|x: DeviceId, k: int|
        #![trigger vis.contains(x), t.spec_get(x)->0.children@[k]]
        vis.contains(x) && 0 <= k < t.spec_get(x)->0.children@.len() ==> vis.contains(
            t.spec_get(x)->0.children@[k],
        )
    &&& forall|x: DeviceId| #[trigger] r.contains(x) <==> vis.contains(x) && t.spec_ready(x)
}

/// One turn of the breadth-first scan preserves its bookkeeping: visited
/// `Ready` nodes were collected, the start stays pending until visited, and
/// children of visited nodes are pending or visited.
proof fn lemma_scan_step(
    t: DeviceTree,
    pre_queue: Seq<DeviceId>,
    pre_visited: Seq<bool>,
    pre_out: Seq<DeviceId>,
    queue: Seq<DeviceId>,
    visited: Seq<bool>,
    out: Seq<DeviceId>,
    id: DeviceId,
    start: DeviceId,
    processed: Option<DeviceNode>,
)
    requires
        t.wf(),
        pre_visited.len() == t.slots().len(),
        visited.len() == pre_visited.len(),
        pre_queue.len() > 0 && pre_queue[0] == id,
        forall|x: DeviceId| pre_queue.contains(x) && x != id ==> queue.contains(x),
        forall|x: DeviceId|
            (#[trigger] t.spec_get(x)) is Some && pre_visited[x.index as int] && t.spec_get(
                x,
            )->0.state == DeviceState::Ready ==> pre_out.contains(x),
        t.live(start) ==> pre_queue.contains(start) || pre_visited[start.index as int],
        forall|x: DeviceId, k: int|
            #![trigger pre_visited[x.index as int], t.spec_get(x)->0.children@[k]]
            t.spec_get(x) is Some && pre_visited[x.index as int] && 0 <= k < t.spec_get(
                x,
            )->0.children@.len() ==> {
                let c = t.spec_get(x)->0.children@[k];
                pre_visited[c.index as int] || pre_queue.contains(c)
            },
        forall|x: DeviceId| pre_out.contains(x) ==> out.contains(x),
        match processed {
            Some(node) => {
                &&& t.spec_get(id) == Some(node)
                &&& !pre_visited[id.index as int]
                &&& visited == pre_visited.update(id.index as int, true)
                &&& forall|k: int|
                    0 <= k < node.children@.len() ==> queue.contains(
                        #[trigger] node.children@[k],
                    )
                &&& out == (if node.state == DeviceState::Ready {
                    pre_out.push(id)
                } else {
                    pre_out
                })
            },
            None => {
                &&& visited == pre_visited
                &&& out == pre_out
                &&& (t.spec_get(id) is Some ==> pre_visited[id.index as int])
            },
        },
    ensures
        forall|x: DeviceId|
            (#[trigger] t.spec_get(x)) is Some && visited[x.index as int] && t.spec_get(
                x,
            )->0.state == DeviceState::Ready ==> out.contains(x),
        t.live(start) ==> queue.contains(start) || visited[start.index as int],
        forall|x: DeviceId, k: int|
            #![trigger visited[x.index as int], t.spec_get(x)->0.children@[k]]
            t.spec_get(x) is Some && visited[x.index as int] && 0 <= k < t.spec_get(
                x,
            )->0.children@.len() ==> {
                let c = t.spec_get(x)->0.children@[k];
                visited[c.index as int] || queue.contains(c)
            },
{
    // one live handle per slot
    assert forall|x: DeviceId, y: DeviceId|
        (#[trigger] t.spec_get(x)) is Some && (#[trigger] t.spec_get(y)) is Some && x.index
            == y.index implies x == y by {
        assert(t.slot_ok(x.index as int));
        assert(t.slots()[x.index as int] is Some);
    }

    assert forall|x: DeviceId|
        (#[trigger] t.spec_get(x)) is Some && visited[x.index as int] && t.spec_get(x)->0.state
            == DeviceState::Ready implies out.contains(x) by {
        if pre_visited[x.index as int] {
            assert(pre_out.contains(x));
        } else {
            match processed {
                Some(node) => {
                    assert(x.index == id.index);
                    assert(x == id);
                    assert(node.state == DeviceState::Ready);
                    assert(out[out.len() - 1] == id);
                },
                None => {},
            }
        }
    }

    if t.live(start) {
        if pre_visited[start.index as int] {
            assert(visited[start.index as int]);
        } else if pre_queue.contains(start) {
            if start == id {
                match processed {
                    Some(_) => {
                        assert(visited[start.index as int]);
                    },
                    None => {
                        assert(t.spec_get(id) is Some);
                    },
                }
            } else {
                assert(queue.contains(start));
            }
        }
    }

    assert forall|x: DeviceId, k: int|
        t.spec_get(x) is Some && #[trigger] visited[x.index as int] && 0 <= k < (
        #[trigger] t.spec_get(x)->0.children@[k], t.spec_get(x)->0.children@.len()).1 implies {
        let c = t.spec_get(x)->0.children@[k];
        visited[c.index as int] || queue.contains(c)
    } by {
        let c = t.spec_get(x)->0.children@[k];
        assert(t.slot_ok(x.index as int));
        assert(t.spec_get(c) is Some);
        if pre_visited[x.index as int] {
            if pre_visited[c.index as int] {
                assert(visited[c.index as int]);
            } else {
                assert(pre_queue.contains(c));
                if c == id {
                    match processed {
                        Some(_) => {
                            assert(visited[c.index as int]);
                        },
                        None => {},
                    }
                } else {
                    assert(queue.contains(c));
                }
            }
        } else {
            match processed {
                Some(node) => {
                    assert(x.index == id.index);
                    assert(x == id);
                    assert(t.spec_get(x)->0 == node);
                    assert(queue.contains(node.children@[k]));
                },
                None => {},
            }
        }
    }
}

/// Counts the slots of a visited map that are still unvisited.
pub open spec fn unvisited_count(s: Seq<bool>) -> nat
    decreases s.len(),
{
    if s.len() == 0 {
        0
    } else {
        unvisited_count(s.drop_last()) + if s.last() {
            0nat
        } else {
            1nat
        }
    }
}

proof fn lemma_unvisited_count_update(s: Seq<bool>, i: int)
    requires
        0 <= i < s.len(),
        !s[i],
    ensures
        unvisited_count(s.update(i, true)) < unvisited_count(s),
    decreases s.len(),
{
    let t = s.update(i, true);
    if i == s.len() - 1 {
        assert(t.drop_last() =~= s.drop_last());
    } else {
        assert(t.drop_last() =~= s.drop_last().update(i, true));
        lemma_unvisited_count_update(s.drop_last(), i);
    }
}

impl DeviceTree {
    /// Whether `id` resolves to a node in state `Ready`.
    pub open spec fn spec_ready(self, id: DeviceId) -> bool {
        self.spec_get(id) matches Some(n) && n.state == DeviceState::Ready
    }

    /// Replaces the state of the node `id` resolves to. Returns whether the
    /// handle resolved; a dangling handle leaves the tree untouched.
    pub fn set_state(&mut self, id: DeviceId, state: DeviceState) -> (r: bool)
        requires
            old(self).wf(),
        ensures
            final(self).wf(),
            r == old(self).live(id),
            final(self).root == old(self).root,
            final(self).slots().len() == old(self).slots().len(),
            if r {
                &&& (final(self).spec_get(id) matches Some(n) && {
                    let o = old(self).spec_get(id)->0;
                    &&& n == DeviceNode { state, ..o }
                })
                &&& forall|x: DeviceId|
                    x.index != id.index ==> #[trigger] final(self).spec_get(x) == old(
                        self,
                    ).spec_get(x)
            } else {
                *final(self) == *old(self)
            },
    {
        if !self.contains(id) {
            return false;
        }
        let ghost pre = *self;
        let mut taken: Option<DeviceNode> = None;
        self.nodes.set_and_swap(id.index as usize, &mut taken);
        match taken {
            Some(mut n) => {
                n.state = state;
                self.nodes.set(id.index as usize, Some(n));
                proof {
                    lemma_payload_update_wf(pre, *self, id);
                }
                true
            },
            None => {
                proof {
                    assert(false);
                }
                false
            },
        }
    }

    /// Replaces the compatibility strings of the node `id` resolves to.
    pub fn set_compatible(&mut self, id: DeviceId, compatible: Vec<String>) -> (r: bool)
        requires
            old(self).wf(),
        ensures
            final(self).wf(),
            r == old(self).live(id),
            final(self).root == old(self).root,
            final(self).slots().len() == old(self).slots().len(),
            if r {
                &&& (final(self).spec_get(id) matches Some(n) && {
                    let o = old(self).spec_get(id)->0;
                    &&& n == DeviceNode { desc: DeviceDesc { compatible, ..o.desc }, ..o }
                })
                &&& forall|x: DeviceId|
                    x.index != id.index ==> #[trigger] final(self).spec_get(x) == old(
                        self,
                    ).spec_get(x)
            } else {
                *final(self) == *old(self)
            },
    {
        if !self.contains(id) {
            return false;
        }
        let ghost pre = *self;
        let mut taken: Option<DeviceNode> = None;
        self.nodes.set_and_swap(id.index as usize, &mut taken);
        match taken {
            Some(mut n) => {
                n.desc.compatible = compatible;
                self.nodes.set(id.index as usize, Some(n));
                proof {
                    lemma_payload_update_wf(pre, *self, id);
                }
                true
            },
            None => {
                proof {
                    assert(false);
                }
                false
            },
        }
    }

    /// Appends a logic-device identifier to the node `id` resolves to.
    pub fn push_logical(&mut self, id: DeviceId, logic_id: u64) -> (r: bool)
        requires
            old(self).wf(),
        ensures
            final(self).wf(),
            r == old(self).live(id),
            final(self).root == old(self).root,
            final(self).slots().len() == old(self).slots().len(),
            if r {
                &&& (final(self).spec_get(id) matches Some(n) && {
                    let o = old(self).spec_get(id)->0;
                    &&& same_except_children(n, DeviceNode {
                        logical_devices: n.logical_devices,
                        ..o
                    })
                    &&& n.children == o.children
                    &&& n.logical_devices@ == o.logical_devices@.push(logic_id)
                })
                &&& forall|x: DeviceId|
                    x.index != id.index ==> #[trigger] final(self).spec_get(x) == old(
                        self,
                    ).spec_get(x)
            } else {
                *final(self) == *old(self)
            },
    {
        if !self.contains(id) {
            return false;
        }
        let ghost pre = *self;
        let mut taken: Option<DeviceNode> = None;
        self.nodes.set_and_swap(id.index as usize, &mut taken);
        match taken {
            Some(mut n) => {
                n.logical_devices.push(logic_id);
                self.nodes.set(id.index as usize, Some(n));
                proof {
                    lemma_payload_update_wf(pre, *self, id);
                }
                true
            },
            None => {
                proof {
                    assert(false);
                }
                false
            },
        }
    }

    /// Looks a physical device descriptor up by name over all live nodes.
    /// Returns `None` exactly when no live node carries the name.
    pub fn find_desc(&self, name: &String) -> (r: Option<DeviceDesc>)
        requires
            self.wf(),
        ensures
            match r {
                Some(d) => exists|x: DeviceId|
                    (#[trigger] self.spec_get(x)) matches Some(n) && n.desc.name@ == name@
                        && desc_matches(d, n.desc),
                None => forall|x: DeviceId|
                    (#[trigger] self.spec_get(x)) matches Some(n) ==> n.desc.name@ != name@,
            },
    {
        let mut i: usize = 0;
        while i < self.nodes.len()
            invariant
                self.wf(),
                i <= self.slots().len(),
                forall|j: int|
                    0 <= j < i ==> ((#[trigger] self.slots()[j]) matches Some(n) ==> n.desc.name@
                        != name@),
            decreases self.slots().len() - i,
        {
            match &self.nodes[i] {
                Some(n) => {
                    if n.desc.name == *name {
                        proof {
                            assert(self.slot_ok(i as int));
                            assert(self.spec_get(n.id) == Some(*n));
                        }
                        return Some(n.desc.duplicate());
                    }
                },
                None => {},
            }
            i = i + 1;
        }
        proof {
            assert forall|x: DeviceId| #[trigger] self.spec_get(x) is Some implies self.spec_get(
                x,
            )->0.desc.name@ != name@ by {
                if self.spec_get(x) is Some {
                    assert(self.slots()[x.index as int] is Some);
                }
            }
        }
        None
    }

    /// Looks up the handle of a live node by name (lowest slot first).
    /// Returns `None` exactly when no live node carries the name.
    pub fn find_id_by_name(&self, name: &String) -> (r: Option<DeviceId>)
        requires
            self.wf(),
        ensures
            match r {
                Some(id) => self.spec_get(id) matches Some(n) && n.desc.name@ == name@,
                None => forall|x: DeviceId|
                    #[trigger] self.spec_get(x) is Some ==> self.spec_get(x)->0.desc.name@
                        != name@,
            },
    {
        let mut i: usize = 0;
        while i < self.nodes.len()
            invariant
                self.wf(),
                i <= self.slots().len(),
                forall|j: int|
                    0 <= j < i ==> ((#[trigger] self.slots()[j]) matches Some(n) ==> n.desc.name@
                        != name@),
            decreases self.slots().len() - i,
        {
            match &self.nodes[i] {
                Some(n) => {
                    if n.desc.name == *name {
                        proof {
                            assert(self.slot_ok(i as int));
                            assert(self.spec_get(n.id) == Some(*n));
                        }
                        return Some(n.id);
                    }
                },
                None => {},
            }
            i = i + 1;
        }
        proof {
            assert forall|x: DeviceId| #[trigger] self.spec_get(x) is Some implies self.spec_get(
                x,
            )->0.desc.name@ != name@ by {
                if self.spec_get(x) is Some {
                    assert(self.slots()[x.index as int] is Some);
                }
            }
        }
        None
    }

    /// Collects, breadth first from `start`, the handles of nodes in state
    /// `Ready`. Children are followed regardless of their own state. Every
    /// returned handle resolved to a `Ready` node, once each; `start`
    /// itself is returned when `Ready`, and the result is closed under
    /// `Ready` children.
    pub fn ready_descendants(&self, start: DeviceId) -> (r: Vec<DeviceId>)
        requires
            self.wf(),
        ensures
            r@.no_duplicates(),
            forall|k: int| 0 <= k < r@.len() ==> self.spec_ready(#[trigger] r@[k]),
            self.spec_ready(start) ==> r@.contains(start),
            closed_under_ready_children(*self, r@),
            exists|vis: Set<DeviceId>| scan_cover(*self, start, vis, r@),
    {
        let mut visited: Vec<bool> = Vec::new();
        let n = self.nodes.len();
        let mut j: usize = 0;
        while j < n
            invariant
                visited@.len() == j,
                j <= n,
                forall|k: int| 0 <= k < j ==> !(#[trigger] visited@[k]),
            decreases n - j,
        {
            visited.push(false);
            j = j + 1;
        }

        let mut queue: Vec<DeviceId> = Vec::new();
        let mut out: Vec<DeviceId> = Vec::new();
        queue.push(start);
        proof {
            assert(queue@[0] == start);
        }

        loop
            invariant
                self.wf(),
                visited@.len() == self.slots().len(),
                out@.no_duplicates(),
                forall|k: int| 0 <= k < out@.len() ==> self.spec_ready(#[trigger] out@[k]),
                forall|k: int|
                    0 <= k < out@.len() ==> (#[trigger] out@[k]).index < visited@.len()
                        && visited@[out@[k].index as int],
                // a visited live Ready node was collected
                forall|x: DeviceId|
                    (#[trigger] self.spec_get(x)) is Some && visited@[x.index as int]
                        && self.spec_get(x)->0.state == DeviceState::Ready ==> out@.contains(x),
                // the start stays pending until visited
                self.live(start) ==> queue@.contains(start) || visited@[start.index as int],
                // children of visited nodes are pending or visited
                forall|x: DeviceId, k: int|
                    #![trigger visited@[x.index as int], self.spec_get(x)->0.children@[k]]
                    self.spec_get(x) is Some && visited@[x.index as int] && 0 <= k
                        < self.spec_get(x)->0.children@.len() ==> {
                        let c = self.spec_get(x)->0.children@[k];
                        visited@[c.index as int] || queue@.contains(c)
                    },
            ensures
                queue@.len() == 0,
            decreases unvisited_count(visited@), queue@.len(),
        {
            if queue.len() == 0 {
                break;
            }
            let ghost pre_queue = queue@;
            let ghost pre_visited = visited@;
            let ghost pre_out = out@;
            let id = queue.remove(0);
            proof {
                assert forall|x: DeviceId|
                    pre_queue.contains(x) && x != id implies queue@.contains(x) by {
                    let w = choose|w: int| 0 <= w < pre_queue.len() && pre_queue[w] == x;
                    assert(w != 0);
                    assert(queue@[w - 1] == x);
                }
            }
            if (id.index as usize) < visited.len() && !visited[id.index as usize] {
                match self.get_node(id) {
                    Some(node) => {
                        proof {
                            assert(self.spec_get(id) == Some(*node));
                            assert(self.slot_ok(id.index as int));
                            // the one live handle at this slot is `id`
                            assert forall|x: DeviceId|
                                (#[trigger] self.spec_get(x)) is Some && x.index
                                    == id.index implies x == id by {
                                assert(self.slots()[x.index as int] is Some);
                            }
                        }
                        visited.set(id.index as usize, true);
                        proof {
                            lemma_unvisited_count_update(pre_visited, id.index as int);
                        }
                        if matches!(node.state, DeviceState::Ready) {
                            out.push(id);
                        }
                        let ghost mid_queue = queue@;
                        let mut c: usize = 0;
                        let clen = node.children.len();
                        while c < clen
                            invariant
                                clen == node.children@.len(),
                                c <= clen,
                                forall|t: int|
                                    0 <= t < c ==> queue@.contains(#[trigger] node.children@[t]),
                                forall|x: DeviceId| mid_queue.contains(x) ==> queue@.contains(x),
                            decreases clen - c,
                        {
                            let ghost q0 = queue@;
                            queue.push(node.children[c]);
                            proof {
                                assert(queue@[queue@.len() - 1] == node.children@[c as int]);
                                assert forall|x: DeviceId| q0.contains(x) implies queue@.contains(
                                    x,
                                ) by {
                                    let w = choose|w: int| 0 <= w < q0.len() && q0[w] == x;
                                    assert(queue@[w] == x);
                                }
                                assert forall|t: int| 0 <= t < c + 1 implies queue@.contains(
                                    #[trigger] node.children@[t],
                                ) by {
                                    if t < c {
                                        assert(q0.contains(node.children@[t]));
                                    }
                                }
                            }
                            c = c + 1;
                        }
                        proof {
                            assert forall|x: DeviceId|
                                mid_queue.contains(x) implies queue@.contains(x) by {}
                            assert forall|x: DeviceId|
                                pre_out.contains(x) implies out@.contains(x) by {
                                let w = choose|w: int|
                                    0 <= w < pre_out.len() && pre_out[w] == x;
                                assert(out@[w] == x);
                            }
                            lemma_scan_step(
                                *self,
                                pre_queue,
                                pre_visited,
                                pre_out,
                                queue@,
                                visited@,
                                out@,
                                id,
                                start,
                                Some(*node),
                            );
                        }
                    },
                    None => {
                        proof {
                            lemma_scan_step(
                                *self,
                                pre_queue,
                                pre_visited,
                                pre_out,
                                queue@,
                                visited@,
                                out@,
                                id,
                                start,
                                None,
                            );
                        }
                    },
                }
            } else {
                proof {
                    if self.spec_get(id) is Some {
                        assert(self.slot_ok(id.index as int));
                    }
                    lemma_scan_step(
                        *self,
                        pre_queue,
                        pre_visited,
                        pre_out,
                        queue@,
                        visited@,
                        out@,
                        id,
                        start,
                        None,
                    );
                }
            }
        }
        proof {
            let vis = Set::new(
                |x: DeviceId| self.spec_get(x) is Some && visited@[x.index as int],
            );
            assert(scan_cover(*self, start, vis, out@)) by {
                assert forall|x: DeviceId, k: int|
                    vis.contains(x) && 0 <= k < (#[trigger] self.spec_get(
                        x,
                    )->0.children@[k], self.spec_get(x)->0.children@.len()).1 implies vis.contains(
                    self.spec_get(x)->0.children@[k],
                ) by {
                    assert(self.slot_ok(x.index as int));
                    let c = self.spec_get(x)->0.children@[k];
                    assert(self.spec_get(c) is Some);
                    assert(visited@[c.index as int] || queue@.contains(c));
                }
                assert forall|x: DeviceId| #[trigger] out@.contains(x) implies vis.contains(x)
                    && self.spec_ready(x) by {
                    let w = choose|w: int| 0 <= w < out@.len() && out@[w] == x;
                }
            }
            assert(closed_under_ready_children(*self, out@)) by {
                assert forall|x: DeviceId, k: int|
                    out@.contains(x) && (#[trigger] self.spec_get(x)) is Some && 0 <= k
                        < self.spec_get(x)->0.children@.len() && self.spec_ready(
                        #[trigger] self.spec_get(x)->0.children@[k],
                    ) implies out@.contains(self.spec_get(x)->0.children@[k]) by {
                    let w = choose|w: int| 0 <= w < out@.len() && out@[w] == x;
                    assert(visited@[x.index as int]);
                    let c = self.spec_get(x)->0.children@[k];
                    assert(visited@[c.index as int] || queue@.contains(c));
                }
            }
        }
        out
    }
}

/// Rewriting only the payload of one node (descriptor contents, state or
/// logic-device list) preserves the tree invariant: the identity, parent and
/// children of every slot are untouched.
proof fn lemma_payload_update_wf(pre: DeviceTree, post: DeviceTree, id: DeviceId)
    requires
        pre.wf(),
        pre.live(id),
        post.gens() == pre.gens(),
        post.root == pre.root,
        post.spec_free_head() == pre.spec_free_head(),
        post.slots().len() == pre.slots().len(),
        forall|j: int|
            0 <= j < pre.slots().len() && j != id.index ==> post.slots()[j] == pre.slots()[j],
        post.slots()[id.index as int] matches Some(n) && {
            let o = pre.spec_get(id)->0;
            &&& n.id == o.id
            &&& n.parent == o.parent
            &&& n.children == o.children
        },
    ensures
        post.wf(),
        post.live(id),
        forall|x: DeviceId| x.index != id.index ==> #[trigger] post.spec_get(x) == pre.spec_get(x),
{
    let i = id.index as int;
    assert(pre.slot_ok(i));
    assert(pre.spec_get(id) == Some(pre.slots()[i]->0));

    assert forall|x: DeviceId| x.index != id.index implies #[trigger] post.spec_get(x)
        == pre.spec_get(x) by {
        if x.index < pre.slots().len() {
            assert(post.slots()[x.index as int] == pre.slots()[x.index as int]);
        }
    }

    // Handles at the touched index resolve the same way (same id stored).
    assert forall|x: DeviceId| x.index == id.index implies (post.spec_get(x) is Some
        <==> pre.spec_get(x) is Some) by {}

    assert forall|j: int| 0 <= j < post.slots().len() implies post.slot_ok(j) by {
        if post.slots()[j] is Some {
            let n = post.slots()[j]->0;
            let o = if j == i {
                pre.slots()[i]->0
            } else {
                n
            };
            assert(pre.slot_ok(j));
            assert(pre.slots()[j] is Some);
            let np = pre.slots()[j]->0;
            assert(n.id == np.id && n.parent == np.parent && n.children == np.children);
            match n.parent {
                Some(p) => {
                    assert(pre.live(p));
                    assert(pre.spec_get(p)->0.children@.contains(np.id));
                    assert(post.spec_get(p) is Some);
                    assert(post.spec_get(p)->0.children == pre.spec_get(p)->0.children);
                },
                None => {},
            }
            assert forall|k: int| 0 <= k < n.children@.len() implies {
                &&& post.live(#[trigger] n.children@[k])
                &&& post.spec_get(n.children@[k])->0.parent == Some(n.id)
            } by {
                let c = np.children@[k];
                assert(pre.live(c));
                assert(pre.spec_get(c)->0.parent == Some(np.id));
                if c.index == id.index {
                    assert(post.slots()[c.index as int]->0.parent == pre.slots()[
                        c.index as int
                    ]->0.parent);
                } else {
                    assert(post.spec_get(c) == pre.spec_get(c));
                }
            }
        }
    }

    match post.root {
        Some(r) => {
            assert(pre.live(r));
            if r.index == id.index {
            } else {
                assert(post.spec_get(r) == pre.spec_get(r));
            }
        },
        None => {},
    }
}

/// Law: a live handle — such as one freshly returned by `insert` — resolves
/// to a node that carries exactly that handle, and the handle's generation
/// equals the slot's generation counter.
pub proof fn lemma_live_handle_resolves(t: DeviceTree, id: DeviceId)
    requires
        t.wf(),
        t.live(id),
    ensures
        (t.spec_get(id) matches Some(n) && n.id == id),
        id.generation == t.gens()[id.index as int],
{
    assert(t.slot_ok(id.index as int));
}

/// Law: every node with a parent is linked into that parent's `children`
/// list exactly once — the list contains the node's handle and holds no
/// duplicates.
pub proof fn lemma_parent_links_once(t: DeviceTree, id: DeviceId)
    requires
        t.wf(),
        (t.spec_get(id) matches Some(n) && n.parent is Some),
    ensures
        ({
            let n = t.spec_get(id)->0;
            let p = n.parent->0;
            &&& t.live(p)
            &&& t.spec_get(p)->0.children@.contains(n.id)
            &&& t.spec_get(p)->0.children@.no_duplicates()
        }),
{
    assert(t.slot_ok(id.index as int));
    let n = t.spec_get(id)->0;
    let p = n.parent->0;
    assert(t.slot_ok(p.index as int));
}

/// Law: a descriptor carried by a mounted report comes back unchanged from
/// a name lookup, provided its name is unique among the live nodes (the
/// design keeps descriptor names unique per tree).
pub proof fn lemma_report_roundtrip(
    post: DeviceTree,
    pre: DeviceTree,
    mount_point: DeviceId,
    nodes: Seq<DeviceDescNode>,
    ids: Seq<DeviceId>,
    k: int,
    d: DeviceDesc,
)
    requires
        mounted(post, pre, mount_point, nodes, ids),
        0 <= k < nodes.len(),
        // names are unique among live nodes
        forall|x: DeviceId, y: DeviceId|
            (#[trigger] post.spec_get(x)) is Some && (#[trigger] post.spec_get(y)) is Some
                && post.spec_get(x)->0.desc.name@ == post.spec_get(y)->0.desc.name@
                ==> post.spec_get(x) == post.spec_get(y),
        // d is what a lookup of the reported name returned
        exists|x: DeviceId|
            (#[trigger] post.spec_get(x)) matches Some(n) && n.desc.name@ == nodes[k].desc.name@
                && desc_matches(d, n.desc),
    ensures
        desc_matches(d, nodes[k].desc),
{
    let x = choose|x: DeviceId|
        (#[trigger] post.spec_get(x)) matches Some(n) && n.desc.name@ == nodes[k].desc.name@
            && desc_matches(d, n.desc);
    assert(post.spec_get(ids[k]) is Some);
    assert(post.spec_get(ids[k])->0.desc.name@ == nodes[k].desc.name@);
    assert(post.spec_get(x) == post.spec_get(ids[k]));
}

} // verus!
