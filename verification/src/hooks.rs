//! Hook subscriptions: endpoints notified when matching logic devices are
//! registered. A new hook is immediately replayed against every logic device
//! already registered.

use vstd::prelude::*;

use crate::logic::{same_variant, type_matches, LogicDeviceService, LogicDeviceType, LogicEntry};

verus! {

/// What a hook subscribes to: one specific device endpoint, or every device
/// of one kind.
#[derive(Clone, Copy, Debug, PartialEq, Eq, Structural)]
pub enum HookTarget {
    Endpoint(u64),
    Type(LogicDeviceType),
}

/// One subscription.
#[derive(Clone, Copy, Debug, PartialEq, Eq, Structural)]
pub struct Hook {
    pub target: HookTarget,
    /// The managed slot holding the subscriber's endpoint.
    pub subscriber_slot: u64,
}

/// One outbound notification: a one-way signal to a subscriber about a logic
/// device. Sending is the caller's job; a failed send must not stop the
/// remaining notifications.
#[derive(Clone, Copy, Debug, PartialEq, Eq, Structural)]
pub struct Notification {
    pub subscriber_slot: u64,
    pub logic_id: u64,
}

/// Whether a hook target matches a logic device: the exact endpoint, or the
/// same device-type variant.
pub open spec fn hook_matches(t: HookTarget, e: LogicEntry) -> bool {
    match t {
        HookTarget::Endpoint(bits) => bits == e.endpoint_slot,
        HookTarget::Type(ty) => same_variant(ty, e.desc.dev_type),
    }
}

/// Executable form of `hook_matches`.
pub fn hook_matches_exec(t: &HookTarget, e: &LogicEntry) -> (r: bool)
    ensures
        r == hook_matches(*t, *e),
{
    match t {
        HookTarget::Endpoint(bits) => *bits == e.endpoint_slot,
        HookTarget::Type(ty) => type_matches(ty, &e.desc.dev_type),
    }
}

/// The notifications fired for one (new) logic device: one per matching
/// hook, in subscription order.
pub open spec fn spec_notes_for_entry(hooks: Seq<Hook>, e: LogicEntry) -> Seq<Notification>
    decreases hooks.len(),
{
    if hooks.len() == 0 {
        Seq::empty()
    } else {
        spec_notes_for_entry(hooks.drop_last(), e) + if hook_matches(hooks.last().target, e) {
            seq![Notification { subscriber_slot: hooks.last().subscriber_slot, logic_id: e.id }]
        } else {
            Seq::empty()
        }
    }
}

/// The replay notifications fired when a hook is subscribed: one per
/// matching logic device already registered, in registry order.
pub open spec fn spec_replay(entries: Seq<LogicEntry>, h: Hook) -> Seq<Notification>
    decreases entries.len(),
{
    if entries.len() == 0 {
        Seq::empty()
    } else {
        spec_replay(entries.drop_last(), h) + if hook_matches(h.target, entries.last()) {
            seq![
                Notification {
                    subscriber_slot: h.subscriber_slot,
                    logic_id: entries.last().id,
                },
            ]
        } else {
            Seq::empty()
        }
    }
}

/// The table of subscriptions; hooks are append-only.
pub struct HookTable {
    pub hooks: Vec<Hook>,
}

impl HookTable {
    pub fn new() -> (t: HookTable)
        ensures
            t.hooks@.len() == 0,
    {
        HookTable { hooks: Vec::new() }
    }

    /// Subscribes `target`, and returns the replay notifications: one for
    /// every already-registered logic device the new hook matches.
    pub fn hook(
        &mut self,
        target: HookTarget,
        subscriber_slot: u64,
        registry: &LogicDeviceService,
    ) -> (notes: Vec<Notification>)
        ensures
            final(self).hooks@ == old(self).hooks@.push(Hook { target, subscriber_slot }),
            notes@ == spec_replay(registry.devices@, Hook { target, subscriber_slot }),
    {
        let h = Hook { target, subscriber_slot };
        self.hooks.push(h);
        let mut notes: Vec<Notification> = Vec::new();
        let mut i: usize = 0;
        while i < registry.devices.len()
            invariant
                i <= registry.devices@.len(),
                notes@ == spec_replay(registry.devices@.take(i as int), h),
            decreases registry.devices@.len() - i,
        {
            let e = &registry.devices[i];
            proof {
                assert(registry.devices@.take(i + 1).drop_last() =~= registry.devices@.take(
                    i as int,
                ));
                assert(registry.devices@.take(i + 1).last() == registry.devices@[i as int]);
            }
            if hook_matches_exec(&h.target, e) {
                notes.push(Notification { subscriber_slot: h.subscriber_slot, logic_id: e.id });
                proof {
                    assert(notes@ =~= spec_replay(registry.devices@.take(i + 1), h));
                }
            } else {
                proof {
                    assert(notes@ =~= spec_replay(registry.devices@.take(i + 1), h));
                }
            }
            i = i + 1;
        }
        proof {
            assert(registry.devices@.take(registry.devices@.len() as int) =~= registry.devices@);
        }
        notes
    }

    /// The notifications for one newly registered logic device: one per
    /// matching hook, in subscription order.
    pub fn fire_for_entry(&self, e: &LogicEntry) -> (notes: Vec<Notification>)
        ensures
            notes@ == spec_notes_for_entry(self.hooks@, *e),
    {
        let mut notes: Vec<Notification> = Vec::new();
        let mut i: usize = 0;
        while i < self.hooks.len()
            invariant
                i <= self.hooks@.len(),
                notes@ == spec_notes_for_entry(self.hooks@.take(i as int), *e),
            decreases self.hooks@.len() - i,
        {
            let h = &self.hooks[i];
            proof {
                assert(self.hooks@.take(i + 1).drop_last() =~= self.hooks@.take(i as int));
                assert(self.hooks@.take(i + 1).last() == self.hooks@[i as int]);
            }
            if hook_matches_exec(&h.target, e) {
                notes.push(Notification { subscriber_slot: h.subscriber_slot, logic_id: e.id });
                proof {
                    assert(notes@ =~= spec_notes_for_entry(self.hooks@.take(i + 1), *e));
                }
            } else {
                proof {
                    assert(notes@ =~= spec_notes_for_entry(self.hooks@.take(i + 1), *e));
                }
            }
            i = i + 1;
        }
        proof {
            assert(self.hooks@.take(self.hooks@.len() as int) =~= self.hooks@);
        }
        notes
    }
}

/// How many notifications in `notes` concern the logic device `id`.
pub open spec fn count_id(notes: Seq<Notification>, id: u64) -> int
    decreases notes.len(),
{
    if notes.len() == 0 {
        0
    } else {
        count_id(notes.drop_last(), id) + if notes.last().logic_id == id {
            1int
        } else {
            0int
        }
    }
}

pub proof fn lemma_count_id_concat(a: Seq<Notification>, b: Seq<Notification>, id: u64)
    ensures
        count_id(a + b, id) == count_id(a, id) + count_id(b, id),
    decreases b.len(),
{
    if b.len() == 0 {
        assert(a + b =~= a);
    } else {
        assert((a + b).drop_last() =~= a + b.drop_last());
        assert((a + b).last() == b.last());
        lemma_count_id_concat(a, b.drop_last(), id);
    }
}

proof fn lemma_count_id_single(n: Notification, id: u64)
    ensures
        count_id(seq![n], id) == if n.logic_id == id {
            1int
        } else {
            0int
        },
{
    assert(seq![n].len() == 1);
    assert(seq![n].last() == n);
    assert(count_id(seq![n].drop_last(), id) == 0);
}

/// A replay over entries none of which carries `id` never mentions `id`.
proof fn lemma_replay_count_absent(entries: Seq<LogicEntry>, h: Hook, id: u64)
    requires
        forall|k: int| 0 <= k < entries.len() ==> (#[trigger] entries[k]).id != id,
    ensures
        count_id(spec_replay(entries, h), id) == 0,
    decreases entries.len(),
{
    if entries.len() > 0 {
        lemma_replay_count_absent(entries.drop_last(), h, id);
        let tail: Seq<Notification> = if hook_matches(h.target, entries.last()) {
            seq![
                Notification {
                    subscriber_slot: h.subscriber_slot,
                    logic_id: entries.last().id,
                },
            ]
        } else {
            Seq::empty()
        };
        lemma_count_id_concat(spec_replay(entries.drop_last(), h), tail, id);
        assert(spec_replay(entries, h) == spec_replay(entries.drop_last(), h) + tail);
        if tail.len() > 0 {
            lemma_count_id_single(tail[0], id);
            assert(tail =~= seq![tail[0]]);
            assert(tail.last().logic_id == entries.last().id);
        }
    }
}

/// A replay notifies exactly once about each matching logic device, and
/// never about the others (identifiers assumed pairwise distinct).
pub proof fn lemma_replay_once_per_device(entries: Seq<LogicEntry>, h: Hook, i: int)
    requires
        0 <= i < entries.len(),
        forall|a: int, b: int|
            0 <= a < b < entries.len() ==> (#[trigger] entries[a]).id != (
            #[trigger] entries[b]).id,
    ensures
        count_id(spec_replay(entries, h), entries[i].id) == if hook_matches(
            h.target,
            entries[i],
        ) {
            1int
        } else {
            0int
        },
    decreases entries.len(),
{
    let id = entries[i].id;
    let prefix = entries.drop_last();
    let tail: Seq<Notification> = if hook_matches(h.target, entries.last()) {
        seq![Notification { subscriber_slot: h.subscriber_slot, logic_id: entries.last().id }]
    } else {
        Seq::empty()
    };
    lemma_count_id_concat(spec_replay(prefix, h), tail, id);
    assert(spec_replay(entries, h) == spec_replay(prefix, h) + tail);
    if tail.len() > 0 {
        lemma_count_id_single(tail[0], id);
        assert(tail =~= seq![tail[0]]);
    }
    if i == entries.len() - 1 {
        assert(forall|k: int| 0 <= k < prefix.len() ==> (#[trigger] prefix[k]).id != id);
        lemma_replay_count_absent(prefix, h, id);
        if tail.len() > 0 {
            assert(tail[0].logic_id == id);
        }
    } else {
        lemma_replay_once_per_device(prefix, h, i);
        assert(entries.last().id != id);
    }
}

/// Replaying the same hook twice, with no intervening registry change,
/// notifies exactly twice about each matching logic device — not four
/// times — and never about the others. Subscribing a hook fires one replay,
/// so subscribing it again is a second, independent replay.
pub proof fn lemma_hook_replay_idempotent(entries: Seq<LogicEntry>, h: Hook, i: int)
    requires
        0 <= i < entries.len(),
        forall|a: int, b: int|
            0 <= a < b < entries.len() ==> (#[trigger] entries[a]).id != (
            #[trigger] entries[b]).id,
    ensures
        count_id(spec_replay(entries, h) + spec_replay(entries, h), entries[i].id) == if
        hook_matches(h.target, entries[i]) {
            2int
        } else {
            0int
        },
{
    lemma_count_id_concat(spec_replay(entries, h), spec_replay(entries, h), entries[i].id);
    lemma_replay_once_per_device(entries, h, i);
}

} // verus!
