//! The logical-device registry: driver-reported logic devices, auto-named at
//! registration, queryable by clients.

use vstd::prelude::*;
use vstd::string::StringExecFns;

use crate::namegen::{dec_rep, prefixed_name, make_counter_name, u64_to_dec};
use crate::strutil::{seq_contains_sub, str_contains, str_eq};

verus! {

/// Placement of one partition on its parent block device.
#[derive(Clone, Copy, Debug, PartialEq, Eq, Structural)]
pub struct PartitionMetadata {
    /// Identity of the parent raw block device (its endpoint bits).
    pub parent: u64,
    pub start_lba: u64,
    pub num_blocks: u64,
    pub block_size: u64,
}

/// The kind of a logic device.
#[derive(Clone, Copy, Debug, PartialEq, Eq, Structural)]
pub enum LogicDeviceType {
    Block(PartitionMetadata),
    RawBlock(PartitionMetadata),
    Volume,
    Net,
    Fb,
    Uart,
    Input,
    Gpio,
    Platform,
    Thermal,
    Battery,
    Timer,
}

/// A driver's description of one logic device.
#[derive(Debug)]
pub struct LogicDeviceDesc {
    /// Name of the physical device (or device file) the logic device sits on.
    pub parent_name: String,
    pub dev_type: LogicDeviceType,
    /// Badge to mint onto the provided endpoint, if any.
    pub badge: Option<u64>,
}

/// A query over the registry; the filters are conjunctive.
#[derive(Debug)]
pub struct DeviceQuery {
    /// Substring match against the assigned or the parent name.
    pub name: Option<String>,
    /// Exact match of any element against the assigned or the parent name.
    pub compatible: Vec<String>,
    /// Variant match against the device type.
    pub dev_type: Option<LogicDeviceType>,
}

/// One registered logic device.
#[derive(Debug)]
pub struct LogicEntry {
    pub id: u64,
    pub desc: LogicDeviceDesc,
    /// The managed slot holding the device endpoint.
    pub endpoint_slot: u64,
    /// The stable generated name.
    pub assigned_name: String,
}

/// Monotonic per-kind counters feeding the generated names.
#[derive(Debug)]
pub struct LogicDeviceCounter {
    pub disk: u64,
    pub net: u64,
    pub fb: u64,
    pub uart: u64,
    pub input: u64,
    pub gpio: u64,
    pub platform: u64,
    pub thermal: u64,
    pub battery: u64,
    pub timer: u64,
    pub next_id: u64,
}

/// The all-zero counter state; identifiers start at one.
pub open spec fn counter_init() -> LogicDeviceCounter {
    LogicDeviceCounter {
        disk: 0,
        net: 0,
        fb: 0,
        uart: 0,
        input: 0,
        gpio: 0,
        platform: 0,
        thermal: 0,
        battery: 0,
        timer: 0,
        next_id: 1,
    }
}

impl Default for LogicDeviceCounter {
    fn default() -> (c: LogicDeviceCounter)
        ensures
            c == counter_init(),
    {
        LogicDeviceCounter {
            disk: 0,
            net: 0,
            fb: 0,
            uart: 0,
            input: 0,
            gpio: 0,
            platform: 0,
            thermal: 0,
            battery: 0,
            timer: 0,
            next_id: 1,
        }
    }
}

/// Two descriptors carry the same semantic content.
pub open spec fn ldesc_matches(a: LogicDeviceDesc, b: LogicDeviceDesc) -> bool {
    &&& a.parent_name@ == b.parent_name@
    &&& a.dev_type == b.dev_type
    &&& a.badge == b.badge
}

impl LogicDeviceDesc {
    /// Copies the descriptor, preserving its semantic content.
    pub fn duplicate(&self) -> (r: LogicDeviceDesc)
        ensures
            ldesc_matches(r, *self),
    {
        LogicDeviceDesc {
            parent_name: self.parent_name.clone(),
            dev_type: self.dev_type,
            badge: self.badge,
        }
    }
}

/// The two types agree on their variant (payloads are not compared).
pub open spec fn same_variant(a: LogicDeviceType, b: LogicDeviceType) -> bool {
    match a {
        LogicDeviceType::Block(_) => b is Block,
        LogicDeviceType::RawBlock(_) => b is RawBlock,
        LogicDeviceType::Volume => b is Volume,
        LogicDeviceType::Net => b is Net,
        LogicDeviceType::Fb => b is Fb,
        LogicDeviceType::Uart => b is Uart,
        LogicDeviceType::Input => b is Input,
        LogicDeviceType::Gpio => b is Gpio,
        LogicDeviceType::Platform => b is Platform,
        LogicDeviceType::Thermal => b is Thermal,
        LogicDeviceType::Battery => b is Battery,
        LogicDeviceType::Timer => b is Timer,
    }
}

/// Variant agreement, executable form.
pub fn type_matches(a: &LogicDeviceType, b: &LogicDeviceType) -> (r: bool)
    ensures
        r == same_variant(*a, *b),
{
    match a {
        LogicDeviceType::Block(_) => matches!(b, LogicDeviceType::Block(_)),
        LogicDeviceType::RawBlock(_) => matches!(b, LogicDeviceType::RawBlock(_)),
        LogicDeviceType::Volume => matches!(b, LogicDeviceType::Volume),
        LogicDeviceType::Net => matches!(b, LogicDeviceType::Net),
        LogicDeviceType::Fb => matches!(b, LogicDeviceType::Fb),
        LogicDeviceType::Uart => matches!(b, LogicDeviceType::Uart),
        LogicDeviceType::Input => matches!(b, LogicDeviceType::Input),
        LogicDeviceType::Gpio => matches!(b, LogicDeviceType::Gpio),
        LogicDeviceType::Platform => matches!(b, LogicDeviceType::Platform),
        LogicDeviceType::Thermal => matches!(b, LogicDeviceType::Thermal),
        LogicDeviceType::Battery => matches!(b, LogicDeviceType::Battery),
        LogicDeviceType::Timer => matches!(b, LogicDeviceType::Timer),
    }
}

/// How many `Block` entries already sit under `parent`.
pub open spec fn count_blocks(s: Seq<LogicEntry>, parent: Seq<char>) -> nat
    decreases s.len(),
{
    if s.len() == 0 {
        0
    } else {
        count_blocks(s.drop_last(), parent) + if s.last().desc.dev_type is Block
            && s.last().desc.parent_name@ == parent {
            1nat
        } else {
            0nat
        }
    }
}

/// The name `register` assigns to `desc` against the given registry state.
pub open spec fn spec_name_of(
    entries: Seq<LogicEntry>,
    counter: LogicDeviceCounter,
    desc: LogicDeviceDesc,
) -> Seq<char> {
    match desc.dev_type {
        LogicDeviceType::RawBlock(_) => prefixed_name("disk"@, counter.disk as int),
        LogicDeviceType::Net => prefixed_name("net"@, counter.net as int),
        LogicDeviceType::Fb => prefixed_name("fb"@, counter.fb as int),
        LogicDeviceType::Uart => prefixed_name("uart"@, counter.uart as int),
        LogicDeviceType::Input => prefixed_name("input"@, counter.input as int),
        LogicDeviceType::Gpio => prefixed_name("gpio"@, counter.gpio as int),
        LogicDeviceType::Thermal => prefixed_name("thermal"@, counter.thermal as int),
        LogicDeviceType::Battery => prefixed_name("battery"@, counter.battery as int),
        LogicDeviceType::Timer => prefixed_name("timer"@, counter.timer as int),
        LogicDeviceType::Platform => "platform"@,
        LogicDeviceType::Block(_) | LogicDeviceType::Volume => desc.parent_name@ + "p"@ + dec_rep(
            count_blocks(entries, desc.parent_name@) + 1 as int,
        ),
    }
}

/// The counter state after registering a device of type `t`.
pub open spec fn spec_bump(c: LogicDeviceCounter, t: LogicDeviceType) -> LogicDeviceCounter {
    let c1 = LogicDeviceCounter { next_id: (c.next_id + 1) as u64, ..c };
    match t {
        LogicDeviceType::RawBlock(_) => LogicDeviceCounter { disk: (c.disk + 1) as u64, ..c1 },
        LogicDeviceType::Net => LogicDeviceCounter { net: (c.net + 1) as u64, ..c1 },
        LogicDeviceType::Fb => LogicDeviceCounter { fb: (c.fb + 1) as u64, ..c1 },
        LogicDeviceType::Uart => LogicDeviceCounter { uart: (c.uart + 1) as u64, ..c1 },
        LogicDeviceType::Input => LogicDeviceCounter { input: (c.input + 1) as u64, ..c1 },
        LogicDeviceType::Gpio => LogicDeviceCounter { gpio: (c.gpio + 1) as u64, ..c1 },
        LogicDeviceType::Thermal => LogicDeviceCounter { thermal: (c.thermal + 1) as u64, ..c1 },
        LogicDeviceType::Battery => LogicDeviceCounter { battery: (c.battery + 1) as u64, ..c1 },
        LogicDeviceType::Timer => LogicDeviceCounter { timer: (c.timer + 1) as u64, ..c1 },
        LogicDeviceType::Platform | LogicDeviceType::Block(_) | LogicDeviceType::Volume => c1,
    }
}

/// The registry of logic devices, in registration order.
#[derive(Debug)]
pub struct LogicDeviceService {
    pub devices: Vec<LogicEntry>,
    pub counter: LogicDeviceCounter,
}

impl LogicDeviceService {
    /// Identifiers are dense from one; per-kind counters never exceed the
    /// number of registrations.
    pub open spec fn wf(self) -> bool {
        &&& self.counter.next_id as int == self.devices@.len() + 1
        &&& self.counter.disk as int <= self.devices@.len()
        &&& self.counter.net as int <= self.devices@.len()
        &&& self.counter.fb as int <= self.devices@.len()
        &&& self.counter.uart as int <= self.devices@.len()
        &&& self.counter.input as int <= self.devices@.len()
        &&& self.counter.gpio as int <= self.devices@.len()
        &&& self.counter.thermal as int <= self.devices@.len()
        &&& self.counter.battery as int <= self.devices@.len()
        &&& self.counter.timer as int <= self.devices@.len()
        &&& forall|i: int|
            0 <= i < self.devices@.len() ==> (#[trigger] self.devices@[i]).id as int == i + 1
    }

    pub fn new() -> (s: LogicDeviceService)
        ensures
            s.wf(),
            s.devices@.len() == 0,
            s.counter == counter_init(),
    {
        LogicDeviceService { devices: Vec::new(), counter: LogicDeviceCounter::default() }
    }

    /// How many `Block` entries sit under `parent`, executable form.
    fn block_count(&self, parent: &String) -> (c: u64)
        requires
            self.devices@.len() < u64::MAX,
        ensures
            c as nat == count_blocks(self.devices@, parent@),
            c as int <= self.devices@.len(),
    {
        let mut c: u64 = 0;
        let mut i: usize = 0;
        while i < self.devices.len()
            invariant
                i <= self.devices@.len(),
                self.devices@.len() < u64::MAX,
                c as nat == count_blocks(self.devices@.take(i as int), parent@),
                c <= i,
            decreases self.devices@.len() - i,
        {
            let e = &self.devices[i];
            let is_block = matches!(e.desc.dev_type, LogicDeviceType::Block(_));
            let hit = is_block && str_eq(e.desc.parent_name.as_str(), parent.as_str());
            proof {
                assert(self.devices@.take(i + 1).drop_last() =~= self.devices@.take(i as int));
                assert(self.devices@.take(i + 1).last() == self.devices@[i as int]);
            }
            if hit {
                c = c + 1;
            }
            i = i + 1;
        }
        proof {
            assert(self.devices@.take(self.devices@.len() as int) =~= self.devices@);
        }
        c
    }

    /// Registers a logic device: assigns its stable name from the counters
    /// (or the `Block` count under the same parent), stores the entry, and
    /// returns the new identifier with the name.
    pub fn register(&mut self, desc: LogicDeviceDesc, endpoint_slot: u64) -> (r: (u64, String))
        requires
            old(self).wf(),
            old(self).devices@.len() + 1 < u64::MAX,
        ensures
            final(self).wf(),
            r.0 == old(self).counter.next_id,
            r.1@ == spec_name_of(old(self).devices@, old(self).counter, desc),
            final(self).counter == spec_bump(old(self).counter, desc.dev_type),
            final(self).devices@.len() == old(self).devices@.len() + 1,
            final(self).devices@.drop_last() == old(self).devices@,
            ({
                let e = final(self).devices@.last();
                &&& e.id == r.0
                &&& e.endpoint_slot == endpoint_slot
                &&& e.assigned_name@ == r.1@
                &&& e.desc == desc
            }),
    {
        let ghost pre = *self;
        let id = self.counter.next_id;
        let name: String = match &desc.dev_type {
            LogicDeviceType::RawBlock(_) => {
                let n = make_counter_name("disk", self.counter.disk);
                self.counter.disk = self.counter.disk + 1;
                n
            },
            LogicDeviceType::Net => {
                let n = make_counter_name("net", self.counter.net);
                self.counter.net = self.counter.net + 1;
                n
            },
            LogicDeviceType::Fb => {
                let n = make_counter_name("fb", self.counter.fb);
                self.counter.fb = self.counter.fb + 1;
                n
            },
            LogicDeviceType::Uart => {
                let n = make_counter_name("uart", self.counter.uart);
                self.counter.uart = self.counter.uart + 1;
                n
            },
            LogicDeviceType::Input => {
                let n = make_counter_name("input", self.counter.input);
                self.counter.input = self.counter.input + 1;
                n
            },
            LogicDeviceType::Gpio => {
                let n = make_counter_name("gpio", self.counter.gpio);
                self.counter.gpio = self.counter.gpio + 1;
                n
            },
            LogicDeviceType::Thermal => {
                let n = make_counter_name("thermal", self.counter.thermal);
                self.counter.thermal = self.counter.thermal + 1;
                n
            },
            LogicDeviceType::Battery => {
                let n = make_counter_name("battery", self.counter.battery);
                self.counter.battery = self.counter.battery + 1;
                n
            },
            LogicDeviceType::Timer => {
                let n = make_counter_name("timer", self.counter.timer);
                self.counter.timer = self.counter.timer + 1;
                n
            },
            LogicDeviceType::Platform => String::from_str("platform"),
            LogicDeviceType::Block(_) | LogicDeviceType::Volume => {
                let k = self.block_count(&desc.parent_name);
                let mut n = desc.parent_name.clone();
                n.append("p");
                n.append(u64_to_dec(k + 1).as_str());
                n
            },
        };
        self.counter.next_id = self.counter.next_id + 1;
        let entry = LogicEntry { id, desc, endpoint_slot, assigned_name: name.clone() };
        self.devices.push(entry);
        proof {
            assert(self.devices@.drop_last() =~= pre.devices@);
        }
        (id, name)
    }
}

/// The entry code `alloc` matches a device type against. Kinds absent from
/// the table never match.
pub open spec fn code_matches(t: LogicDeviceType, code: u32) -> bool {
    match t {
        LogicDeviceType::RawBlock(_) => code == 1,
        LogicDeviceType::Block(_) => code == 2,
        LogicDeviceType::Net => code == 3,
        LogicDeviceType::Fb => code == 4,
        LogicDeviceType::Uart => code == 5,
        LogicDeviceType::Input => code == 6,
        LogicDeviceType::Gpio => code == 7,
        LogicDeviceType::Platform => code == 8,
        LogicDeviceType::Thermal => code == 9,
        LogicDeviceType::Battery => code == 10,
        LogicDeviceType::Volume | LogicDeviceType::Timer => false,
    }
}

/// The first entry matching a type code and an exact assigned name, as
/// `(id, endpoint slot)`.
pub open spec fn find_alloc(s: Seq<LogicEntry>, code: u32, crit: Seq<char>) -> Option<(u64, u64)>
    decreases s.len(),
{
    if s.len() == 0 {
        None
    } else if code_matches(s[0].desc.dev_type, code) && s[0].assigned_name@ == crit {
        Some((s[0].id, s[0].endpoint_slot))
    } else {
        find_alloc(s.drop_first(), code, crit)
    }
}

/// The first entry whose assigned name is `name`.
pub open spec fn find_named(s: Seq<LogicEntry>, name: Seq<char>) -> Option<LogicEntry>
    decreases s.len(),
{
    if s.len() == 0 {
        None
    } else if s[0].assigned_name@ == name {
        Some(s[0])
    } else {
        find_named(s.drop_first(), name)
    }
}

/// Whether an entry passes all filters of a query.
pub open spec fn q_matches(e: LogicEntry, q: DeviceQuery) -> bool {
    &&& (q.name matches Some(n) ==> seq_contains_sub(e.assigned_name@, n@) || seq_contains_sub(
        e.desc.parent_name@,
        n@,
    ))
    &&& (q.compatible@.len() > 0 ==> exists|i: int|
        0 <= i < q.compatible@.len() && ((#[trigger] q.compatible@[i])@ == e.assigned_name@
            || q.compatible@[i]@ == e.desc.parent_name@))
    &&& (q.dev_type matches Some(t) ==> same_variant(t, e.desc.dev_type))
}

/// The assigned names of the entries passing the query, in registry order.
pub open spec fn spec_query(s: Seq<LogicEntry>, q: DeviceQuery) -> Seq<Seq<char>>
    decreases s.len(),
{
    if s.len() == 0 {
        Seq::empty()
    } else {
        spec_query(s.drop_last(), q) + if q_matches(s.last(), q) {
            seq![s.last().assigned_name@]
        } else {
            Seq::empty()
        }
    }
}

impl LogicDeviceService {
    /// Picks the first registered device matching `dev_type` and named
    /// exactly `criteria`; callers mint a badged endpoint from the returned
    /// slot. `None` exactly when nothing matches.
    pub fn alloc_logic(&self, dev_type: u32, criteria: &String) -> (r: Option<(u64, u64)>)
        ensures
            r == find_alloc(self.devices@, dev_type, criteria@),
    {
        proof {
            assert(self.devices@.skip(0) =~= self.devices@);
        }
        let mut i: usize = 0;
        while i < self.devices.len()
            invariant
                i <= self.devices@.len(),
                find_alloc(self.devices@, dev_type, criteria@) == find_alloc(
                    self.devices@.skip(i as int),
                    dev_type,
                    criteria@,
                ),
            decreases self.devices@.len() - i,
        {
            let e = &self.devices[i];
            let code_ok = match &e.desc.dev_type {
                LogicDeviceType::RawBlock(_) => dev_type == 1,
                LogicDeviceType::Block(_) => dev_type == 2,
                LogicDeviceType::Net => dev_type == 3,
                LogicDeviceType::Fb => dev_type == 4,
                LogicDeviceType::Uart => dev_type == 5,
                LogicDeviceType::Input => dev_type == 6,
                LogicDeviceType::Gpio => dev_type == 7,
                LogicDeviceType::Platform => dev_type == 8,
                LogicDeviceType::Thermal => dev_type == 9,
                LogicDeviceType::Battery => dev_type == 10,
                LogicDeviceType::Volume | LogicDeviceType::Timer => false,
            };
            proof {
                assert(self.devices@.skip(i as int)[0] == self.devices@[i as int]);
                assert(self.devices@.skip(i as int).drop_first() =~= self.devices@.skip(i + 1));
            }
            if code_ok && str_eq(e.assigned_name.as_str(), criteria.as_str()) {
                return Some((e.id, e.endpoint_slot));
            }
            i = i + 1;
        }
        None
    }

    /// Returns the assigned names of all entries passing the query's
    /// conjunctive filters, in registry order.
    pub fn query(&self, query: &DeviceQuery) -> (r: Vec<String>)
        ensures
            r.deep_view() == spec_query(self.devices@, *query),
    {
        let mut out: Vec<String> = Vec::new();
        let mut i: usize = 0;
        while i < self.devices.len()
            invariant
                i <= self.devices@.len(),
                out.deep_view() == spec_query(self.devices@.take(i as int), *query),
            decreases self.devices@.len() - i,
        {
            let e = &self.devices[i];
            let mut matched = true;

            match &query.name {
                Some(qn) => {
                    if !str_contains(e.assigned_name.as_str(), qn.as_str()) && !str_contains(
                        e.desc.parent_name.as_str(),
                        qn.as_str(),
                    ) {
                        matched = false;
                    }
                },
                None => {},
            }

            if matched && query.compatible.len() > 0 {
                let mut any: bool = false;
                let mut j: usize = 0;
                while j < query.compatible.len()
                    invariant
                        j <= query.compatible@.len(),
                        any == exists|t: int|
                            0 <= t < j && ((#[trigger] query.compatible@[t])@
                                == e.assigned_name@ || query.compatible@[t]@
                                == e.desc.parent_name@),
                    decreases query.compatible@.len() - j,
                {
                    let c = &query.compatible[j];
                    if str_eq(c.as_str(), e.assigned_name.as_str()) || str_eq(
                        c.as_str(),
                        e.desc.parent_name.as_str(),
                    ) {
                        any = true;
                    }
                    j = j + 1;
                }
                if !any {
                    matched = false;
                }
            }

            match &query.dev_type {
                Some(t) => {
                    if !type_matches(t, &e.desc.dev_type) {
                        matched = false;
                    }
                },
                None => {},
            }

            proof {
                assert(self.devices@.take(i + 1).drop_last() =~= self.devices@.take(i as int));
                assert(self.devices@.take(i + 1).last() == self.devices@[i as int]);
            }
            if matched {
                out.push(e.assigned_name.clone());
                proof {
                    assert(out.deep_view() =~= spec_query(self.devices@.take(i + 1), *query));
                }
            } else {
                proof {
                    assert(out.deep_view() =~= spec_query(self.devices@.take(i + 1), *query));
                }
            }
            i = i + 1;
        }
        proof {
            assert(self.devices@.take(self.devices@.len() as int) =~= self.devices@);
        }
        out
    }

    /// Looks an entry up by exact assigned name.
    pub fn get_desc(&self, name: &String) -> (r: Option<(u64, LogicDeviceDesc)>)
        ensures
            match r {
                Some(p) => find_named(self.devices@, name@) matches Some(e) && p.0 == e.id
                    && ldesc_matches(p.1, e.desc),
                None => find_named(self.devices@, name@) is None,
            },
    {
        proof {
            assert(self.devices@.skip(0) =~= self.devices@);
        }
        let mut i: usize = 0;
        while i < self.devices.len()
            invariant
                i <= self.devices@.len(),
                find_named(self.devices@, name@) == find_named(
                    self.devices@.skip(i as int),
                    name@,
                ),
            decreases self.devices@.len() - i,
        {
            let e = &self.devices[i];
            proof {
                assert(self.devices@.skip(i as int)[0] == self.devices@[i as int]);
                assert(self.devices@.skip(i as int).drop_first() =~= self.devices@.skip(i + 1));
            }
            if str_eq(e.assigned_name.as_str(), name.as_str()) {
                return Some((e.id, e.desc.duplicate()));
            }
            i = i + 1;
        }
        None
    }
}

/// The kinds whose names come from a monotonic per-kind counter. `Block`
/// and `Volume` names derive from a caller-supplied parent name instead,
/// and `Platform` always gets the one fixed name.
pub open spec fn is_counter_kind(t: LogicDeviceType) -> bool {
    match t {
        LogicDeviceType::Block(_) | LogicDeviceType::Volume | LogicDeviceType::Platform => false,
        _ => true,
    }
}

/// The fixed name prefix of a counter-named kind.
pub open spec fn family_prefix(t: LogicDeviceType) -> Seq<char> {
    match t {
        LogicDeviceType::RawBlock(_) => "disk"@,
        LogicDeviceType::Net => "net"@,
        LogicDeviceType::Fb => "fb"@,
        LogicDeviceType::Uart => "uart"@,
        LogicDeviceType::Input => "input"@,
        LogicDeviceType::Gpio => "gpio"@,
        LogicDeviceType::Thermal => "thermal"@,
        LogicDeviceType::Battery => "battery"@,
        LogicDeviceType::Timer => "timer"@,
        _ => ""@,
    }
}

/// The counter feeding the names of a counter-named kind.
pub open spec fn family_count(c: LogicDeviceCounter, t: LogicDeviceType) -> u64 {
    match t {
        LogicDeviceType::RawBlock(_) => c.disk,
        LogicDeviceType::Net => c.net,
        LogicDeviceType::Fb => c.fb,
        LogicDeviceType::Uart => c.uart,
        LogicDeviceType::Input => c.input,
        LogicDeviceType::Gpio => c.gpio,
        LogicDeviceType::Thermal => c.thermal,
        LogicDeviceType::Battery => c.battery,
        LogicDeviceType::Timer => c.timer,
        _ => 0,
    }
}

/// All assigned names are pairwise distinct.
pub open spec fn names_unique(s: Seq<LogicEntry>) -> bool {
    forall|i: int, j: int|
        0 <= i < j < s.len() ==> (#[trigger] s[i]).assigned_name@ != (
        #[trigger] s[j]).assigned_name@
}

/// A `Block` or `Volume` name: a parent name, a `p`, and a decimal count.
pub open spec fn p_name(x: Seq<char>, k: int) -> Seq<char> {
    x + "p"@ + dec_rep(k)
}

/// The shape every assigned name has, by the kind of its entry: a counter
/// name below the kind's counter, a parent-derived partition name, or the
/// one fixed platform name.
pub open spec fn entry_shape_ok(e: LogicEntry, c: LogicDeviceCounter) -> bool {
    match e.desc.dev_type {
        LogicDeviceType::Block(_) | LogicDeviceType::Volume => exists|x: Seq<char>, k: int|
            1 <= k && e.assigned_name@ == #[trigger] p_name(x, k),
        LogicDeviceType::Platform => e.assigned_name@ == "platform"@,
        _ => exists|n: int|
            0 <= n < family_count(c, e.desc.dev_type) && e.assigned_name@
                == #[trigger] prefixed_name(family_prefix(e.desc.dev_type), n),
    }
}

/// Every entry's name has its kind's shape.
pub open spec fn names_shape_wf(reg: LogicDeviceService) -> bool {
    forall|i: int|
        0 <= i < reg.devices@.len() ==> entry_shape_ok(#[trigger] reg.devices@[i], reg.counter)
}

proof fn reveal_family_prefixes()
    ensures
        ("disk"@) == seq!['d', 'i', 's', 'k'],
        ("net"@) == seq!['n', 'e', 't'],
        ("fb"@) == seq!['f', 'b'],
        ("uart"@) == seq!['u', 'a', 'r', 't'],
        ("input"@) == seq!['i', 'n', 'p', 'u', 't'],
        ("gpio"@) == seq!['g', 'p', 'i', 'o'],
        ("thermal"@) == seq!['t', 'h', 'e', 'r', 'm', 'a', 'l'],
        ("battery"@) == seq!['b', 'a', 't', 't', 'e', 'r', 'y'],
        ("timer"@) == seq!['t', 'i', 'm', 'e', 'r'],
{
    reveal_strlit("disk");
    reveal_strlit("net");
    reveal_strlit("fb");
    reveal_strlit("uart");
    reveal_strlit("input");
    reveal_strlit("gpio");
    reveal_strlit("thermal");
    reveal_strlit("battery");
    reveal_strlit("timer");
    assert(("disk"@) =~= seq!['d', 'i', 's', 'k']);
    assert(("net"@) =~= seq!['n', 'e', 't']);
    assert(("fb"@) =~= seq!['f', 'b']);
    assert(("uart"@) =~= seq!['u', 'a', 'r', 't']);
    assert(("input"@) =~= seq!['i', 'n', 'p', 'u', 't']);
    assert(("gpio"@) =~= seq!['g', 'p', 'i', 'o']);
    assert(("thermal"@) =~= seq!['t', 'h', 'e', 'r', 'm', 'a', 'l']);
    assert(("battery"@) =~= seq!['b', 'a', 't', 't', 'e', 'r', 'y']);
    assert(("timer"@) =~= seq!['t', 'i', 'm', 'e', 'r']);
}

/// Counter names determine their kind and counter value: the prefixes of
/// any two kinds differ within their first two characters, and the decimal
/// part is injective.
proof fn lemma_counter_name_injective(t1: LogicDeviceType, n1: int, t2: LogicDeviceType, n2: int)
    requires
        is_counter_kind(t1),
        is_counter_kind(t2),
        n1 >= 0,
        n2 >= 0,
        prefixed_name(family_prefix(t1), n1) == prefixed_name(family_prefix(t2), n2),
    ensures
        same_variant(t1, t2),
        n1 == n2,
{
    reveal_family_prefixes();
    crate::namegen::lemma_dec_rep_len(n1);
    crate::namegen::lemma_dec_rep_len(n2);
    let p1 = family_prefix(t1);
    let p2 = family_prefix(t2);
    let s1 = prefixed_name(p1, n1);
    let s2 = prefixed_name(p2, n2);
    assert(s1[0] == p1[0] && s1[1] == p1[1]);
    assert(s2[0] == p2[0] && s2[1] == p2[1]);
    assert(same_variant(t1, t2));
    assert(p1 == p2);
    crate::namegen::lemma_prefixed_name_injective(p1, n1, n2);
}

/// A counter name never ends in the middle of a partition name: the `p`
/// separator would have to fall on a digit of the counter, or on a prefix
/// position that no prefix follows with a digit.
proof fn lemma_counter_name_not_p_name(t: LogicDeviceType, n: int, x: Seq<char>, k: int)
    requires
        is_counter_kind(t),
        n >= 0,
        k >= 1,
    ensures
        prefixed_name(family_prefix(t), n) != p_name(x, k),
{
    reveal_family_prefixes();
    crate::namegen::lemma_dec_rep_len(n);
    crate::namegen::lemma_dec_rep_len(k);
    crate::namegen::lemma_dec_rep_digits(n);
    crate::namegen::lemma_dec_rep_digits(k);
    proof_strlit_p();
    let p = family_prefix(t);
    let s1 = prefixed_name(p, n);
    let s2 = p_name(x, k);
    if s1 == s2 {
        let l = x.len() as int;
        assert(s2[l] == 'p') by {
            assert((x + "p"@)[l] == ("p"@)[0]);
            assert(s2[l] == (x + "p"@)[l]);
        }
        assert(l < s2.len());
        if l >= p.len() {
            assert(s1[l] == dec_rep(n)[l - p.len()]);
            assert(crate::namegen::is_digit('p'));
            assert(false);
        } else {
            assert(p[l] == 'p');
            // only `input` and `gpio` carry a `p`, and a non-digit follows
            assert(s2[l + 1] == dec_rep(k)[0]) by {
                assert(s2.len() == l + 1 + dec_rep(k).len());
            }
            assert(crate::namegen::is_digit(s2[l + 1]));
            assert(l + 1 < p.len());
            assert(s1[l + 1] == p[l + 1]);
            assert(false);
        }
    }
}

proof fn proof_strlit_p()
    ensures
        ("p"@).len() == 1 && ("p"@)[0] == 'p',
        ("platform"@).len() == 8 && ("platform"@)[0] == 'p',
{
    reveal_strlit("p");
    reveal_strlit("platform");
}

/// A counter name never equals the fixed platform name: no counter prefix
/// opens with a `p`.
proof fn lemma_counter_name_not_platform(t: LogicDeviceType, n: int)
    requires
        is_counter_kind(t),
        n >= 0,
    ensures
        prefixed_name(family_prefix(t), n) != "platform"@,
{
    reveal_family_prefixes();
    proof_strlit_p();
    let p = family_prefix(t);
    let s = prefixed_name(p, n);
    if s == "platform"@ {
        assert(s[0] == p[0]);
        assert(false);
    }
}

/// For counter-named kinds the assigned name is the kind's prefix followed
/// by its counter.
proof fn lemma_name_of_counter_kind(
    entries: Seq<LogicEntry>,
    c: LogicDeviceCounter,
    desc: LogicDeviceDesc,
)
    requires
        is_counter_kind(desc.dev_type),
    ensures
        spec_name_of(entries, c, desc) == prefixed_name(
            family_prefix(desc.dev_type),
            family_count(c, desc.dev_type) as int,
        ),
{
}

/// Law (name uniqueness): registering a device of a counter-named kind
/// keeps all assigned names pairwise distinct, whatever mix of kinds the
/// registry holds: the fresh name uses the kind's current counter, earlier
/// names of that kind used smaller values, other counter prefixes differ,
/// partition names carry a `p` where counter names cannot, and no counter
/// prefix opens like `platform`. (Registering a second `Platform` device
/// reuses the one fixed name, and crafted `Block`/`Volume` parent names can
/// collide among themselves, so those registrations stay outside this
/// law.)
pub proof fn lemma_register_keeps_names_unique(
    pre: LogicDeviceService,
    post: LogicDeviceService,
    desc: LogicDeviceDesc,
)
    requires
        names_shape_wf(pre),
        names_unique(pre.devices@),
        is_counter_kind(desc.dev_type),
        family_count(pre.counter, desc.dev_type) < u64::MAX,
        // the transition `register` guarantees
        post.devices@.len() == pre.devices@.len() + 1,
        post.devices@.drop_last() == pre.devices@,
        post.devices@.last().assigned_name@ == spec_name_of(pre.devices@, pre.counter, desc),
        post.devices@.last().desc.dev_type == desc.dev_type,
        post.counter == spec_bump(pre.counter, desc.dev_type),
    ensures
        names_unique(post.devices@),
        names_shape_wf(post),
{
    let t = desc.dev_type;
    let cnt = family_count(pre.counter, t) as int;
    lemma_name_of_counter_kind(pre.devices@, pre.counter, desc);
    let last = post.devices@.last();

    assert forall|i: int| 0 <= i < pre.devices@.len() implies (#[trigger] post.devices@[i])
        == pre.devices@[i] by {
        assert(post.devices@.drop_last()[i] == post.devices@[i]);
    }

    // the fresh name differs from every earlier one
    assert forall|i: int| 0 <= i < pre.devices@.len() implies (
    #[trigger] pre.devices@[i]).assigned_name@ != last.assigned_name@ by {
        let e = pre.devices@[i];
        assert(entry_shape_ok(e, pre.counter));
        if e.assigned_name@ == last.assigned_name@ {
            match e.desc.dev_type {
                LogicDeviceType::Block(_) | LogicDeviceType::Volume => {
                    let (x, k): (Seq<char>, int) = choose|x: Seq<char>, k: int|
                        1 <= k && e.assigned_name@ == #[trigger] p_name(x, k);
                    lemma_counter_name_not_p_name(t, cnt, x, k);
                },
                LogicDeviceType::Platform => {
                    lemma_counter_name_not_platform(t, cnt);
                },
                _ => {
                    let n = choose|n: int|
                        0 <= n < family_count(pre.counter, e.desc.dev_type) && e.assigned_name@
                            == #[trigger] prefixed_name(family_prefix(e.desc.dev_type), n);
                    lemma_counter_name_injective(e.desc.dev_type, n, t, cnt);
                    assert(family_count(pre.counter, e.desc.dev_type) == family_count(
                        pre.counter,
                        t,
                    ));
                },
            }
        }
    }

    assert(names_unique(post.devices@)) by {
        assert forall|i: int, j: int| 0 <= i < j < post.devices@.len() implies (
        #[trigger] post.devices@[i]).assigned_name@ != (
        #[trigger] post.devices@[j]).assigned_name@ by {
            if j < pre.devices@.len() {
                assert(pre.devices@[i].assigned_name@ != pre.devices@[j].assigned_name@);
            } else {
                assert(post.devices@[j] == last);
            }
        }
    }

    assert(names_shape_wf(post)) by {
        assert forall|i: int| 0 <= i < post.devices@.len() implies entry_shape_ok(
            #[trigger] post.devices@[i],
            post.counter,
        ) by {
            if i < pre.devices@.len() {
                let e = pre.devices@[i];
                assert(entry_shape_ok(e, pre.counter));
                match e.desc.dev_type {
                    LogicDeviceType::Block(_) | LogicDeviceType::Volume => {},
                    LogicDeviceType::Platform => {},
                    _ => {
                        let n = choose|n: int|
                            0 <= n < family_count(pre.counter, e.desc.dev_type)
                                && e.assigned_name@ == #[trigger] prefixed_name(
                                family_prefix(e.desc.dev_type),
                                n,
                            );
                        assert(family_count(post.counter, e.desc.dev_type) >= family_count(
                            pre.counter,
                            e.desc.dev_type,
                        ));
                        assert(e.assigned_name@ == prefixed_name(
                            family_prefix(e.desc.dev_type),
                            n,
                        ));
                    },
                }
            } else {
                assert(post.devices@[i] == last);
                assert(family_count(post.counter, t) as int == cnt + 1);
                assert(last.assigned_name@ == prefixed_name(family_prefix(t), cnt));
            }
        }
    }
}

} // verus!
