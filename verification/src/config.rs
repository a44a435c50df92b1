//! The driver manifest: which driver binary serves which device. Loaded
//! once at startup (the boot environment hands it over as JSON; the host
//! shell turns it into these values) and immutable thereafter.

use vstd::prelude::*;

use crate::strutil::str_eq;

verus! {

/// One manifest entry: a driver binary and the device names or
/// compatibility strings it serves.
#[derive(Debug)]
pub struct DriverEntry {
    /// The driver binary identifier.
    pub name: String,
    pub compatible: Vec<String>,
}

/// The immutable driver manifest.
#[derive(Debug)]
pub struct Manifest {
    pub drivers: Vec<DriverEntry>,
}

/// A manifest entry matches a device when any of its compatibility strings
/// equals the device name or any of the device's compatibility strings.
pub open spec fn entry_matches(e: DriverEntry, name: Seq<char>, compat: Seq<Seq<char>>) -> bool {
    exists|i: int|
        0 <= i < e.compatible@.len() && ((#[trigger] e.compatible@[i])@ == name || exists|j: int|
            0 <= j < compat.len() && #[trigger] compat[j] == e.compatible@[i]@)
}

/// The binary of the first matching manifest entry: manifest order breaks
/// ties.
pub open spec fn find_driver(
    drivers: Seq<DriverEntry>,
    name: Seq<char>,
    compat: Seq<Seq<char>>,
) -> Option<Seq<char>>
    decreases drivers.len(),
{
    if drivers.len() == 0 {
        None
    } else if entry_matches(drivers[0], name, compat) {
        Some(drivers[0].name@)
    } else {
        find_driver(drivers.drop_first(), name, compat)
    }
}

impl Manifest {
    pub fn new() -> (m: Manifest)
        ensures
            m.drivers@.len() == 0,
    {
        Manifest { drivers: Vec::new() }
    }

    /// Selects the driver binary for a device: the first manifest entry with
    /// a compatibility string equal to the device name or to one of the
    /// device's compatibility strings. `None` exactly when no entry matches.
    pub fn match_driver(&self, dev_name: &String, dev_compat: &Vec<String>) -> (r: Option<String>)
        ensures
            match r {
                Some(bin) => find_driver(self.drivers@, dev_name@, dev_compat.deep_view())
                    matches Some(b) && bin@ == b,
                None => find_driver(self.drivers@, dev_name@, dev_compat.deep_view()) is None,
            },
    {
        let ghost name = dev_name@;
        let ghost compat = dev_compat.deep_view();
        proof {
            assert(self.drivers@.skip(0) =~= self.drivers@);
        }
        let mut d: usize = 0;
        while d < self.drivers.len()
            invariant
                d <= self.drivers@.len(),
                name == dev_name@,
                compat == dev_compat.deep_view(),
                find_driver(self.drivers@, name, compat) == find_driver(
                    self.drivers@.skip(d as int),
                    name,
                    compat,
                ),
            decreases self.drivers@.len() - d,
        {
            let e = &self.drivers[d];
            let mut hit = false;
            let mut i: usize = 0;
            while i < e.compatible.len()
                invariant
                    i <= e.compatible@.len(),
                    name == dev_name@,
                    compat == dev_compat.deep_view(),
                    hit ==> entry_matches(*e, name, compat),
                    !hit ==> forall|t: int|
                        0 <= t < i ==> !((#[trigger] e.compatible@[t])@ == name || exists|j: int|
                            0 <= j < compat.len() && #[trigger] compat[j] == e.compatible@[t]@),
                decreases e.compatible@.len() - i,
            {
                if !hit {
                    let c = &e.compatible[i];
                    if str_eq(c.as_str(), dev_name.as_str()) {
                        hit = true;
                    } else {
                        let mut j: usize = 0;
                        while j < dev_compat.len()
                            invariant
                                j <= dev_compat@.len(),
                                compat == dev_compat.deep_view(),
                                c == &e.compatible[i as int],
                                i < e.compatible@.len(),
                                hit ==> exists|t: int|
                                    0 <= t < compat.len() && #[trigger] compat[t]
                                        == e.compatible@[i as int]@,
                                !hit ==> forall|t: int|
                                    0 <= t < j ==> #[trigger] compat[t] != e.compatible@[
                                        i as int
                                    ]@,
                            decreases dev_compat@.len() - j,
                        {
                            if !hit && str_eq(dev_compat[j].as_str(), c.as_str()) {
                                hit = true;
                                proof {
                                    assert(compat[j as int] == dev_compat@[j as int]@);
                                }
                            }
                            j = j + 1;
                        }
                        proof {
                            if hit {
                                assert(entry_matches(*e, name, compat));
                            }
                        }
                    }
                }
                i = i + 1;
            }
            proof {
                assert(self.drivers@.skip(d as int)[0] == self.drivers@[d as int]);
                assert(self.drivers@.skip(d as int).drop_first() =~= self.drivers@.skip(d + 1));
                if !hit {
                    assert(!entry_matches(self.drivers@[d as int], name, compat));
                }
            }
            if hit {
                return Some(e.name.clone());
            }
            d = d + 1;
        }
        None
    }
}

} // verus!
