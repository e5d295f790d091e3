//! The registry of live devices, one roster for each configured domain.

use vstd::prelude::*;
use crate::driver::DriverKind;
use crate::events::{after, Event};
use crate::identity::DeviceId;
use crate::info::DeviceInfo;
use crate::roster::{
    consistent, entry_of, installed, is_live, knows, lemma_installed, lemma_position,
    lemma_refreshed, lemma_selection, lemma_without_known, lemma_without_unknown, live_at,
    refreshed, swept, DeviceEntry,
};

verus! {

/// What an announcement did to the registry.
#[derive(Debug, PartialEq, Eq)]
pub enum Enumeration {
    /// The identity was known: its snapshot and clock were renewed.
    Refreshed(DeviceId),
    /// The identity is not known. Nothing was changed; the snapshot comes
    /// back with the kind of driver to build for it, so that the device can
    /// be registered. No kind comes where no driver exists for the type.
    Unseen { info: DeviceInfo, driver: Option<DriverKind> },
}

/// Why a remote call could not be routed.
#[derive(Debug, Clone, Copy, PartialEq, Eq, Structural)]
pub enum CallError {
    /// The domain holds no device with the identity asked for.
    NoSuchDevice(DeviceId),
}

/// The registry of the live devices of a fixed set of domains. `D` is the
/// driver that serves one device; the registry stores drivers and hands them
/// out, and never looks inside one.
pub struct DeviceManager<D> {
    domains: Vec<String>,
    devices: Vec<Vec<(DeviceId, DeviceEntry<D>)>>,
}

/// The names among `names`, each once, in the order of their first occurrence.
pub open spec fn each_once(names: Seq<Seq<char>>) -> Seq<Seq<char>>
    decreases names.len(),
{
    if names.len() == 0 {
        names
    } else {
        let before = each_once(names.drop_last());
        if before.contains(names.last()) {
            before
        } else {
            before.push(names.last())
        }
    }
}

/// The names of a list of strings.
pub open spec fn names_of(domains: Seq<String>) -> Seq<Seq<char>> {
    domains.map_values(|name: String| name@)
}

/// `each_once` repeats no name, and holds exactly the names it was given.
pub proof fn lemma_each_once(names: Seq<Seq<char>>)
    ensures
        each_once(names).no_duplicates(),
        forall|name: Seq<char>| #[trigger] each_once(names).contains(name) <==> names.contains(name),
    decreases names.len(),
{
    if names.len() > 0 {
        let rest = names.drop_last();
        let last = names.last();
        let before = each_once(rest);
        let all = each_once(names);
        lemma_each_once(rest);
        assert forall|name: Seq<char>| #[trigger] all.contains(name) <==> names.contains(name) by {
            assert(before.contains(name) <==> rest.contains(name));
            if all.contains(name) {
                let k = choose|k: int| 0 <= k < all.len() && all[k] == name;
                if k < before.len() {
                    assert(before[k] == name);
                    assert(before.contains(name));
                    let j = choose|j: int| 0 <= j < rest.len() && rest[j] == name;
                    assert(names[j] == name);
                } else {
                    assert(names[names.len() - 1] == name);
                }
            }
            if names.contains(name) {
                let j = choose|j: int| 0 <= j < names.len() && names[j] == name;
                if j < rest.len() {
                    assert(rest[j] == name);
                    assert(rest.contains(name));
                    let k = choose|k: int| 0 <= k < before.len() && before[k] == name;
                    assert(all[k] == name);
                } else if before.contains(name) {
                    let k = choose|k: int| 0 <= k < before.len() && before[k] == name;
                    assert(all[k] == name);
                } else {
                    assert(all[before.len() as int] == name);
                }
            }
        }
    }
}

/// Looks for the slot of `id` in a roster.
fn find<D>(roster: &Vec<(DeviceId, DeviceEntry<D>)>, id: DeviceId) -> (found: Option<usize>)
    ensures
        match found {
            Some(at) => at < roster@.len() && roster@[at as int].0 == id,
            None => !knows(roster@, id),
        },
{
    let mut at: usize = 0;
    while at < roster.len()
        invariant
            at <= roster@.len(),
            forall|i: int| 0 <= i < at ==> (#[trigger] roster@[i]).0 != id,
        decreases roster@.len() - at,
    {
        if roster[at].0 == id {
            return Some(at);
        }
        at += 1;
    }
    None
}

/// Looks for a name in a list of names.
fn find_name(names: &Vec<String>, name: &String) -> (found: Option<usize>)
    ensures
        match found {
            Some(at) => at < names@.len() && names_of(names@)[at as int] == name@,
            None => !names_of(names@).contains(name@),
        },
{
    let mut at: usize = 0;
    while at < names.len()
        invariant
            at <= names@.len(),
            forall|i: int| 0 <= i < at ==> (#[trigger] names_of(names@)[i]) != name@,
        decreases names@.len() - at,
    {
        if names[at] == *name {
            return Some(at);
        }
        at += 1;
    }
    None
}

impl<D> DeviceManager<D> {
    /// The names of the configured domains, in the order of configuration.
    pub closed spec fn domains(&self) -> Seq<Seq<char>> {
        names_of(self.domains@)
    }

    /// The roster of each configured domain, by the domain's name.
    pub closed spec fn view(&self) -> Map<Seq<char>, Seq<(DeviceId, DeviceEntry<D>)>> {
        Map::new(
            |name: Seq<char>| self.domains().contains(name),
            |name: Seq<char>| self.devices@[self.domains().index_of(name)]@,
        )
    }

    /// The registry's invariant: every domain is configured once and has a
    /// consistent roster.
    pub closed spec fn wf(&self) -> bool {
        &&& self.domains@.len() == self.devices@.len()
        &&& self.domains().no_duplicates()
        &&& forall|i: int| 0 <= i < self.devices@.len() ==> consistent((#[trigger] self.devices@[i])@)
    }

    /// The roster stored for the `at`-th domain is the roster under its name.
    proof fn lemma_roster_at(&self, at: int)
        requires
            self.wf(),
            0 <= at < self.domains().len(),
        ensures
            self@.dom().contains(self.domains()[at]),
            self@[self.domains()[at]] == self.devices@[at]@,
    {
        let name = self.domains()[at];
        let found = self.domains().index_of(name);
        assert(0 <= found < self.domains().len() && self.domains()[found] == name);
    }

    /// What the invariant means for the registry's view: the configured
    /// domains are exactly the ones that have a roster, no name is
    /// configured twice, and in every roster an identity stands at most once
    /// and a serial number in at most one mode.
    pub proof fn lemma_wf(&self)
        requires
            self.wf(),
        ensures
            self.domains().no_duplicates(),
            forall|name: Seq<char>| self@.dom().contains(name) <==> self.domains().contains(name),
            forall|name: Seq<char>| self@.dom().contains(name) ==> consistent(#[trigger] self@[name]),
    {
        assert forall|name: Seq<char>| self@.dom().contains(name) implies consistent(
            #[trigger] self@[name],
        ) by {
            let at = self.domains().index_of(name);
            assert(0 <= at < self.domains().len() && self.domains()[at] == name);
            assert(consistent(self.devices@[at]@));
        }
    }

    /// A registry for the given domains, with no device in any of them. A
    /// name given more than once configures one domain.
    pub fn new(domains: Vec<String>) -> (manager: Self)
        ensures
            manager.wf(),
            manager.domains() == each_once(names_of(domains@)),
            manager@ == Map::new(
                |name: Seq<char>| names_of(domains@).contains(name),
                |name: Seq<char>| Seq::<(DeviceId, DeviceEntry<D>)>::empty(),
            ),
    {
        let mut names: Vec<String> = Vec::new();
        let mut devices: Vec<Vec<(DeviceId, DeviceEntry<D>)>> = Vec::new();
        let mut at: usize = 0;
        while at < domains.len()
            invariant
                at <= domains@.len(),
                names@.len() == devices@.len(),
                names_of(names@) == each_once(names_of(domains@).take(at as int)),
                forall|i: int| 0 <= i < devices@.len() ==> (#[trigger] devices@[i])@.len() == 0,
            decreases domains@.len() - at,
        {
            let ghost next = names_of(domains@).take(at as int + 1);
            let ghost known = names_of(names@);
            proof {
                assert(next.drop_last() =~= names_of(domains@).take(at as int));
                assert(next.last() == domains@[at as int]@);
            }
            if find_name(&names, &domains[at]).is_none() {
                names.push(domains[at].clone());
                devices.push(Vec::new());
                proof {
                    assert(names_of(names@) =~= known.push(domains@[at as int]@));
                }
            }
            at += 1;
        }
        proof {
            assert(names_of(domains@).take(at as int) =~= names_of(domains@));
            lemma_each_once(names_of(domains@));
        }
        let manager = DeviceManager { domains: names, devices };
        proof {
            assert(manager.wf());
            assert forall|name: Seq<char>| manager.domains().contains(name) implies manager.devices@[manager.domains().index_of(
                name,
            )]@ =~= Seq::<(DeviceId, DeviceEntry<D>)>::empty() by {
                let k = manager.domains().index_of(name);
                assert(0 <= k < manager.domains().len());
            }
            assert(manager@ =~= Map::new(
                |name: Seq<char>| names_of(domains@).contains(name),
                |name: Seq<char>| Seq::<(DeviceId, DeviceEntry<D>)>::empty(),
            ));
        }
        manager
    }

    /// Whether `domain` is one of the configured domains.
    pub fn has_domain(&self, domain: &String) -> (yes: bool)
        ensures
            yes == self@.dom().contains(domain@),
    {
        find_name(&self.domains, domain).is_some()
    }

    /// The place of a configured domain.
    fn domain_index(&self, domain: &String) -> (at: usize)
        requires
            self.wf(),
            self@.dom().contains(domain@),
        ensures
            at < self.domains().len(),
            self.domains()[at as int] == domain@,
            self@[domain@] == self.devices@[at as int]@,
    {
        let at = find_name(&self.domains, domain).unwrap();
        proof {
            self.lemma_roster_at(at as int);
        }
        at
    }

    /// Whether the domain holds a device with this identity.
    pub fn contains(&self, domain: &String, id: DeviceId) -> (yes: bool)
        requires
            self.wf(),
            self@.dom().contains(domain@),
        ensures
            yes == knows(self@[domain@], id),
    {
        let at = self.domain_index(domain);
        find(&self.devices[at], id).is_some()
    }
}

impl<D> DeviceManager<D> {
    /// Forgets every device of every domain. The domains stay configured.
    pub fn reset(&mut self)
        requires
            old(self).wf(),
        ensures
            final(self).wf(),
            final(self).domains() == old(self).domains(),
            final(self)@ == Map::new(
                |name: Seq<char>| old(self)@.dom().contains(name),
                |name: Seq<char>| Seq::<(DeviceId, DeviceEntry<D>)>::empty(),
            ),
            final(self)@ == after(old(self)@, Event::Reset),
    {
        let mut at: usize = 0;
        while at < self.devices.len()
            invariant
                self.domains@ == old(self).domains@,
                self.devices@.len() == old(self).devices@.len(),
                at <= self.devices@.len(),
                forall|i: int| 0 <= i < at ==> (#[trigger] self.devices@[i])@.len() == 0,
            decreases self.devices@.len() - at,
        {
            self.devices[at].clear();
            at += 1;
        }
        proof {
            assert forall|name: Seq<char>| self.domains().contains(name) implies self.devices@[self.domains().index_of(
                name,
            )]@ =~= Seq::<(DeviceId, DeviceEntry<D>)>::empty() by {
                let k = self.domains().index_of(name);
                assert(0 <= k < self.domains().len());
            }
            assert(self@ =~= Map::new(
                |name: Seq<char>| old(self)@.dom().contains(name),
                |name: Seq<char>| Seq::<(DeviceId, DeviceEntry<D>)>::empty(),
            ));
        }
    }

    /// Renews the entry at `slot` of the `at`-th domain: its snapshot becomes
    /// `info`, its clock restarts at `now`, and its driver stays.
    fn refresh_at(&mut self, at: usize, slot: usize, info: DeviceInfo, now: u64)
        requires
            old(self).wf(),
            at < old(self).devices@.len(),
            slot < old(self).devices@[at as int]@.len(),
        ensures
            final(self).wf(),
            final(self).domains() == old(self).domains(),
            final(self)@ == old(self)@.insert(
                old(self).domains()[at as int],
                refreshed(
                    old(self).devices@[at as int]@,
                    old(self).devices@[at as int]@[slot as int].0,
                    info,
                    now,
                ),
            ),
    {
        let ghost roster = self.devices@[at as int]@;
        let ghost id = roster[slot as int].0;
        proof {
            lemma_position(roster, slot as int);
            lemma_refreshed(roster, id, info, now);
        }
        self.devices[at][slot].1.info = info;
        self.devices[at][slot].1.last_seen = now;
        proof {
            assert(self.devices@[at as int]@ =~= refreshed(roster, id, info, now));
            self.lemma_replaced(*old(self), at as int);
        }
    }

    /// Takes the announcement of a device in `domain` at time `now`.
    ///
    /// A known identity is refreshed: its snapshot becomes `info`, its clock
    /// restarts at `now`, and its driver stays the one it was. An unseen
    /// identity changes nothing here: the snapshot comes back with the kind
    /// of driver that its mode and model call for, and the device enters the
    /// registry once `register` is given that driver.
    pub fn on_enumerate_response(&mut self, domain: &String, info: DeviceInfo, now: u64) -> (outcome:
        Enumeration)
        requires
            old(self).wf(),
            old(self)@.dom().contains(domain@),
            info.serial is Some,
        ensures
            final(self).wf(),
            final(self).domains() == old(self).domains(),
            knows(old(self)@[domain@], info.spec_identity()) ==> outcome == Enumeration::Refreshed(
                info.spec_identity(),
            ) && final(self)@ == old(self)@.insert(
                domain@,
                refreshed(old(self)@[domain@], info.spec_identity(), info, now),
            ),
            !knows(old(self)@[domain@], info.spec_identity()) ==> outcome == (Enumeration::Unseen {
                info,
                driver: DriverKind::spec_select(info.spec_identity(), info.device_type),
            }) && final(self)@ == old(self)@,
    {
        let id = info.identity();
        let at = self.domain_index(domain);
        let ghost roster = self.devices@[at as int]@;
        match find(&self.devices[at], id) {
            Some(slot) => {
                self.refresh_at(at, slot, info, now);
                Enumeration::Refreshed(id)
            },
            None => {
                let driver = DriverKind::select(id, info.device_type);
                Enumeration::Unseen { info, driver }
            },
        }
    }

    /// Enters a device into `domain` at time `now` with the driver built for
    /// it. Whatever the same serial number held in the other mode leaves the
    /// registry first, so that the serial has one live identity, and the new
    /// entry stands last in the roster.
    ///
    /// A driver is never replaced: where the identity is known after all,
    /// the entry is refreshed as `on_enumerate_response` does, and `device`
    /// comes back unused.
    pub fn register(&mut self, domain: &String, info: DeviceInfo, device: D, now: u64) -> (spare:
        Option<D>)
        requires
            old(self).wf(),
            old(self)@.dom().contains(domain@),
            info.serial is Some,
        ensures
            final(self).wf(),
            final(self).domains() == old(self).domains(),
            !knows(old(self)@[domain@], info.spec_identity()) ==> spare is None && final(self)@
                == old(self)@.insert(
                domain@,
                installed(
                    old(self)@[domain@],
                    info.spec_identity(),
                    DeviceEntry { device, info, last_seen: now },
                ),
            ),
            knows(old(self)@[domain@], info.spec_identity()) ==> spare == Some(device)
                && final(self)@ == old(self)@.insert(
                domain@,
                refreshed(old(self)@[domain@], info.spec_identity(), info, now),
            ),
            final(self)@ == after(
                old(self)@,
                Event::Announce { domain: domain@, info, device, now },
            ),
    {
        let id = info.identity();
        let at = self.domain_index(domain);
        let ghost roster = self.devices@[at as int]@;
        let ghost entry = DeviceEntry { device, info, last_seen: now };
        match find(&self.devices[at], id) {
            Some(slot) => {
                self.refresh_at(at, slot, info, now);
                Some(device)
            },
            None => {
                proof {
                    lemma_installed(roster, id, entry);
                }
                match find(&self.devices[at], id.counterpart()) {
                    Some(slot) => {
                        proof {
                            lemma_without_known(roster, slot as int);
                        }
                        self.devices[at].remove(slot);
                    },
                    None => {
                        proof {
                            lemma_without_unknown(roster, id.spec_counterpart());
                        }
                    },
                }
                self.devices[at].push((id, DeviceEntry { device, info, last_seen: now }));
                proof {
                    assert(self.devices@[at as int]@ =~= installed(roster, id, entry));
                    self.lemma_replaced(*old(self), at as int);
                }
                None
            },
        }
    }

    /// The registry after the roster of its `at`-th domain was replaced by a
    /// consistent one and nothing else was touched.
    proof fn lemma_replaced(&self, before: Self, at: int)
        requires
            before.wf(),
            0 <= at < before.devices@.len(),
            self.domains@ == before.domains@,
            self.devices@.len() == before.devices@.len(),
            forall|i: int|
                0 <= i < before.devices@.len() && i != at ==> #[trigger] self.devices@[i]
                    == before.devices@[i],
            consistent(self.devices@[at]@),
        ensures
            self.wf(),
            self.domains() == before.domains(),
            self@ == before@.insert(before.domains()[at], self.devices@[at]@),
    {
        let name = before.domains()[at];
        assert forall|i: int| 0 <= i < self.devices@.len() implies consistent(
            (#[trigger] self.devices@[i])@,
        ) by {
            if i != at {
                assert(self.devices@[i] == before.devices@[i]);
            }
        }
        assert forall|other: Seq<char>| self.domains().contains(other) implies #[trigger] self@[other]
            == before@.insert(name, self.devices@[at]@)[other] by {
            let k = self.domains().index_of(other);
            assert(0 <= k < self.domains().len() && self.domains()[k] == other);
            if k != at {
                assert(self.devices@[k] == before.devices@[k]);
            }
        }
        assert(self@ =~= before@.insert(name, self.devices@[at]@));
    }

    /// Sweeps every domain at time `now`: an entry leaves exactly if more
    /// than `STALE_AFTER_MILLIS` milliseconds have passed since its latest
    /// announcement. The entries that stay keep their order and all they hold.
    pub fn on_tick(&mut self, now: u64)
        requires
            old(self).wf(),
        ensures
            final(self).wf(),
            final(self).domains() == old(self).domains(),
            final(self)@ == Map::new(
                |name: Seq<char>| old(self)@.dom().contains(name),
                |name: Seq<char>| swept(old(self)@[name], now),
            ),
            final(self)@ == after(old(self)@, Event::Tick { now }),
    {
        let mut at: usize = 0;
        while at < self.devices.len()
            invariant
                old(self).wf(),
                self.domains@ == old(self).domains@,
                self.devices@.len() == old(self).devices@.len(),
                at <= self.devices@.len(),
                forall|i: int|
                    0 <= i < at ==> (#[trigger] self.devices@[i])@ == swept(
                        old(self).devices@[i]@,
                        now,
                    ),
                forall|i: int|
                    at <= i < self.devices@.len() ==> #[trigger] self.devices@[i]
                        == old(self).devices@[i],
            decreases self.devices@.len() - at,
        {
            let ghost roster = self.devices@[at as int]@;
            let ghost entering = self.devices@;
            let ghost scanned: int = 0;
            let mut slot: usize = 0;
            proof {
                reveal(Seq::filter);
                assert(roster.take(0).filter(live_at(now)) =~= Seq::empty());
                assert(roster.skip(0) =~= roster);
            }
            while slot < self.devices[at].len()
                invariant
                    at < self.devices@.len(),
                    self.domains@ == old(self).domains@,
                    self.devices@.len() == entering.len(),
                    forall|i: int|
                        0 <= i < entering.len() && i != at ==> #[trigger] self.devices@[i]
                            == entering[i],
                    0 <= scanned <= roster.len(),
                    slot == roster.take(scanned).filter(live_at(now)).len(),
                    self.devices@[at as int]@ == roster.take(scanned).filter(live_at(now))
                        + roster.skip(scanned),
                decreases roster.len() - scanned,
            {
                let ghost kept = roster.take(scanned).filter(live_at(now));
                proof {
                    assert(self.devices@[at as int]@[slot as int] == roster[scanned]);
                    assert(roster.take(scanned + 1) =~= roster.take(scanned).push(roster[scanned]));
                    roster.take(scanned).lemma_filter_push(roster[scanned], live_at(now));
                }
                if is_live(self.devices[at][slot].1.last_seen, now) {
                    proof {
                        assert(kept.push(roster[scanned]) + roster.skip(scanned + 1) =~= kept
                            + roster.skip(scanned));
                    }
                    slot += 1;
                } else {
                    self.devices[at].remove(slot);
                    proof {
                        assert((kept + roster.skip(scanned)).remove(slot as int) =~= kept
                            + roster.skip(scanned + 1));
                    }
                }
                proof {
                    scanned = scanned + 1;
                }
            }
            proof {
                assert(roster.take(scanned) =~= roster);
                assert(self.devices@[at as int]@ =~= swept(roster, now));
            }
            at += 1;
        }
        proof {
            assert forall|i: int| 0 <= i < self.devices@.len() implies consistent(
                (#[trigger] self.devices@[i])@,
            ) by {
                lemma_selection(old(self).devices@[i]@, live_at(now));
            }
            assert forall|name: Seq<char>| self.domains().contains(name) implies self.devices@[self.domains().index_of(
                name,
            )]@ == swept(old(self)@[name], now) by {
                let k = self.domains().index_of(name);
                assert(0 <= k < self.domains().len());
            }
            assert(self@ =~= Map::new(
                |name: Seq<char>| old(self)@.dom().contains(name),
                |name: Seq<char>| swept(old(self)@[name], now),
            ));
        }
    }

    /// Routes a remote call: the driver of the device that the call is for,
    /// or the error that names the identity where the domain holds no such
    /// device.
    pub fn call(&self, domain: &String, id: DeviceId) -> (target: Result<&D, CallError>)
        requires
            self.wf(),
            self@.dom().contains(domain@),
        ensures
            knows(self@[domain@], id) ==> (target matches Ok(device) && *device == entry_of(
                self@[domain@],
                id,
            ).device),
            !knows(self@[domain@], id) ==> target == Err::<&D, CallError>(
                CallError::NoSuchDevice(id),
            ),
    {
        let at = self.domain_index(domain);
        match find(&self.devices[at], id) {
            Some(slot) => {
                proof {
                    lemma_position(self.devices@[at as int]@, slot as int);
                }
                Ok(&self.devices[at][slot].1.device)
            },
            None => Err(CallError::NoSuchDevice(id)),
        }
    }

    /// The drivers of the devices that `domain` holds now, each with its
    /// identity, in the order of the roster.
    pub fn drivers(&self, domain: &String) -> (out: Vec<(DeviceId, &D)>)
        requires
            self.wf(),
            self@.dom().contains(domain@),
        ensures
            out@.len() == self@[domain@].len(),
            forall|i: int|
                0 <= i < out@.len() ==> (#[trigger] out@[i]).0 == self@[domain@][i].0 && *out@[i].1
                    == self@[domain@][i].1.device,
    {
        let at = self.domain_index(domain);
        let mut out: Vec<(DeviceId, &D)> = Vec::new();
        let mut slot: usize = 0;
        while slot < self.devices[at].len()
            invariant
                at < self.devices@.len(),
                slot <= self.devices@[at as int]@.len(),
                out@.len() == slot,
                forall|i: int|
                    0 <= i < slot ==> (#[trigger] out@[i]).0 == self.devices@[at as int]@[i].0
                        && *out@[i].1 == self.devices@[at as int]@[i].1.device,
            decreases self.devices@[at as int]@.len() - slot,
        {
            out.push((self.devices[at][slot].0, &self.devices[at][slot].1.device));
            slot += 1;
        }
        out
    }

    /// Every configured domain, in the order of configuration, with the
    /// devices it holds now in the order of its roster: of each device the
    /// identity, a copy of the latest snapshot, and the driver.
    pub fn devices(&self) -> (out: Vec<(String, Vec<(DeviceId, DeviceInfo, &D)>)>)
        requires
            self.wf(),
        ensures
            out@.len() == self.domains().len(),
            forall|k: int|
                0 <= k < out@.len() ==> (#[trigger] out@[k]).0@ == self.domains()[k]
                    && out@[k].1@.len() == self@[self.domains()[k]].len(),
            forall|k: int, i: int|
                0 <= k < out@.len() && 0 <= i < out@[k].1@.len() ==> {
                    let listed = #[trigger] out@[k].1@[i];
                    let slot = self@[self.domains()[k]][i];
                    listed.0 == slot.0 && listed.1 == slot.1.info && *listed.2 == slot.1.device
                },
    {
        let mut out: Vec<(String, Vec<(DeviceId, DeviceInfo, &D)>)> = Vec::new();
        let mut at: usize = 0;
        while at < self.devices.len()
            invariant
                self.wf(),
                at <= self.devices@.len(),
                out@.len() == at,
                forall|k: int|
                    0 <= k < at ==> (#[trigger] out@[k]).0@ == self.domains()[k] && out@[k].1@.len()
                        == self.devices@[k]@.len(),
                forall|k: int, i: int|
                    0 <= k < at && 0 <= i < out@[k].1@.len() ==> {
                        let listed = #[trigger] out@[k].1@[i];
                        let slot = self.devices@[k]@[i];
                        listed.0 == slot.0 && listed.1 == slot.1.info && *listed.2
                            == slot.1.device
                    },
            decreases self.devices@.len() - at,
        {
            let mut listed: Vec<(DeviceId, DeviceInfo, &D)> = Vec::new();
            let mut slot: usize = 0;
            while slot < self.devices[at].len()
                invariant
                    at < self.devices@.len(),
                    slot <= self.devices@[at as int]@.len(),
                    listed@.len() == slot,
                    forall|i: int|
                        0 <= i < slot ==> {
                            let one = #[trigger] listed@[i];
                            let held = self.devices@[at as int]@[i];
                            one.0 == held.0 && one.1 == held.1.info && *one.2 == held.1.device
                        },
                decreases self.devices@[at as int]@.len() - slot,
            {
                let held = &self.devices[at][slot];
                listed.push((held.0, held.1.info.snapshot(), &held.1.device));
                slot += 1;
            }
            out.push((self.domains[at].clone(), listed));
            at += 1;
        }
        proof {
            assert forall|k: int| 0 <= k < out@.len() implies self@[self.domains()[k]]
                == self.devices@[k]@ by {
                self.lemma_roster_at(k);
            }
        }
        out
    }
}

} // verus!
