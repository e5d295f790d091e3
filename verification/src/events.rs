//! The events of a registry and what each does to its view: the model that
//! the registry's operations are held to.

use vstd::prelude::*;
use crate::identity::DeviceId;
use crate::info::DeviceInfo;
use crate::roster::{consistent, installed, knows, refreshed, swept, DeviceEntry};

verus! {

/// One thing that can happen to the registry.
pub enum Event<D> {
    /// A device of `domain` announced itself at `now`; `device` is the driver
    /// that is built for it if its identity is not known yet.
    Announce { domain: Seq<char>, info: DeviceInfo, device: D, now: u64 },
    /// The stale entries of every domain were swept out at `now`.
    Tick { now: u64 },
    /// Every device of every domain was forgotten.
    Reset,
}

/// The registry's view after one event. An announcement for a domain that
/// is not configured, or without a serial number, is no event of the
/// registry and leaves it as it is.
pub open spec fn after<D>(
    state: Map<Seq<char>, Seq<(DeviceId, DeviceEntry<D>)>>,
    event: Event<D>,
) -> Map<Seq<char>, Seq<(DeviceId, DeviceEntry<D>)>> {
    match event {
        Event::Announce { domain, info, device, now } => {
            if state.dom().contains(domain) && info.serial is Some {
                let id = info.spec_identity();
                if knows(state[domain], id) {
                    state.insert(domain, refreshed(state[domain], id, info, now))
                } else {
                    state.insert(
                        domain,
                        installed(state[domain], id, DeviceEntry { device, info, last_seen: now }),
                    )
                }
            } else {
                state
            }
        },
        Event::Tick { now } => Map::new(
            |name: Seq<char>| state.dom().contains(name),
            |name: Seq<char>| swept(state[name], now),
        ),
        Event::Reset => Map::new(
            |name: Seq<char>| state.dom().contains(name),
            |name: Seq<char>| Seq::<(DeviceId, DeviceEntry<D>)>::empty(),
        ),
    }
}

/// The registry's view after a sequence of events, the first one first.
pub open spec fn after_all<D>(
    state: Map<Seq<char>, Seq<(DeviceId, DeviceEntry<D>)>>,
    events: Seq<Event<D>>,
) -> Map<Seq<char>, Seq<(DeviceId, DeviceEntry<D>)>>
    decreases events.len(),
{
    if events.len() == 0 {
        state
    } else {
        after(after_all(state, events.drop_last()), events.last())
    }
}

/// Every roster of the view is consistent.
pub open spec fn all_consistent<D>(state: Map<Seq<char>, Seq<(DeviceId, DeviceEntry<D>)>>) -> bool {
    forall|name: Seq<char>| state.dom().contains(name) ==> consistent(#[trigger] state[name])
}

} // verus!
