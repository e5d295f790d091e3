//! What holds of the registry and of the table of waiters whatever happens
//! on the bus, stated over the same functions as the contracts.

use vstd::prelude::*;
use crate::events::{after, after_all, all_consistent, Event};
use crate::identity::DeviceId;
use crate::roster::{
    age, consistent, entry_of, knows, lemma_installed, lemma_refreshed, lemma_selection, live_at,
    spec_is_live, swept, DeviceEntry, STALE_AFTER_MILLIS,
};
use crate::waiters::{answered, awaits, awaits_other, holds, place, registered, unique, waiting_on};

verus! {

/// Identity uniqueness. Whatever sequence of announcements, ticks and resets
/// a registry goes through, every domain keeps holding each identity at most
/// once and each serial number in at most one of its two modes, and the set
/// of domains stays the one it was.
pub proof fn law_identities_stay_unique<D>(
    state: Map<Seq<char>, Seq<(DeviceId, DeviceEntry<D>)>>,
    events: Seq<Event<D>>,
)
    requires
        all_consistent(state),
    ensures
        all_consistent(after_all(state, events)),
        after_all(state, events).dom() == state.dom(),
    decreases events.len(),
{
    if events.len() > 0 {
        law_identities_stay_unique(state, events.drop_last());
        let before = after_all(state, events.drop_last());
        let now_state = after(before, events.last());
        match events.last() {
            Event::Announce { domain, info, device, now } => {
                if before.dom().contains(domain) && info.serial is Some {
                    let id = info.spec_identity();
                    if knows(before[domain], id) {
                        lemma_refreshed(before[domain], id, info, now);
                    } else {
                        lemma_installed(
                            before[domain],
                            id,
                            DeviceEntry { device, info, last_seen: now },
                        );
                    }
                }
            },
            Event::Tick { now } => {
                assert forall|name: Seq<char>| now_state.dom().contains(name) implies consistent(
                    #[trigger] now_state[name],
                ) by {
                    lemma_selection(before[name], live_at(now));
                }
            },
            Event::Reset => {},
        }
        assert(now_state.dom() =~= state.dom());
    }
}

/// In a consistent roster two different places hold different identities,
/// and even different serial numbers: no serial stands there in both modes.
pub proof fn law_one_entry_per_identity<D>(
    roster: Seq<(DeviceId, DeviceEntry<D>)>,
    first: int,
    second: int,
)
    requires
        consistent(roster),
        0 <= first < roster.len(),
        0 <= second < roster.len(),
        first != second,
    ensures
        roster[first].0 != roster[second].0,
        roster[first].0.spec_serial() != roster[second].0.spec_serial(),
{
    if first < second {
        assert(roster[first].0 != roster[second].0);
    } else {
        assert(roster[second].0 != roster[first].0);
    }
    assert(roster[first].0 != roster[second].0.spec_counterpart());
}

/// Eviction. After a sweep at `now` an identity is known exactly if it was
/// known and no more than `STALE_AFTER_MILLIS` milliseconds have passed
/// since its latest announcement; so an entry older than that is gone, an
/// entry announced within that time is never evicted, and what stays is
/// unchanged.
pub proof fn law_eviction<D>(roster: Seq<(DeviceId, DeviceEntry<D>)>, id: DeviceId, now: u64)
    requires
        consistent(roster),
    ensures
        knows(swept(roster, now), id) <==> knows(roster, id) && age(
            entry_of(roster, id).last_seen,
            now,
        ) <= STALE_AFTER_MILLIS,
        knows(roster, id) && age(entry_of(roster, id).last_seen, now) > STALE_AFTER_MILLIS ==> !knows(
            swept(roster, now),
            id,
        ),
        knows(swept(roster, now), id) ==> entry_of(swept(roster, now), id) == entry_of(roster, id),
{
    lemma_selection(roster, live_at(now));
    assert(live_at::<D>(now)((id, entry_of(roster, id))) == spec_is_live(
        entry_of(roster, id).last_seen,
        now,
    ));
}

/// A selection that would keep every element keeps the sequence as it is.
proof fn lemma_keeps_all<A>(items: Seq<A>, keep: spec_fn(A) -> bool)
    requires
        forall|i: int| 0 <= i < items.len() ==> keep(#[trigger] items[i]),
    ensures
        items.filter(keep) == items,
    decreases items.len(),
{
    reveal(Seq::filter);
    if items.len() > 0 {
        let rest = items.drop_last();
        assert forall|i: int| 0 <= i < rest.len() implies keep(#[trigger] rest[i]) by {
            assert(rest[i] == items[i]);
        }
        lemma_keeps_all(rest, keep);
        assert(keep(items[items.len() - 1]));
        assert(rest.push(items.last()) =~= items);
    }
}

/// A tick is idempotent: a second sweep at the same time removes nothing.
pub proof fn law_tick_idempotent<D>(roster: Seq<(DeviceId, DeviceEntry<D>)>, now: u64)
    ensures
        swept(swept(roster, now), now) == swept(roster, now),
{
    broadcast use vstd::seq_lib::group_filter_ensures;

    lemma_keeps_all(swept(roster, now), live_at(now));
}

/// What a reply takes out of the table and what it leaves: every waiter
/// under `id` is among the answered ones with its token and handle, nothing
/// else is, and the waiters under other identifiers stay, in their order.
pub proof fn law_reply_reaches_every_waiter<H>(table: Seq<(u32, u128, H)>, id: u32)
    ensures
        forall|i: int|
            0 <= i < table.len() && (#[trigger] table[i]).0 == id ==> waiting_on(table, id).contains(
                (table[i].1, table[i].2),
            ),
        forall|k: int|
            0 <= k < waiting_on(table, id).len() ==> table.contains(
                (id, (#[trigger] waiting_on(table, id)[k]).0, waiting_on(table, id)[k].1),
            ),
        forall|i: int| 0 <= i < answered(table, id).len() ==> (#[trigger] answered(table, id)[i]).0 != id,
        forall|i: int|
            0 <= i < table.len() && (#[trigger] table[i]).0 != id ==> answered(table, id).contains(
                table[i],
            ),
        waiting_on(answered(table, id), id).len() == 0,
        waiting_on(table, id).len() + answered(table, id).len() == table.len(),
{
    broadcast use vstd::seq_lib::group_filter_ensures;

    let taken = table.filter(awaits(id));
    let left = answered(table, id);
    assert forall|i: int| 0 <= i < table.len() && (#[trigger] table[i]).0 == id implies waiting_on(
        table,
        id,
    ).contains((table[i].1, table[i].2)) by {
        assert(awaits::<H>(id)(table[i]));
        assert(taken.contains(table[i]));
        let k = choose|k: int| 0 <= k < taken.len() && taken[k] == table[i];
        assert(waiting_on(table, id)[k] == (table[i].1, table[i].2));
    }
    assert forall|k: int| 0 <= k < waiting_on(table, id).len() implies table.contains(
        (id, (#[trigger] waiting_on(table, id)[k]).0, waiting_on(table, id)[k].1),
    ) by {
        assert(awaits::<H>(id)(taken[k]));
        table.lemma_filter_contains_rev(awaits(id), taken[k]);
        assert(taken[k] == (id, taken[k].1, taken[k].2));
    }
    assert forall|i: int| 0 <= i < left.len() implies (#[trigger] left[i]).0 != id by {
        assert(awaits_other::<H>(id)(left[i]));
    }
    assert forall|i: int| 0 <= i < table.len() && (#[trigger] table[i]).0 != id implies left.contains(
        table[i],
    ) by {
        assert(awaits_other::<H>(id)(table[i]));
    }
    left.lemma_all_neg_filter_empty(awaits(id));
    lemma_split(table, id);
}

/// A table splits into the waiters under `id` and the others.
proof fn lemma_split<H>(table: Seq<(u32, u128, H)>, id: u32)
    ensures
        table.filter(awaits(id)).len() + table.filter(awaits_other(id)).len() == table.len(),
    decreases table.len(),
{
    reveal(Seq::filter);
    if table.len() > 0 {
        lemma_split(table.drop_last(), id);
    }
}

/// Where `registered` has put a waiter: under its identifier and token the
/// table now holds the handle given, and whoever waited under another
/// identifier or token still does, with the handle it had.
pub proof fn law_registered<H>(table: Seq<(u32, u128, H)>, id: u32, token: u128, handle: H)
    requires
        unique(table),
    ensures
        unique(registered(table, id, token, handle)),
        registered(table, id, token, handle).contains((id, token, handle)),
        forall|i: int|
            0 <= i < table.len() && ((#[trigger] table[i]).0 != id || table[i].1 != token)
                ==> registered(table, id, token, handle).contains(table[i]),
{
    let after = registered(table, id, token, handle);
    if holds(table, id, token) {
        let at = place(table, id, token);
        assert(0 <= at < table.len() && table[at].0 == id && table[at].1 == token);
        assert(after[at] == (id, token, handle));
        assert forall|i: int, j: int| 0 <= i < j < after.len() implies (#[trigger] after[i]).0 != (
        #[trigger] after[j]).0 || after[i].1 != after[j].1 by {
            assert(table[i].0 != table[j].0 || table[i].1 != table[j].1);
        }
        assert forall|i: int|
            0 <= i < table.len() && ((#[trigger] table[i]).0 != id || table[i].1 != token) implies after.contains(
            table[i],
        ) by {
            assert(after[i] == table[i]);
        }
    } else {
        assert(after[table.len() as int] == (id, token, handle));
        assert forall|i: int, j: int| 0 <= i < j < after.len() implies (#[trigger] after[i]).0 != (
        #[trigger] after[j]).0 || after[i].1 != after[j].1 by {
            if j < table.len() {
                assert(table[i].0 != table[j].0 || table[i].1 != table[j].1);
            } else {
                assert(after[i] == table[i]);
            }
        }
        assert forall|i: int|
            0 <= i < table.len() && ((#[trigger] table[i]).0 != id || table[i].1 != token) implies after.contains(
            table[i],
        ) by {
            assert(after[i] == table[i]);
        }
    }
}

/// Reply fan-out. When two callers have registered under one message
/// identifier with different tokens, one reply with that identifier answers
/// both, and afterwards nobody waits under that identifier.
pub proof fn law_reply_fan_out<H>(
    table: Seq<(u32, u128, H)>,
    id: u32,
    first: (u128, H),
    second: (u128, H),
)
    requires
        unique(table),
        first.0 != second.0,
    ensures
        ({
            let both = registered(registered(table, id, first.0, first.1), id, second.0, second.1);
            &&& waiting_on(both, id).contains(first)
            &&& waiting_on(both, id).contains(second)
            &&& forall|i: int|
                0 <= i < answered(both, id).len() ==> (#[trigger] answered(both, id)[i]).0 != id
            &&& waiting_on(answered(both, id), id).len() == 0
        }),
{
    let one = registered(table, id, first.0, first.1);
    let both = registered(one, id, second.0, second.1);
    law_registered(table, id, first.0, first.1);
    law_registered(one, id, second.0, second.1);
    let a = choose|a: int| 0 <= a < one.len() && one[a] == (id, first.0, first.1);
    assert(one[a].1 != second.0);
    assert(both.contains(one[a]));
    let b = choose|b: int| 0 <= b < both.len() && both[b] == (id, first.0, first.1);
    let c = choose|c: int| 0 <= c < both.len() && both[c] == (id, second.0, second.1);
    law_reply_reaches_every_waiter(both, id);
    assert(both[b].0 == id);
    assert(both[c].0 == id);
}

} // verus!
