//! The devices of one domain, as a mathematical sequence in the order in which
//! they were first seen, and what the events of the bus do to it.

use vstd::prelude::*;
use crate::identity::DeviceId;
use crate::info::DeviceInfo;

verus! {

/// One live device: its driver, its latest announced snapshot, and the time
/// of its latest announcement in milliseconds on the caller's monotonic clock.
pub struct DeviceEntry<D> {
    pub device: D,
    pub info: DeviceInfo,
    pub last_seen: u64,
}

/// An entry leaves the registry at a sweep once more than this many
/// milliseconds have passed since its latest announcement.
pub const STALE_AFTER_MILLIS: u64 = 4000;

/// The time since the latest announcement; a clock reading that lies before
/// the announcement counts as no time at all.
pub open spec fn age(last_seen: u64, now: u64) -> int {
    if now >= last_seen {
        now - last_seen
    } else {
        0
    }
}

/// Whether a device last seen at `last_seen` still counts as alive at `now`.
pub open spec fn spec_is_live(last_seen: u64, now: u64) -> bool {
    age(last_seen, now) <= STALE_AFTER_MILLIS
}

/// Whether a device last seen at `last_seen` still counts as alive at `now`.
#[verifier::when_used_as_spec(spec_is_live)]
pub fn is_live(last_seen: u64, now: u64) -> (live: bool)
    ensures
        live == spec_is_live(last_seen, now),
{
    now < last_seen || now - last_seen <= STALE_AFTER_MILLIS
}

/// Whether the roster holds an entry for `id`.
pub open spec fn knows<D>(roster: Seq<(DeviceId, DeviceEntry<D>)>, id: DeviceId) -> bool {
    exists|i: int| 0 <= i < roster.len() && (#[trigger] roster[i]).0 == id
}

/// Where the entry for `id` stands, for an identity that the roster knows.
pub open spec fn position<D>(roster: Seq<(DeviceId, DeviceEntry<D>)>, id: DeviceId) -> int {
    choose|i: int| 0 <= i < roster.len() && (#[trigger] roster[i]).0 == id
}

/// The entry for `id`, for an identity that the roster knows.
pub open spec fn entry_of<D>(roster: Seq<(DeviceId, DeviceEntry<D>)>, id: DeviceId) -> DeviceEntry<
    D,
> {
    roster[position(roster, id)].1
}

/// No identity stands in the roster twice.
pub open spec fn distinct<D>(roster: Seq<(DeviceId, DeviceEntry<D>)>) -> bool {
    forall|i: int, j: int|
        0 <= i < j < roster.len() ==> (#[trigger] roster[i]).0 != (#[trigger] roster[j]).0
}

/// No serial number stands in the roster in both modes.
pub open spec fn single_mode<D>(roster: Seq<(DeviceId, DeviceEntry<D>)>) -> bool {
    forall|i: int, j: int|
        0 <= i < roster.len() && 0 <= j < roster.len() ==> (#[trigger] roster[i]).0 != (
        #[trigger] roster[j]).0.spec_counterpart()
}

/// The invariant of a roster: one entry per identity, one identity per serial.
pub open spec fn consistent<D>(roster: Seq<(DeviceId, DeviceEntry<D>)>) -> bool {
    distinct(roster) && single_mode(roster)
}

/// The slots that belong to an identity other than `id`.
pub open spec fn is_not<D>(id: DeviceId) -> spec_fn((DeviceId, DeviceEntry<D>)) -> bool {
    |slot: (DeviceId, DeviceEntry<D>)| slot.0 != id
}

/// The slots whose device still counts as alive at `now`.
pub open spec fn live_at<D>(now: u64) -> spec_fn((DeviceId, DeviceEntry<D>)) -> bool {
    |slot: (DeviceId, DeviceEntry<D>)| spec_is_live(slot.1.last_seen, now)
}

/// The roster without the entry for `id`; the others keep their order.
pub open spec fn without<D>(roster: Seq<(DeviceId, DeviceEntry<D>)>, id: DeviceId) -> Seq<
    (DeviceId, DeviceEntry<D>),
> {
    roster.filter(is_not(id))
}

/// The roster after a known identity announced itself again: its snapshot is
/// replaced and its clock restarted, and its driver stays the one it was.
pub open spec fn refreshed<D>(
    roster: Seq<(DeviceId, DeviceEntry<D>)>,
    id: DeviceId,
    info: DeviceInfo,
    now: u64,
) -> Seq<(DeviceId, DeviceEntry<D>)> {
    let at = position(roster, id);
    roster.update(at, (id, DeviceEntry { device: roster[at].1.device, info, last_seen: now }))
}

/// The roster after an unseen identity was given its driver: whatever the
/// same serial held in the other mode is gone, and the new entry stands last.
pub open spec fn installed<D>(
    roster: Seq<(DeviceId, DeviceEntry<D>)>,
    id: DeviceId,
    entry: DeviceEntry<D>,
) -> Seq<(DeviceId, DeviceEntry<D>)> {
    without(roster, id.spec_counterpart()).push((id, entry))
}

/// The roster after the stale entries were swept out at `now`.
pub open spec fn swept<D>(roster: Seq<(DeviceId, DeviceEntry<D>)>, now: u64) -> Seq<
    (DeviceId, DeviceEntry<D>),
> {
    roster.filter(live_at(now))
}

/// In a roster without repeated identities an identity stands where it is found.
pub proof fn lemma_position<D>(roster: Seq<(DeviceId, DeviceEntry<D>)>, at: int)
    requires
        distinct(roster),
        0 <= at < roster.len(),
    ensures
        knows(roster, roster[at].0),
        position(roster, roster[at].0) == at,
        entry_of(roster, roster[at].0) == roster[at].1,
{
    let id = roster[at].0;
    let found = position(roster, id);
    assert(0 <= found < roster.len() && roster[found].0 == id);
    if found < at {
        assert(roster[found].0 != roster[at].0);
    } else if at < found {
        assert(roster[at].0 != roster[found].0);
    }
}

/// What a selection of a consistent roster keeps: consistency, and of every
/// identity exactly the entry it had, if the selection takes that entry.
pub proof fn lemma_selection<D>(
    roster: Seq<(DeviceId, DeviceEntry<D>)>,
    keep: spec_fn((DeviceId, DeviceEntry<D>)) -> bool,
)
    requires
        consistent(roster),
    ensures
        consistent(roster.filter(keep)),
        forall|id: DeviceId| #[trigger]
            knows(roster.filter(keep), id) <==> knows(roster, id) && keep(
                (id, entry_of(roster, id)),
            ),
        forall|id: DeviceId| #[trigger]
            knows(roster.filter(keep), id) ==> entry_of(roster.filter(keep), id) == entry_of(
                roster,
                id,
            ),
    decreases roster.len(),
{
    reveal(Seq::filter);
    let kept = roster.filter(keep);
    if roster.len() == 0 {
    } else {
        let rest = roster.drop_last();
        let last = roster.last();
        lemma_selection(rest, keep);
        let kept_rest = rest.filter(keep);
        assert forall|i: int| 0 <= i < kept_rest.len() implies knows(
            rest,
            (#[trigger] kept_rest[i]).0,
        ) by {
            assert(knows(kept_rest, kept_rest[i].0));
        }
        assert forall|i: int| 0 <= i < kept_rest.len() implies exists|k: int|
            0 <= k < rest.len() && (#[trigger] rest[k]).0 == (#[trigger] kept_rest[i]).0 by {
            assert(knows(rest, kept_rest[i].0));
        }
        assert(distinct(kept)) by {
            assert forall|i: int, j: int| 0 <= i < j < kept.len() implies (#[trigger] kept[i]).0 != (
            #[trigger] kept[j]).0 by {
                if j < kept_rest.len() {
                    assert(kept[i] == kept_rest[i] && kept[j] == kept_rest[j]);
                } else {
                    assert(kept[j] == last);
                    assert(kept[i] == kept_rest[i]);
                    let k = choose|k: int| 0 <= k < rest.len() && (#[trigger] rest[k]).0 == kept_rest[i].0;
                    assert(roster[k] == rest[k]);
                    assert(roster[k].0 != roster[roster.len() - 1].0);
                }
            }
        }
        assert(single_mode(kept)) by {
            assert forall|i: int, j: int| 0 <= i < kept.len() && 0 <= j < kept.len() implies (
            #[trigger] kept[i]).0 != (#[trigger] kept[j]).0.spec_counterpart() by {
                let a = if i < kept_rest.len() {
                    let k = choose|k: int| 0 <= k < rest.len() && (#[trigger] rest[k]).0 == kept_rest[i].0;
                    assert(roster[k] == rest[k]);
                    k
                } else {
                    roster.len() - 1
                };
                let b = if j < kept_rest.len() {
                    let k = choose|k: int| 0 <= k < rest.len() && (#[trigger] rest[k]).0 == kept_rest[j].0;
                    assert(roster[k] == rest[k]);
                    k
                } else {
                    roster.len() - 1
                };
                assert(roster[a].0 == kept[i].0);
                assert(roster[b].0 == kept[j].0);
                assert(roster[a].0 != roster[b].0.spec_counterpart());
            }
        }
        assert forall|id: DeviceId| #[trigger]
            knows(kept, id) <==> knows(roster, id) && keep((id, entry_of(roster, id))) by {
            lemma_selection_one(roster, keep, id);
        }
        assert forall|id: DeviceId| #[trigger] knows(kept, id) implies entry_of(kept, id) == entry_of(
            roster,
            id,
        ) by {
            lemma_selection_one(roster, keep, id);
        }
    }
}

/// What a selection of a roster without repeated identities does to one
/// identity.
proof fn lemma_selection_one<D>(
    roster: Seq<(DeviceId, DeviceEntry<D>)>,
    keep: spec_fn((DeviceId, DeviceEntry<D>)) -> bool,
    id: DeviceId,
)
    requires
        distinct(roster),
    ensures
        knows(roster.filter(keep), id) <==> knows(roster, id) && keep((id, entry_of(roster, id))),
        knows(roster.filter(keep), id) ==> entry_of(roster.filter(keep), id) == entry_of(roster, id),
{
    broadcast use vstd::seq_lib::group_filter_ensures;

    let kept = roster.filter(keep);
    if knows(kept, id) {
        let i = position(kept, id);
        assert(0 <= i < kept.len() && kept[i].0 == id);
        roster.lemma_filter_contains_rev(keep, kept[i]);
        assert(roster.contains(kept[i]));
        let k = choose|k: int| 0 <= k < roster.len() && roster[k] == kept[i];
        lemma_position(roster, k);
        assert(keep(kept[i]));
        assert(kept[i] == (id, entry_of(roster, id)));
    }
    if knows(roster, id) && keep((id, entry_of(roster, id))) {
        let k = position(roster, id);
        assert(0 <= k < roster.len() && roster[k].0 == id);
        assert(roster[k] == (id, entry_of(roster, id)));
        assert(kept.contains(roster[k]));
        let i = choose|i: int| 0 <= i < kept.len() && kept[i] == roster[k];
        assert(kept[i].0 == id);
        let found = position(kept, id);
        assert(0 <= found < kept.len() && kept[found].0 == id);
        roster.lemma_filter_contains_rev(keep, kept[found]);
        let back = choose|k2: int| 0 <= k2 < roster.len() && roster[k2] == kept[found];
        lemma_position(roster, back);
    }
}

/// Taking out an identity that is not there changes nothing.
pub proof fn lemma_without_unknown<D>(roster: Seq<(DeviceId, DeviceEntry<D>)>, id: DeviceId)
    requires
        !knows(roster, id),
    ensures
        without(roster, id) == roster,
    decreases roster.len(),
{
    reveal(Seq::filter);
    if roster.len() > 0 {
        let rest = roster.drop_last();
        assert forall|i: int| 0 <= i < rest.len() implies (#[trigger] rest[i]).0 != id by {
            assert(roster[i] == rest[i]);
        }
        lemma_without_unknown(rest, id);
        assert(roster[roster.len() - 1].0 != id);
        assert(rest.push(roster.last()) =~= roster);
    }
}

/// Taking out the identity that stands at `at` removes that one slot.
pub proof fn lemma_without_known<D>(roster: Seq<(DeviceId, DeviceEntry<D>)>, at: int)
    requires
        distinct(roster),
        0 <= at < roster.len(),
    ensures
        without(roster, roster[at].0) == roster.remove(at),
    decreases roster.len(),
{
    reveal(Seq::filter);
    let id = roster[at].0;
    let rest = roster.drop_last();
    if at == roster.len() - 1 {
        assert forall|i: int| 0 <= i < rest.len() implies (#[trigger] rest[i]).0 != id by {
            assert(roster[i] == rest[i]);
            assert(roster[i].0 != roster[at].0);
        }
        lemma_without_unknown(rest, id);
        assert(roster.remove(at) =~= rest);
    } else {
        assert(rest[at] == roster[at]);
        assert forall|i: int, j: int| 0 <= i < j < rest.len() implies (#[trigger] rest[i]).0 != (
        #[trigger] rest[j]).0 by {
            assert(roster[i] == rest[i] && roster[j] == rest[j]);
        }
        lemma_without_known(rest, at);
        assert(roster[at].0 != roster[roster.len() - 1].0);
        assert(rest.remove(at).push(roster.last()) =~= roster.remove(at));
    }
}

/// Refresh, not create. When a known identity announces itself again, the
/// roster stays consistent and holds the same identities in the same places;
/// the identity's snapshot is the announced one and its clock restarts, its
/// driver is the one it had, and every other entry is untouched.
pub proof fn lemma_refreshed<D>(
    roster: Seq<(DeviceId, DeviceEntry<D>)>,
    id: DeviceId,
    info: DeviceInfo,
    now: u64,
)
    requires
        consistent(roster),
        knows(roster, id),
    ensures
        consistent(refreshed(roster, id, info, now)),
        refreshed(roster, id, info, now).len() == roster.len(),
        forall|i: int|
            0 <= i < roster.len() ==> (#[trigger] refreshed(roster, id, info, now)[i]).0
                == roster[i].0,
        forall|other: DeviceId| #[trigger]
            knows(refreshed(roster, id, info, now), other) <==> knows(roster, other),
        entry_of(refreshed(roster, id, info, now), id) == (DeviceEntry {
            device: entry_of(roster, id).device,
            info,
            last_seen: now,
        }),
        forall|other: DeviceId|
            other != id && knows(roster, other) ==> #[trigger] entry_of(
                refreshed(roster, id, info, now),
                other,
            ) == entry_of(roster, other),
{
    let at = position(roster, id);
    let after = refreshed(roster, id, info, now);
    assert(0 <= at < roster.len() && roster[at].0 == id);
    assert forall|i: int| 0 <= i < roster.len() implies (#[trigger] after[i]).0 == roster[i].0 by {}
    assert(distinct(after)) by {
        assert forall|i: int, j: int| 0 <= i < j < after.len() implies (#[trigger] after[i]).0 != (
        #[trigger] after[j]).0 by {
            assert(roster[i].0 != roster[j].0);
        }
    }
    assert(single_mode(after)) by {
        assert forall|i: int, j: int| 0 <= i < after.len() && 0 <= j < after.len() implies (
        #[trigger] after[i]).0 != (#[trigger] after[j]).0.spec_counterpart() by {
            assert(roster[i].0 != roster[j].0.spec_counterpart());
        }
    }
    assert forall|other: DeviceId| #[trigger] knows(after, other) <==> knows(roster, other) by {
        if knows(after, other) {
            let i = position(after, other);
            assert(roster[i].0 == other);
        }
        if knows(roster, other) {
            let i = position(roster, other);
            assert(after[i].0 == other);
        }
    }
    lemma_position(after, at);
    assert forall|other: DeviceId| other != id && knows(roster, other) implies #[trigger] entry_of(
        after,
        other,
    ) == entry_of(roster, other) by {
        let i = position(roster, other);
        assert(0 <= i < roster.len() && roster[i].0 == other);
        assert(after[i].0 == other);
        lemma_position(after, i);
        assert(after[i] == roster[i]);
    }
}

/// Displacement. When an unseen identity is installed, the roster stays
/// consistent; the identity is known with the entry given, the other mode of
/// its serial number is not known any more, and every other identity is
/// known exactly if it was, with the entry it had.
pub proof fn lemma_installed<D>(
    roster: Seq<(DeviceId, DeviceEntry<D>)>,
    id: DeviceId,
    entry: DeviceEntry<D>,
)
    requires
        consistent(roster),
        !knows(roster, id),
    ensures
        consistent(installed(roster, id, entry)),
        knows(installed(roster, id, entry), id),
        entry_of(installed(roster, id, entry), id) == entry,
        !knows(installed(roster, id, entry), id.spec_counterpart()),
        forall|other: DeviceId|
            other != id && other != id.spec_counterpart() ==> (#[trigger] knows(
                installed(roster, id, entry),
                other,
            ) <==> knows(roster, other)),
        forall|other: DeviceId|
            other != id && other != id.spec_counterpart() && knows(roster, other)
                ==> #[trigger] entry_of(installed(roster, id, entry), other) == entry_of(
                roster,
                other,
            ),
{
    let twin = id.spec_counterpart();
    let keep = is_not::<D>(twin);
    let rest = without(roster, twin);
    let after = installed(roster, id, entry);
    lemma_selection(roster, keep);
    assert(!knows(rest, id));
    assert(!knows(rest, twin)) by {
        if knows(rest, twin) {
            assert(keep((twin, entry_of(roster, twin))));
        }
    }
    assert(after[rest.len() as int] == (id, entry));
    assert forall|i: int| 0 <= i < rest.len() implies #[trigger] after[i] == rest[i] by {}
    assert forall|i: int| 0 <= i < rest.len() implies (#[trigger] after[i]).0 != id && after[i].0
        != twin by {
        assert(rest[i].0 != id);
        assert(rest[i].0 != twin);
    }
    assert(distinct(after)) by {
        assert forall|i: int, j: int| 0 <= i < j < after.len() implies (#[trigger] after[i]).0 != (
        #[trigger] after[j]).0 by {
            if j < rest.len() {
                assert(rest[i].0 != rest[j].0);
            }
        }
    }
    assert(single_mode(after)) by {
        assert forall|i: int, j: int| 0 <= i < after.len() && 0 <= j < after.len() implies (
        #[trigger] after[i]).0 != (#[trigger] after[j]).0.spec_counterpart() by {
            if i < rest.len() && j < rest.len() {
                assert(rest[i].0 != rest[j].0.spec_counterpart());
            }
        }
    }
    lemma_position(after, rest.len() as int);
    assert forall|other: DeviceId| other != id && other != twin implies (#[trigger] knows(
        after,
        other,
    ) <==> knows(roster, other)) by {
        if knows(after, other) {
            let i = position(after, other);
            assert(0 <= i < after.len() && after[i].0 == other);
            assert(rest[i].0 == other);
            assert(knows(rest, other));
        }
        if knows(roster, other) {
            assert(keep((other, entry_of(roster, other))));
            assert(knows(rest, other));
            let i = position(rest, other);
            assert(0 <= i < rest.len() && rest[i].0 == other);
            assert(after[i].0 == other);
        }
    }
    assert forall|other: DeviceId|
        other != id && other != twin && knows(roster, other) implies #[trigger] entry_of(
        after,
        other,
    ) == entry_of(roster, other) by {
        assert(keep((other, entry_of(roster, other))));
        assert(knows(rest, other));
        let i = position(rest, other);
        assert(0 <= i < rest.len() && rest[i].0 == other);
        lemma_position(rest, i);
        assert(after[i] == rest[i]);
        lemma_position(after, i);
    }
}

} // verus!
