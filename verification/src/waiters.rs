//! The callers of one domain that wait for a reply, by the identifier of the
//! message they wait for.

use vstd::prelude::*;

verus! {

/// The waiters under message identifier `id`.
pub open spec fn awaits<H>(id: u32) -> spec_fn((u32, u128, H)) -> bool {
    |waiter: (u32, u128, H)| waiter.0 == id
}

/// The waiters under any identifier but `id`.
pub open spec fn awaits_other<H>(id: u32) -> spec_fn((u32, u128, H)) -> bool {
    |waiter: (u32, u128, H)| waiter.0 != id
}

/// A waiter's token and handle.
pub open spec fn answer_to<H>() -> spec_fn((u32, u128, H)) -> (u128, H) {
    |waiter: (u32, u128, H)| (waiter.1, waiter.2)
}

/// Whether a waiter stands in the table under `id` with `token`.
pub open spec fn holds<H>(table: Seq<(u32, u128, H)>, id: u32, token: u128) -> bool {
    exists|i: int| 0 <= i < table.len() && (#[trigger] table[i]).0 == id && table[i].1 == token
}

/// Where the waiter under `id` with `token` stands, if the table holds it.
pub open spec fn place<H>(table: Seq<(u32, u128, H)>, id: u32, token: u128) -> int {
    choose|i: int| 0 <= i < table.len() && (#[trigger] table[i]).0 == id && table[i].1 == token
}

/// No two waiters share both identifier and token.
pub open spec fn unique<H>(table: Seq<(u32, u128, H)>) -> bool {
    forall|i: int, j: int|
        0 <= i < j < table.len() ==> (#[trigger] table[i]).0 != (#[trigger] table[j]).0
            || table[i].1 != table[j].1
}

/// The tokens and handles that wait under `id`, in the order of registration.
pub open spec fn waiting_on<H>(table: Seq<(u32, u128, H)>, id: u32) -> Seq<(u128, H)> {
    table.filter(awaits(id)).map_values(answer_to())
}

/// The table once everything that waits under `id` was taken out of it.
pub open spec fn answered<H>(table: Seq<(u32, u128, H)>, id: u32) -> Seq<(u32, u128, H)> {
    table.filter(awaits_other(id))
}

/// The table once `handle` waits under `id` with `token`: a waiter that was
/// there under the same identifier and token gives up its place to it.
pub open spec fn registered<H>(table: Seq<(u32, u128, H)>, id: u32, token: u128, handle: H) -> Seq<
    (u32, u128, H),
> {
    if holds(table, id, token) {
        table.update(place(table, id, token), (id, token, handle))
    } else {
        table.push((id, token, handle))
    }
}

/// A selection of a table without repeated waiters has none either.
pub proof fn lemma_unique_selection<H>(
    table: Seq<(u32, u128, H)>,
    keep: spec_fn((u32, u128, H)) -> bool,
)
    requires
        unique(table),
    ensures
        unique(table.filter(keep)),
    decreases table.len(),
{
    reveal(Seq::filter);
    if table.len() > 0 {
        let rest = table.drop_last();
        let kept_rest = rest.filter(keep);
        let kept = table.filter(keep);
        assert forall|i: int, j: int| 0 <= i < j < rest.len() implies (#[trigger] rest[i]).0 != (
        #[trigger] rest[j]).0 || rest[i].1 != rest[j].1 by {
            assert(table[i] == rest[i] && table[j] == rest[j]);
        }
        lemma_unique_selection(rest, keep);
        assert forall|i: int, j: int| 0 <= i < j < kept.len() implies (#[trigger] kept[i]).0 != (
        #[trigger] kept[j]).0 || kept[i].1 != kept[j].1 by {
            if j < kept_rest.len() {
                assert(kept[i] == kept_rest[i] && kept[j] == kept_rest[j]);
            } else {
                assert(kept[i] == kept_rest[i]);
                assert(kept[j] == table.last());
                rest.lemma_filter_contains_rev(keep, kept_rest[i]);
                let k = choose|k: int| 0 <= k < rest.len() && rest[k] == kept_rest[i];
                assert(table[k] == rest[k]);
                assert(table[k].0 != table[table.len() - 1].0 || table[k].1 != table[table.len()
                    - 1].1);
            }
        }
    }
}

/// `send` was given `handle` together with a copy of `message`, and returned
/// `reached`.
pub open spec fn handed<H, M: Clone, F: Fn(H, M) -> bool>(
    message: M,
    handle: H,
    send: &F,
    reached: bool,
) -> bool {
    exists|copy: M| cloned(message, copy) && #[trigger] call_ensures(send, (handle, copy), reached)
}

/// The callers of one domain that wait for a reply. `H` is the single-use
/// handle through which a waiter is answered; the table stores handles and
/// hands them out, and never uses one.
pub struct RepliesWaiting<H> {
    waiting: Vec<(u32, u128, H)>,
}

impl<H> RepliesWaiting<H> {
    /// The waiters as (message identifier, token, handle), in the order of
    /// registration.
    pub closed spec fn view(&self) -> Seq<(u32, u128, H)> {
        self.waiting@
    }

    /// The table's invariant: identifier and token together name one waiter.
    pub open spec fn wf(&self) -> bool {
        unique(self@)
    }

    /// A table in which nobody waits.
    pub fn new() -> (table: Self)
        ensures
            table.wf(),
            table@ == Seq::<(u32, u128, H)>::empty(),
    {
        RepliesWaiting { waiting: Vec::new() }
    }

    /// How many waiters the table holds.
    pub fn len(&self) -> (n: usize)
        ensures
            n == self@.len(),
    {
        self.waiting.len()
    }

    /// Lets `handle` wait for a message with identifier `id`, under a token
    /// that tells it from the other waiters for that identifier. A handle
    /// that waited under the same identifier and token is displaced and
    /// comes back.
    pub fn register(&mut self, id: u32, token: u128, handle: H) -> (displaced: Option<H>)
        requires
            old(self).wf(),
        ensures
            final(self).wf(),
            final(self)@ == registered(old(self)@, id, token, handle),
            holds(old(self)@, id, token) ==> displaced == Some(
                old(self)@[place(old(self)@, id, token)].2,
            ),
            !holds(old(self)@, id, token) ==> displaced is None,
    {
        let mut at: usize = 0;
        while at < self.waiting.len()
            invariant
                old(self).wf(),
                self.waiting@ == old(self).waiting@,
                at <= self.waiting@.len(),
                forall|i: int|
                    0 <= i < at ==> (#[trigger] self.waiting@[i]).0 != id || self.waiting@[i].1
                        != token,
            decreases self.waiting@.len() - at,
        {
            if self.waiting[at].0 == id && self.waiting[at].1 == token {
                proof {
                    let found = place(self@, id, token);
                    assert(0 <= found < self@.len() && self@[found].0 == id && self@[found].1
                        == token);
                    if found < at {
                        assert(self@[found].0 != self@[at as int].0 || self@[found].1
                            != self@[at as int].1);
                    } else if at < found {
                        assert(self@[at as int].0 != self@[found].0 || self@[at as int].1
                            != self@[found].1);
                    }
                }
                // The new waiter goes to the end and from there into the place
                // of the old one, which comes out.
                self.waiting.push((id, token, handle));
                let (_, _, displaced) = self.waiting.swap_remove(at);
                proof {
                    assert(self@ =~= old(self)@.update(at as int, (id, token, handle)));
                    assert forall|i: int, j: int| 0 <= i < j < self@.len() implies (
                    #[trigger] self@[i]).0 != (#[trigger] self@[j]).0 || self@[i].1
                        != self@[j].1 by {
                        assert(old(self)@[i].0 != old(self)@[j].0 || old(self)@[i].1
                            != old(self)@[j].1);
                    }
                }
                return Some(displaced);
            }
            at += 1;
        }
        self.waiting.push((id, token, handle));
        proof {
            assert forall|i: int, j: int| 0 <= i < j < self@.len() implies (#[trigger] self@[i]).0
                != (#[trigger] self@[j]).0 || self@[i].1 != self@[j].1 by {
                if j < old(self)@.len() {
                    assert(old(self)@[i].0 != old(self)@[j].0 || old(self)@[i].1
                        != old(self)@[j].1);
                } else {
                    assert(self@[i] == old(self)@[i]);
                }
            }
        }
        None
    }

    /// Whether anybody waits for a message with identifier `id`.
    pub fn is_waiting(&self, id: u32) -> (yes: bool)
        ensures
            yes == (exists|i: int| 0 <= i < self@.len() && (#[trigger] self@[i]).0 == id),
    {
        let mut at: usize = 0;
        while at < self.waiting.len()
            invariant
                at <= self.waiting@.len(),
                forall|i: int| 0 <= i < at ==> (#[trigger] self.waiting@[i]).0 != id,
            decreases self.waiting@.len() - at,
        {
            if self.waiting[at].0 == id {
                assert(self@[at as int].0 == id);
                return true;
            }
            at += 1;
        }
        false
    }

    /// Takes out everything that waits for a message with identifier `id`:
    /// the tokens and handles come back in the order of registration, and
    /// the waiters under other identifiers stay as they are.
    pub fn take(&mut self, id: u32) -> (taken: Vec<(u128, H)>)
        requires
            old(self).wf(),
        ensures
            final(self).wf(),
            taken@ == waiting_on(old(self)@, id),
            final(self)@ == answered(old(self)@, id),
    {
        let ghost table = self.waiting@;
        let ghost scanned: int = 0;
        let mut taken: Vec<(u128, H)> = Vec::new();
        let mut at: usize = 0;
        proof {
            reveal(Seq::filter);
            assert(table.take(0).filter(awaits_other(id)) =~= Seq::empty());
            assert(table.take(0).filter(awaits(id)).map_values(answer_to()) =~= Seq::empty());
            assert(table.skip(0) =~= table);
        }
        while at < self.waiting.len()
            invariant
                0 <= scanned <= table.len(),
                at == table.take(scanned).filter(awaits_other(id)).len(),
                self.waiting@ == table.take(scanned).filter(awaits_other(id)) + table.skip(scanned),
                taken@ == table.take(scanned).filter(awaits(id)).map_values(answer_to()),
            decreases table.len() - scanned,
        {
            let ghost kept = table.take(scanned).filter(awaits_other(id));
            let ghost out = table.take(scanned).filter(awaits(id));
            proof {
                assert(self.waiting@[at as int] == table[scanned]);
                assert(table.take(scanned + 1) =~= table.take(scanned).push(table[scanned]));
                table.take(scanned).lemma_filter_push(table[scanned], awaits_other(id));
                table.take(scanned).lemma_filter_push(table[scanned], awaits(id));
            }
            if self.waiting[at].0 == id {
                let (_, token, handle) = self.waiting.remove(at);
                taken.push((token, handle));
                proof {
                    assert((kept + table.skip(scanned)).remove(at as int) =~= kept + table.skip(
                        scanned + 1,
                    ));
                    assert(out.push(table[scanned]).map_values(answer_to()) =~= out.map_values(
                        answer_to(),
                    ).push((table[scanned].1, table[scanned].2)));
                }
            } else {
                proof {
                    assert(kept.push(table[scanned]) + table.skip(scanned + 1) =~= kept
                        + table.skip(scanned));
                }
                at += 1;
            }
            proof {
                scanned = scanned + 1;
            }
        }
        proof {
            assert(table.take(scanned) =~= table);
            assert(self.waiting@ =~= answered(table, id));
            lemma_unique_selection(table, awaits_other(id));
        }
        taken
    }
}

/// Hands each of `replies` a copy of `message` through `send`, in the order
/// given, and reports for each token what `send` returned. Every waiter gets
/// its turn whatever `send` returned for the others: a waiter whose caller
/// has given up does not keep the reply from the rest.
pub fn deliver<H, M: Clone, F: Fn(H, M) -> bool>(
    replies: Vec<(u128, H)>,
    message: &M,
    send: &F,
) -> (delivered: Vec<(u128, bool)>)
    requires
        forall|handle: H, copy: M| call_requires(send, (handle, copy)),
    ensures
        delivered@.len() == replies@.len(),
        forall|i: int|
            0 <= i < replies@.len() ==> (#[trigger] delivered@[i]).0 == replies@[i].0
                && handed(*message, replies@[i].1, send, delivered@[i].1),
{
    let ghost all = replies@;
    let mut replies = replies;
    let mut delivered: Vec<(u128, bool)> = Vec::new();
    while replies.len() > 0
        invariant
            forall|handle: H, copy: M| call_requires(send, (handle, copy)),
            delivered@.len() + replies@.len() == all.len(),
            replies@ == all.skip(delivered@.len() as int),
            forall|i: int|
                0 <= i < delivered@.len() ==> (#[trigger] delivered@[i]).0 == all[i].0 && handed(
                    *message,
                    all[i].1,
                    send,
                    delivered@[i].1,
                ),
        decreases replies@.len(),
    {
        let ghost done = delivered@.len() as int;
        let (token, handle) = replies.remove(0);
        let copy = message.clone();
        let reached = send(handle, copy);
        delivered.push((token, reached));
        proof {
            assert(cloned(*message, copy) && call_ensures(send, (handle, copy), reached));
            assert(all.skip(done).remove(0) =~= all.skip(done + 1));
        }
    }
    delivered
}

} // verus!
