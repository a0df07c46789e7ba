//! What holds of every drain of the ingestion queue.

use vstd::prelude::*;
use crate::cook::{cook_order, deps_of};
use crate::model::{
    headroom, ingest_all, ingest_step, is_loaded, is_pass, next_cook_version, propagated,
    resolutions, Ingestion, Outcome, Slots, StoreView,
};
use crate::types::{LoadHandle, Loader, Notification, PrefabView, ProcessedView};

verus! {

/// A record with an output is published for `h`.
pub open spec fn cooked_at(c: Slots, h: LoadHandle) -> bool {
    c.contains_key(h) && c[h].asset.prefab.is_some()
}

/// Whatever was published is still published, and whatever had an output
/// still has one.
pub open spec fn grown(before: Slots, after: Slots) -> bool {
    &&& forall|h: LoadHandle| #[trigger] before.contains_key(h) ==> after.contains_key(h)
    &&& forall|h: LoadHandle| #[trigger] cooked_at(before, h) ==> cooked_at(after, h)
}

/// The record of an envelope that has one.
pub open spec fn record_of(item: ProcessedView) -> PrefabView {
    match item.data {
        Ok(p) => p,
        Err(_) => arbitrary(),
    }
}

/// The envelope holds a record that knows what it builds on, and is to be
/// published as soon as it has been cooked.
pub open spec fn publishable(item: ProcessedView) -> bool {
    item.commit && item.data.is_ok() && record_of(item).dependencies.is_some()
}

/// Every envelope is publishable.
pub open spec fn all_publishable(items: Seq<ProcessedView>) -> bool {
    forall|i: int| 0 <= i < items.len() ==> publishable(#[trigger] items[i])
}

/// The envelope `item` is among `waiting`.
pub open spec fn waits(waiting: Seq<ProcessedView>, item: ProcessedView) -> bool {
    exists|j: int| 0 <= j < waiting.len() && #[trigger] waiting[j] == item
}

/// An envelope for the handle `d` is among `items`, and `d` has a rank
/// below `bound`.
pub open spec fn queued_below(
    items: Seq<ProcessedView>,
    d: LoadHandle,
    rank: spec_fn(LoadHandle) -> nat,
    bound: nat,
) -> bool {
    rank(d) < bound && exists|j: int| 0 <= j < items.len() && (#[trigger] items[j]).handle == d
}

/// Everything that the record of an envelope builds on is published, or
/// is the handle of an envelope of lower rank: the envelopes form no cycle,
/// and nothing that they need is missing.
pub open spec fn supplied(c: Slots, items: Seq<ProcessedView>, rank: spec_fn(LoadHandle) -> nat) -> bool {
    forall|i: int, k: int|
        0 <= i < items.len() && 0 <= k < deps_of(record_of(items[i])).len() ==> c.contains_key(
            #[trigger] deps_of(record_of(items[i]))[k],
        ) || queued_below(items, deps_of(record_of(items[i]))[k], rank, rank(items[i].handle))
}

/// What the `n`-th of `n` passes over the ingestion queue leaves, where
/// nothing else touches the store or the queue in between.
pub open spec fn passes(s: StoreView, items: Seq<ProcessedView>, n: nat) -> Ingestion
    decreases n,
{
    if n == 0 {
        Ingestion { store: s, requeue: items, notices: Seq::empty() }
    } else {
        let before = passes(s, items, (n - 1) as nat);
        ingest_all(before.store, before.requeue)
    }
}

/// A cook during ingestion gives the record the version after that of the
/// record published for its handle, or 1 where none is published, and no
/// published version ever goes down: where the envelope publishes at once,
/// the published version of its handle goes up by exactly one.
pub proof fn lemma_ingest_versions(s: StoreView, item: ProcessedView)
    requires
        headroom(s.committed, 1),
        item.data.is_ok(),
        is_loaded(s.committed, record_of(item)),
    ensures
        ({
            let after = ingest_step(s, item).0;
            let h = item.handle;
            let record = if item.commit {
                after.committed[h]
            } else {
                after.staged[h]
            };
            &&& record.asset.prefab == Some(cook_order(s.committed, record_of(item)))
            &&& record.asset.version == next_cook_version(s.committed, h)
            &&& s.committed.contains_key(h) ==> record.asset.version == s.committed[h].asset.version
                + 1
            &&& !s.committed.contains_key(h) ==> record.asset.version == 1
            &&& forall|o: LoadHandle|
                #![trigger after.committed[o]]
                s.committed.contains_key(o) ==> after.committed.contains_key(o)
                    && after.committed[o].asset.version >= s.committed[o].asset.version
            &&& forall|o: LoadHandle|
                #![trigger after.committed[o]]
                s.committed.contains_key(o) && o != h ==> after.committed[o] == s.committed[o]
        }),
{
}

proof fn lemma_step(s: StoreView, item: ProcessedView)
    requires
        publishable(item),
    ensures
        grown(s.committed, ingest_step(s, item).0.committed),
        is_loaded(s.committed, record_of(item)) ==> cooked_at(
            ingest_step(s, item).0.committed,
            item.handle,
        ) && ingest_step(s, item).1 is Notified,
        !is_loaded(s.committed, record_of(item)) ==> ingest_step(s, item) == (
            s,
            Outcome::Requeued(item),
        ),
{
}

proof fn lemma_loaded_on(before: Slots, after: Slots, p: PrefabView)
    requires
        grown(before, after),
        is_loaded(before, p),
    ensures
        is_loaded(after, p),
{
    assert forall|i: int| 0 <= i < deps_of(p).len() implies after.contains_key(
        #[trigger] deps_of(p)[i],
    ) by {
        assert(before.contains_key(deps_of(p)[i]));
    }
}

proof fn lemma_drain(s: StoreView, items: Seq<ProcessedView>)
    requires
        all_publishable(items),
    ensures
        ({
            let r = ingest_all(s, items);
            &&& grown(s.committed, r.store.committed)
            &&& r.requeue.len() <= items.len()
            &&& forall|j: int| 0 <= j < r.requeue.len() ==> waits(items, #[trigger] r.requeue[j])
            &&& forall|i: int|
                0 <= i < items.len() ==> waits(r.requeue, #[trigger] items[i]) || cooked_at(
                    r.store.committed,
                    items[i].handle,
                )
            &&& forall|i: int|
                0 <= i < items.len() && is_loaded(s.committed, record_of(#[trigger] items[i]))
                    ==> r.requeue.len() < items.len()
        }),
    decreases items.len(),
{
    let r = ingest_all(s, items);
    if items.len() > 0 {
        let front = items.drop_last();
        let last = items.last();
        let before = ingest_all(s, front);
        lemma_drain(s, front);
        lemma_step(before.store, last);
        let (store, outcome) = ingest_step(before.store, last);
        assert(publishable(last));
        assert(r.store == store);
        assert forall|h: LoadHandle| #[trigger] cooked_at(s.committed, h) implies cooked_at(
            r.store.committed,
            h,
        ) by {
            assert(cooked_at(before.store.committed, h));
        }
        assert forall|h: LoadHandle| #[trigger] s.committed.contains_key(h) implies r.store.committed.contains_key(
        h) by {
            assert(before.store.committed.contains_key(h));
        }
        assert forall|j: int| 0 <= j < r.requeue.len() implies waits(
            items,
            #[trigger] r.requeue[j],
        ) by {
            if j < before.requeue.len() {
                assert(r.requeue[j] == before.requeue[j]);
                assert(waits(front, before.requeue[j]));
                let i = choose|i: int| 0 <= i < front.len() && #[trigger] front[i] == before.requeue[j];
                assert(items[i] == r.requeue[j]);
            } else {
                assert(r.requeue[j] == last);
                assert(items[items.len() - 1] == last);
            }
        }
        assert forall|i: int| 0 <= i < items.len() implies waits(r.requeue, #[trigger] items[i])
            || cooked_at(r.store.committed, items[i].handle) by {
            if i < front.len() {
                assert(items[i] == front[i]);
                if waits(before.requeue, front[i]) {
                    let j = choose|j: int|
                        0 <= j < before.requeue.len() && #[trigger] before.requeue[j] == front[i];
                    assert(r.requeue[j] == items[i]);
                } else {
                    assert(cooked_at(before.store.committed, front[i].handle));
                }
            } else {
                if !is_loaded(before.store.committed, record_of(last)) {
                    assert(r.requeue[r.requeue.len() - 1] == last);
                }
            }
        }
        assert forall|i: int|
            0 <= i < items.len() && is_loaded(
                s.committed,
                record_of(#[trigger] items[i]),
            ) implies r.requeue.len() < items.len() by {
            if i < front.len() {
                assert(items[i] == front[i]);
            } else {
                lemma_loaded_on(s.committed, before.store.committed, record_of(last));
            }
        }
    }
}

proof fn lemma_lowest(items: Seq<ProcessedView>, rank: spec_fn(LoadHandle) -> nat) -> (m: int)
    requires
        items.len() > 0,
    ensures
        0 <= m < items.len(),
        forall|j: int| 0 <= j < items.len() ==> rank(items[m].handle) <= rank((#[trigger] items[j]).handle),
    decreases items.len(),
{
    if items.len() == 1 {
        0
    } else {
        let front = items.drop_last();
        let m = lemma_lowest(front, rank);
        let best = if rank(items.last().handle) < rank(front[m].handle) {
            items.len() - 1
        } else {
            m
        };
        assert forall|j: int| 0 <= j < items.len() implies rank(items[best].handle) <= rank(
            (#[trigger] items[j]).handle,
        ) by {
            if j < front.len() {
                assert(front[j] == items[j]);
            }
        }
        best
    }
}

proof fn lemma_pass(s: StoreView, items: Seq<ProcessedView>, rank: spec_fn(LoadHandle) -> nat)
    requires
        all_publishable(items),
        supplied(s.committed, items, rank),
        items.len() > 0,
    ensures
        ({
            let r = ingest_all(s, items);
            &&& r.requeue.len() < items.len()
            &&& all_publishable(r.requeue)
            &&& supplied(r.store.committed, r.requeue, rank)
        }),
{
    let r = ingest_all(s, items);
    lemma_drain(s, items);
    let m = lemma_lowest(items, rank);
    let p = record_of(items[m]);
    assert(is_loaded(s.committed, p)) by {
        assert forall|k: int| 0 <= k < deps_of(p).len() implies s.committed.contains_key(
            #[trigger] deps_of(p)[k],
        ) by {
            let d = deps_of(p)[k];
            if queued_below(items, d, rank, rank(items[m].handle)) {
                let j = choose|j: int| 0 <= j < items.len() && (#[trigger] items[j]).handle == d;
                assert(rank(items[m].handle) <= rank(items[j].handle));
            }
        }
    }
    assert(all_publishable(r.requeue)) by {
        assert forall|j: int| 0 <= j < r.requeue.len() implies publishable(
            #[trigger] r.requeue[j],
        ) by {
            assert(waits(items, r.requeue[j]));
        }
    }
    assert(supplied(r.store.committed, r.requeue, rank)) by {
        assert forall|i: int, k: int|
            0 <= i < r.requeue.len() && 0 <= k < deps_of(
                record_of(r.requeue[i]),
            ).len() implies r.store.committed.contains_key(
            #[trigger] deps_of(record_of(r.requeue[i]))[k],
        ) || queued_below(
            r.requeue,
            deps_of(record_of(r.requeue[i]))[k],
            rank,
            rank(r.requeue[i].handle),
        ) by {
            let item = r.requeue[i];
            let d = deps_of(record_of(item))[k];
            assert(waits(items, item));
            let i0 = choose|i0: int| 0 <= i0 < items.len() && #[trigger] items[i0] == item;
            assert(s.committed.contains_key(deps_of(record_of(items[i0]))[k]) || queued_below(
                items,
                deps_of(record_of(items[i0]))[k],
                rank,
                rank(items[i0].handle),
            ));
            if !s.committed.contains_key(d) {
                let j = choose|j: int| 0 <= j < items.len() && (#[trigger] items[j]).handle == d;
                if waits(r.requeue, items[j]) {
                    let j1 = choose|j1: int|
                        0 <= j1 < r.requeue.len() && #[trigger] r.requeue[j1] == items[j];
                    assert(r.requeue[j1].handle == d);
                } else {
                    assert(cooked_at(r.store.committed, items[j].handle));
                }
            }
        }
    }
}

proof fn lemma_passes(
    s: StoreView,
    items: Seq<ProcessedView>,
    rank: spec_fn(LoadHandle) -> nat,
    n: nat,
)
    requires
        all_publishable(items),
        supplied(s.committed, items, rank),
    ensures
        ({
            let r = passes(s, items, n);
            &&& all_publishable(r.requeue)
            &&& supplied(r.store.committed, r.requeue, rank)
            &&& r.requeue.len() == 0 || r.requeue.len() + n <= items.len()
            &&& grown(s.committed, r.store.committed)
            &&& forall|i: int|
                0 <= i < items.len() ==> waits(r.requeue, #[trigger] items[i]) || cooked_at(
                    r.store.committed,
                    items[i].handle,
                )
        }),
    decreases n,
{
    let r = passes(s, items, n);
    if n == 0 {
        assert forall|i: int| 0 <= i < items.len() implies waits(r.requeue, #[trigger] items[i]) by {
            assert(r.requeue[i] == items[i]);
        }
    } else {
        let before = passes(s, items, (n - 1) as nat);
        lemma_passes(s, items, rank, (n - 1) as nat);
        lemma_drain(before.store, before.requeue);
        if before.requeue.len() > 0 {
            lemma_pass(before.store, before.requeue, rank);
        } else {
            assert(r.requeue.len() == 0);
        }
        assert forall|h: LoadHandle| #[trigger] cooked_at(s.committed, h) implies cooked_at(
            r.store.committed,
            h,
        ) by {
            assert(cooked_at(before.store.committed, h));
        }
        assert forall|h: LoadHandle| #[trigger] s.committed.contains_key(h) implies r.store.committed.contains_key(
        h) by {
            assert(before.store.committed.contains_key(h));
        }
        assert forall|i: int| 0 <= i < items.len() implies waits(r.requeue, #[trigger] items[i])
            || cooked_at(r.store.committed, items[i].handle) by {
            if waits(before.requeue, items[i]) {
                let j = choose|j: int|
                    0 <= j < before.requeue.len() && #[trigger] before.requeue[j] == items[i];
                assert(waits(r.requeue, before.requeue[j]) || cooked_at(
                    r.store.committed,
                    before.requeue[j].handle,
                ));
            } else {
                assert(cooked_at(before.store.committed, items[i].handle));
            }
        }
    }
}

/// Envelopes that form no cycle and lack nothing are all cooked and
/// published after as many passes as there are envelopes, in whatever order
/// they were enqueued: no envelope waits any more, and a record with an
/// output is published for the handle of each.
pub proof fn lemma_all_cooked_in_the_end(
    s: StoreView,
    items: Seq<ProcessedView>,
    rank: spec_fn(LoadHandle) -> nat,
)
    requires
        all_publishable(items),
        supplied(s.committed, items, rank),
    ensures
        passes(s, items, items.len()).requeue.len() == 0,
        forall|i: int|
            0 <= i < items.len() ==> cooked_at(
                passes(s, items, items.len()).store.committed,
                (#[trigger] items[i]).handle,
            ),
        grown(s.committed, passes(s, items, items.len()).store.committed),
{
    lemma_passes(s, items, rank, items.len());
    let r = passes(s, items, items.len());
    assert forall|i: int| 0 <= i < items.len() implies cooked_at(
        r.store.committed,
        (#[trigger] items[i]).handle,
    ) by {
        assert(waits(r.requeue, items[i]) || cooked_at(r.store.committed, items[i].handle));
    }
}

/// A pass makes progress: of envelopes that form no cycle and lack nothing,
/// at least one is cooked and published in every pass, and those that wait
/// still form no cycle and lack nothing.
pub proof fn lemma_pass_makes_progress(
    s: StoreView,
    items: Seq<ProcessedView>,
    rank: spec_fn(LoadHandle) -> nat,
)
    requires
        all_publishable(items),
        supplied(s.committed, items, rank),
        items.len() > 0,
    ensures
        ingest_all(s, items).requeue.len() < items.len(),
        all_publishable(ingest_all(s, items).requeue),
        supplied(ingest_all(s, items).store.committed, ingest_all(s, items).requeue, rank),
        grown(s.committed, ingest_all(s, items).store.committed),
{
    lemma_pass(s, items, rank);
    lemma_drain(s, items);
}

/// Where no change is signalled, a drain of the change signals leaves the
/// published records as they are.
pub proof fn lemma_nothing_to_propagate(c: Slots)
    ensures
        propagated(c, Seq::empty()) == c,
{
}

/// Asking the loader changes no envelope whose record knows what it builds
/// on, and none that holds no record.
pub proof fn lemma_known_dependencies_stay<L: Loader>(
    loader: &L,
    items: Seq<ProcessedView>,
    filled: Seq<ProcessedView>,
)
    requires
        resolutions(loader, items, filled),
        forall|i: int|
            0 <= i < items.len() && (#[trigger] items[i]).data.is_ok() ==> record_of(
                items[i],
            ).dependencies.is_some(),
    ensures
        filled == items,
{
    assert forall|i: int| 0 <= i < items.len() implies filled[i] == items[i] by {
        let before = items[i];
    }
    assert(filled =~= items);
}

/// A pass of the pipeline without change signals, over envelopes whose
/// records know what they build on, is one drain of the ingestion queue,
/// whatever the loader is.
pub proof fn lemma_pass_without_signals<L: Loader>(
    loader: &L,
    s0: StoreView,
    items: Seq<ProcessedView>,
    s1: StoreView,
    waiting: Seq<ProcessedView>,
    notices: Seq<Notification>,
)
    requires
        is_pass(loader, s0, Seq::empty(), items, s1, waiting, notices),
        forall|i: int|
            0 <= i < items.len() && (#[trigger] items[i]).data.is_ok() ==> record_of(
                items[i],
            ).dependencies.is_some(),
    ensures
        ingest_all(s0, items) == (Ingestion { store: s1, requeue: waiting, notices }),
{
    let filled = choose|filled: Seq<ProcessedView>|
        resolutions(loader, items, filled) && #[trigger] ingest_all(
            StoreView { committed: propagated(s0.committed, Seq::empty()), staged: s0.staged },
            filled,
        ) == (Ingestion { store: s1, requeue: waiting, notices });
    lemma_known_dependencies_stay(loader, items, filled);
    lemma_nothing_to_propagate(s0.committed);
}

} // verus!
