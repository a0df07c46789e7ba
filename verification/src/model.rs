//! The mathematical model of a store of prefabs.

use vstd::prelude::*;
use crate::storage::{AssetState, AssetStorage};
use crate::cook::cook_order;
use crate::types::{
    LoadHandle, Loader, Notification, Prefab, PrefabUuid, PrefabView, ProcessedView,
};

verus! {

/// A record in the store: the store's own version of it, and the record.
pub ghost struct Slot {
    pub version: u32,
    pub asset: PrefabView,
}

/// Records by handle.
pub type Slots = Map<LoadHandle, Slot>;

/// What a store of prefabs holds.
pub ghost struct StoreView {
    pub committed: Slots,
    pub staged: Slots,
}

/// The model of one of the two maps of a store.
pub open spec fn slots_of(held: Map<LoadHandle, AssetState<Prefab>>) -> Slots {
    Map::new(
        |h: LoadHandle| held.contains_key(h),
        |h: LoadHandle| Slot { version: held[h].version, asset: held[h].asset@ },
    )
}

/// The model of a store.
pub open spec fn store_view(storage: &AssetStorage<Prefab>) -> StoreView {
    StoreView { committed: slots_of(storage.committed()), staged: slots_of(storage.staged()) }
}

/// Every record knows the handles of what it builds on.
pub open spec fn resolved(slots: Slots) -> bool {
    forall|h: LoadHandle| #[trigger] slots.contains_key(h) ==> slots[h].asset.dependencies.is_some()
}

/// Every record has room for `n` more bumps of its version.
pub open spec fn headroom(slots: Slots, n: nat) -> bool {
    forall|h: LoadHandle| #[trigger]
        slots.contains_key(h) ==> slots[h].asset.version + n <= u32::MAX
}

/// A pass may start: every published record knows the handles of what it
/// builds on, and every version has room for the cooks of a pass that
/// follows `signals` change signals and looks at `envelopes` envelopes.
pub open spec fn fit_for_pass(c: Slots, signals: nat, envelopes: nat) -> bool {
    resolved(c) && envelopes <= u32::MAX && headroom(c, signals + c.dom().len() + envelopes)
}

/// A cooked output, and the handle of the record that it is for.
pub ghost struct Update {
    pub handle: LoadHandle,
    pub cooked: Seq<PrefabUuid>,
}

/// A record after a cook: the new output, and the next version.
pub open spec fn recooked(slot: Slot, cooked: Seq<PrefabUuid>) -> Slot {
    Slot {
        version: slot.version,
        asset: PrefabView {
            prefab: Some(cooked),
            version: (slot.asset.version + 1) as u32,
            ..slot.asset
        },
    }
}

/// The records after one update has been written in place.
pub open spec fn apply_update(c: Slots, u: Update) -> Slots {
    if c.contains_key(u.handle) {
        c.insert(u.handle, recooked(c[u.handle], u.cooked))
    } else {
        c
    }
}

/// The records after the updates have been written in place, first to last.
pub open spec fn apply_updates(c: Slots, updates: Seq<Update>) -> Slots
    decreases updates.len(),
{
    if updates.len() == 0 {
        c
    } else {
        apply_update(apply_updates(c, updates.drop_last()), updates.last())
    }
}

/// The dependers of the record published for `h`; none where there is no
/// such record.
pub open spec fn dependers_of(c: Slots, h: LoadHandle) -> Seq<LoadHandle> {
    if c.contains_key(h) {
        c[h].asset.dependers
    } else {
        Seq::empty()
    }
}

/// What going through the dependers of a changed record gives: the handles
/// scheduled in this pass, those newly scheduled, and the outputs of the
/// cooks.
pub ghost struct Scan {
    pub visited: Set<LoadHandle>,
    pub pushes: Seq<LoadHandle>,
    pub updates: Seq<Update>,
}

/// Goes through `dependers`, first to last. A depender without a published
/// record is passed over. Any other is cooked over the records `c`, and is
/// scheduled unless this pass has scheduled it before.
pub open spec fn scan(c: Slots, dependers: Seq<LoadHandle>, visited: Set<LoadHandle>) -> Scan
    decreases dependers.len(),
{
    if dependers.len() == 0 {
        Scan { visited, pushes: Seq::empty(), updates: Seq::empty() }
    } else {
        let before = scan(c, dependers.drop_last(), visited);
        let w = dependers.last();
        if c.contains_key(w) {
            Scan {
                visited: before.visited.insert(w),
                pushes: if before.visited.contains(w) {
                    before.pushes
                } else {
                    before.pushes.push(w)
                },
                updates: before.updates.push(
                    Update { handle: w, cooked: cook_order(c, c[w].asset) },
                ),
            }
        } else {
            before
        }
    }
}

/// The published records after the change signals `changed` have been
/// followed: the dependers of the record at the head are cooked again, those
/// not yet scheduled in this pass join the tail, and so on until no signal is
/// left. `steps` bounds the number of signals followed.
pub open spec fn propagate(
    c: Slots,
    changed: Seq<LoadHandle>,
    visited: Set<LoadHandle>,
    steps: nat,
) -> Slots
    decreases steps,
{
    if steps == 0 || changed.len() == 0 {
        c
    } else {
        let found = scan(c, dependers_of(c, changed[0]), visited);
        propagate(
            apply_updates(c, found.updates),
            changed.skip(1) + found.pushes,
            found.visited,
            (steps - 1) as nat,
        )
    }
}

/// The published records after one drain of the change signals. A pass
/// schedules no handle twice, so it follows fewer signals than the bound
/// given here.
pub open spec fn propagated(c: Slots, changed: Seq<LoadHandle>) -> Slots {
    propagate(c, changed, Set::empty(), changed.len() + c.dom().len())
}

/// Whether a record is ready to be cooked: everything it builds on is
/// published.
pub open spec fn is_loaded(c: Slots, p: PrefabView) -> bool {
    forall|i: int|
        0 <= i < crate::cook::deps_of(p).len() ==> c.contains_key(
            #[trigger] crate::cook::deps_of(p)[i],
        )
}

/// The version of the next cook of the record at `h`.
pub open spec fn next_cook_version(c: Slots, h: LoadHandle) -> u32 {
    if c.contains_key(h) {
        (c[h].asset.version + 1) as u32
    } else {
        1
    }
}

/// The store after `commit_asset(h, version)`.
pub open spec fn committed_store(s: StoreView, h: LoadHandle, version: u32) -> StoreView {
    if s.staged.contains_key(h) && s.staged[h].version == version {
        StoreView { committed: s.committed.insert(h, s.staged[h]), staged: s.staged.remove(h) }
    } else {
        s
    }
}

/// What became of an envelope.
pub ghost enum Outcome {
    /// It waits for another pass.
    Requeued(ProcessedView),
    /// It is done with, and whoever asked for the load is told how it ended.
    Notified(Notification),
}

/// The store after one envelope has been looked at, and what became of the
/// envelope.
pub open spec fn ingest_step(s: StoreView, item: ProcessedView) -> (StoreView, Outcome) {
    match item.data {
        Err(e) => (
            s,
            Outcome::Notified(Notification { load_notifier: item.load_notifier, result: Err(e) }),
        ),
        Ok(p) => if is_loaded(s.committed, p) {
            let record = PrefabView {
                prefab: Some(cook_order(s.committed, p)),
                version: next_cook_version(s.committed, item.handle),
                ..p
            };
            let staged = StoreView {
                committed: s.committed,
                staged: s.staged.insert(item.handle, Slot { version: item.version, asset: record }),
            };
            (
                if item.commit {
                    committed_store(staged, item.handle, item.version)
                } else {
                    staged
                },
                Outcome::Notified(
                    Notification { load_notifier: item.load_notifier, result: Ok(()) },
                ),
            )
        } else {
            (s, Outcome::Requeued(item))
        },
    }
}

/// What one drain of the ingestion queue leaves.
pub ghost struct Ingestion {
    pub store: StoreView,
    pub requeue: Seq<ProcessedView>,
    pub notices: Seq<Notification>,
}

/// The store after the envelopes `items` have been looked at, first to
/// last, with the envelopes that wait for another pass and the outcomes to
/// report, each in the order of the envelopes.
pub open spec fn ingest_all(s: StoreView, items: Seq<ProcessedView>) -> Ingestion
    decreases items.len(),
{
    if items.len() == 0 {
        Ingestion { store: s, requeue: Seq::empty(), notices: Seq::empty() }
    } else {
        let before = ingest_all(s, items.drop_last());
        let (store, outcome) = ingest_step(before.store, items.last());
        match outcome {
            Outcome::Requeued(item) => Ingestion {
                store,
                requeue: before.requeue.push(item),
                notices: before.notices,
            },
            Outcome::Notified(notice) => Ingestion {
                store,
                requeue: before.requeue,
                notices: before.notices.push(notice),
            },
        }
    }
}

/// How a record looks after `loader` has been asked for its dependencies:
/// one that knew them before is unchanged; any other has, for each prefab
/// that it names, a handle that the loader gives for it, in the same order,
/// and is unchanged otherwise.
pub open spec fn resolution<L: Loader>(loader: &L, before: PrefabView, after: PrefabView) -> bool {
    match before.dependencies {
        Some(_) => after == before,
        None => match after.dependencies {
            Some(handles) => handles.len() == before.prefab_refs.len() && (forall|i: int|
                0 <= i < handles.len() ==> loader.hands_out(
                    before.prefab_refs[i],
                    #[trigger] handles[i],
                )) && after == (PrefabView { dependencies: Some(handles), ..before }),
            None => false,
        },
    }
}

/// How an envelope looks after the dependencies of its record have been
/// asked for.
pub open spec fn item_resolution<L: Loader>(
    loader: &L,
    before: ProcessedView,
    after: ProcessedView,
) -> bool {
    match before.data {
        Err(_) => after == before,
        Ok(p) => match after.data {
            Ok(q) => resolution(loader, p, q) && after == (ProcessedView { data: Ok(q), ..before }),
            Err(_) => false,
        },
    }
}

/// `after` holds the envelopes of `before`, each after the dependencies of
/// its record have been asked for.
pub open spec fn resolutions<L: Loader>(
    loader: &L,
    before: Seq<ProcessedView>,
    after: Seq<ProcessedView>,
) -> bool {
    after.len() == before.len() && forall|i: int|
        0 <= i < before.len() ==> item_resolution(loader, #[trigger] before[i], after[i])
}

/// One pass of the pipeline has led from the store `s0`, the change signals
/// `changed0` and the envelopes `pending0` to the store `s1`, the envelopes
/// `pending1` and the outcomes `notices`: the signals were followed, `loader`
/// was asked for the dependencies that no record knew, and the envelopes were
/// looked at, first to last.
pub open spec fn is_pass<L: Loader>(
    loader: &L,
    s0: StoreView,
    changed0: Seq<LoadHandle>,
    pending0: Seq<ProcessedView>,
    s1: StoreView,
    pending1: Seq<ProcessedView>,
    notices: Seq<Notification>,
) -> bool {
    exists|filled: Seq<ProcessedView>|
        resolutions(loader, pending0, filled) && #[trigger] ingest_all(
            StoreView { committed: propagated(s0.committed, changed0), staged: s0.staged },
            filled,
        ) == (Ingestion { store: s1, requeue: pending1, notices })
}

} // verus!
