//! The ingestion queue, the change propagator and the step that drives them.

use crossbeam_queue::SegQueue;
use fnv::FnvHashSet;
use vstd::prelude::*;
use vstd::set_lib::lemma_len_subset;
use crate::cook::cook_prefab;
use crate::fifo::{
    changed_items, len_changed, len_processed, new_changed, new_processed, pop_changed,
    pop_processed, processed_items, push_changed, push_processed,
};
use crate::idset::fnv_insert;
use crate::cook::deps_of;
use crate::model::{
    apply_update, apply_updates, dependers_of, fit_for_pass, headroom, ingest_all, ingest_step,
    is_loaded, is_pass, item_resolution, propagate, propagated, resolution, resolutions, resolved,
    scan, store_view, Ingestion, Outcome, Scan, Slot, Update,
};
use crate::storage::AssetStorage;
use crate::types::{
    CookedPrefab, LoadError, LoadHandle, LoadNotifier, Loader, Notification, Prefab, PrefabView,
    Processed, ProcessedView, ProcessingState,
};

verus! {

broadcast use vstd::std_specs::hash::group_hash_axioms;

/// The envelopes that wait to be looked at, and the handles of the records
/// whose published version has changed.
pub struct PrefabProcessingQueue {
    processed: SegQueue<Processed>,
    changed: SegQueue<LoadHandle>,
}

/// What became of an envelope.
pub enum Ingested {
    /// It waits for another pass.
    Requeued(Processed),
    /// It is done with, and whoever asked for the load is told how it ended.
    Notified(Notification),
}

impl View for Ingested {
    type V = Outcome;

    open spec fn view(&self) -> Outcome {
        match self {
            Ingested::Requeued(item) => Outcome::Requeued(item@),
            Ingested::Notified(notice) => Outcome::Notified(*notice),
        }
    }
}

/// Asks `loader` for the handles of the prefabs that `prefab` names, in
/// their order, unless the record knows them already.
pub fn resolve_dependencies<L: Loader>(prefab: Prefab, loader: &L) -> (out: Prefab)
    ensures
        resolution(loader, prefab@, out@),
{
    let Prefab { raw_prefab, prefab: cooked, dependencies, dependers, version } = prefab;
    let dependencies = match dependencies {
        Some(handles) => handles,
        None => {
            let mut handles: Vec<LoadHandle> = Vec::new();
            let mut i: usize = 0;
            while i < raw_prefab.prefab_refs.len()
                invariant
                    i <= raw_prefab.prefab_refs@.len(),
                    handles@.len() == i,
                    forall|j: int|
                        0 <= j < i ==> loader.hands_out(
                            raw_prefab.prefab_refs@[j],
                            #[trigger] handles@[j],
                        ),
                decreases raw_prefab.prefab_refs@.len() - i,
            {
                handles.push(loader.load_asset(raw_prefab.prefab_refs[i]));
                i += 1;
            }
            handles
        },
    };
    Prefab { raw_prefab, prefab: cooked, dependencies: Some(dependencies), dependers, version }
}

/// Tells whether everything that `prefab` builds on is published.
pub fn loading_state(prefab: Prefab, storage: &AssetStorage<Prefab>) -> (state: ProcessingState<
    Prefab,
    Prefab,
>)
    requires
        prefab.dependencies.is_some(),
    ensures
        match state {
            ProcessingState::Loaded(p) => p == prefab && is_loaded(
                store_view(storage).committed,
                prefab@,
            ),
            ProcessingState::Loading(p) => p == prefab && !is_loaded(
                store_view(storage).committed,
                prefab@,
            ),
        },
{
    let ghost c = store_view(storage).committed;
    let ghost deps = deps_of(prefab@);
    let mut all_published = true;
    match &prefab.dependencies {
        Some(handles) => {
            let mut i: usize = 0;
            while i < handles.len()
                invariant
                    c == store_view(storage).committed,
                    handles@ == deps,
                    i <= deps.len(),
                    all_published <==> forall|j: int| 0 <= j < i ==> c.contains_key(#[trigger] deps[j]),
                decreases deps.len() - i,
            {
                if !storage.contains(handles[i]) {
                    all_published = false;
                }
                i += 1;
            }
        },
        None => {},
    }
    if all_published {
        ProcessingState::Loaded(prefab)
    } else {
        ProcessingState::Loading(prefab)
    }
}

/// Looks at one envelope. A failed load is reported. A record that builds
/// on something unpublished goes back unchanged. Any other is reported as
/// loaded, cooked over what is published, given the version after that of the
/// record published under its handle (1 where there is none), and staged;
/// where the envelope says so it is published at once.
pub fn ingest(storage: &mut AssetStorage<Prefab>, item: Processed) -> (outcome: Ingested)
    requires
        item.data matches Ok(p) ==> p.dependencies.is_some(),
        resolved(store_view(old(storage)).committed),
        headroom(store_view(old(storage)).committed, 1),
    ensures
        (store_view(final(storage)), outcome@) == ingest_step(store_view(old(storage)), item@),
{
    let ghost s = store_view(storage);
    let Processed { data, handle, load_notifier, version, commit } = item;
    match data {
        Err(e) => Ingested::Notified(load_notifier.error(e)),
        Ok(prefab) => {
            match loading_state(prefab, storage) {
                ProcessingState::Loading(waiting) => Ingested::Requeued(
                    Processed { data: Ok(waiting), handle, load_notifier, version, commit },
                ),
                ProcessingState::Loaded(loaded) => {
                    let notice = load_notifier.complete();
                    let cooked = cook_prefab(&loaded, storage);
                    let cook_version: u32 = match storage.get_for_load_handle(handle) {
                        Some(published) => {
                            proof {
                                assert(s.committed.contains_key(handle));
                            }
                            published.version + 1
                        },
                        None => 1,
                    };
                    let Prefab { raw_prefab, prefab: _, dependencies, dependers, version: _ } =
                        loaded;
                    let record = Prefab {
                        raw_prefab,
                        prefab: Some(cooked),
                        dependencies,
                        dependers,
                        version: cook_version,
                    };
                    storage.update_asset(handle, record, version);
                    proof {
                        assert(store_view(storage).committed =~= s.committed);
                        assert(store_view(storage).staged =~= s.staged.insert(
                            handle,
                            Slot { version, asset: record@ },
                        ));
                    }
                    if commit {
                        let ghost staged = store_view(storage);
                        storage.commit_asset(handle, version);
                        proof {
                            assert(store_view(storage).committed =~= staged.committed.insert(
                                handle,
                                staged.staged[handle],
                            ));
                            assert(store_view(storage).staged =~= staged.staged.remove(handle));
                        }
                    }
                    Ingested::Notified(notice)
                },
            }
        },
    }
}

impl Default for PrefabProcessingQueue {
    fn default() -> (q: Self)
        ensures
            q.pending() == Seq::<Processed>::empty(),
            q.changed() == Seq::<LoadHandle>::empty(),
    {
        PrefabProcessingQueue::new()
    }
}

/// The outputs of a batch of cooks, as mathematical values.
spec fn updates_view(updates: Seq<(LoadHandle, CookedPrefab)>) -> Seq<Update> {
    updates.map_values(
        |u: (LoadHandle, CookedPrefab)| Update { handle: u.0, cooked: u.1.cook_order@ },
    )
}

impl PrefabProcessingQueue {
    /// The envelopes in the ingestion queue, oldest first.
    pub closed spec fn pending(&self) -> Seq<Processed> {
        processed_items(self.processed)
    }

    /// The change signals that wait to be followed, oldest first.
    pub closed spec fn changed(&self) -> Seq<LoadHandle> {
        changed_items(self.changed)
    }

    /// The envelopes in the ingestion queue, as mathematical values.
    pub open spec fn pending_view(&self) -> Seq<ProcessedView> {
        self.pending().map_values(|item: Processed| item@)
    }

    /// A queue that holds nothing.
    pub fn new() -> (q: Self)
        ensures
            q.pending() == Seq::<Processed>::empty(),
            q.changed() == Seq::<LoadHandle>::empty(),
    {
        PrefabProcessingQueue { processed: new_processed(), changed: new_changed() }
    }

    /// Enqueues a decoded record for `handle`, to be staged under `version`.
    pub fn enqueue(&mut self, handle: LoadHandle, data: Prefab, version: u32)
        ensures
            final(self).pending() == old(self).pending().push(
                Processed {
                    data: Ok(data),
                    handle,
                    load_notifier: LoadNotifier { load_handle: handle },
                    version,
                    commit: false,
                },
            ),
            final(self).changed() == old(self).changed(),
    {
        self.enqueue_processed(Ok(data), handle, LoadNotifier::new(handle), version, false);
    }

    /// Enqueues an envelope: a record or the reason why there is none, where
    /// it goes, whom to tell, and how storage is to hold it.
    pub fn enqueue_processed(
        &mut self,
        data: Result<Prefab, LoadError>,
        handle: LoadHandle,
        load_notifier: LoadNotifier,
        version: u32,
        commit: bool,
    )
        ensures
            final(self).pending() == old(self).pending().push(
                Processed { data, handle, load_notifier, version, commit },
            ),
            final(self).changed() == old(self).changed(),
    {
        push_processed(
            &mut self.processed,
            Processed { data, handle, load_notifier, version, commit },
        );
    }

    /// Signals that the published version of the record at `handle` has
    /// changed.
    pub fn enqueue_changed(&mut self, handle: LoadHandle)
        ensures
            final(self).changed() == old(self).changed().push(handle),
            final(self).pending() == old(self).pending(),
    {
        push_changed(&mut self.changed, handle);
    }

    /// Follows the change signals until none is left: the dependers of each
    /// changed record are cooked again over what is published, their outputs
    /// and next versions are written in place, and each depender is in turn
    /// signalled as changed, once in a pass.
    pub fn propagate_changes(&mut self, storage: &mut AssetStorage<Prefab>)
        requires
            resolved(store_view(old(storage)).committed),
            headroom(
                store_view(old(storage)).committed,
                old(self).changed().len() + store_view(old(storage)).committed.dom().len(),
            ),
        ensures
            store_view(final(storage)).committed == propagated(
                store_view(old(storage)).committed,
                old(self).changed(),
            ),
            store_view(final(storage)).staged == store_view(old(storage)).staged,
            final(self).changed() == Seq::<LoadHandle>::empty(),
            final(self).pending() == old(self).pending(),
            store_view(final(storage)).committed.dom() == store_view(old(storage)).committed.dom(),
            resolved(store_view(final(storage)).committed),
            forall|h: LoadHandle| #[trigger]
                store_view(old(storage)).committed.contains_key(h) ==> store_view(
                    final(storage),
                ).committed[h].asset.version <= store_view(old(storage)).committed[h].asset.version
                    + old(self).changed().len() + store_view(old(storage)).committed.dom().len(),
    {
        let ghost c0 = store_view(storage).committed;
        let ghost staged0 = store_view(storage).staged;
        let ghost changed0 = self.changed();
        let ghost steps0: nat = changed0.len() + c0.dom().len();
        let ghost mut steps: nat = steps0;
        let mut visited: FnvHashSet<LoadHandle> = FnvHashSet::default();
        proof {
            storage.lemma_finite();
            assert(c0.dom() =~= storage.committed().dom());
        }
        loop
            invariant
                store_view(storage).staged == staged0,
                store_view(storage).committed.dom() == c0.dom(),
                c0.dom().finite(),
                resolved(store_view(storage).committed),
                visited@.finite(),
                visited@.subset_of(c0.dom()),
                self.changed().len() + c0.dom().len() - visited@.len() <= steps,
                forall|h: LoadHandle| #[trigger]
                    c0.contains_key(h) ==> store_view(storage).committed[h].asset.version + steps
                        <= c0[h].asset.version + steps0,
                headroom(c0, steps0),
                propagate(store_view(storage).committed, self.changed(), visited@, steps)
                    == propagated(c0, changed0),
                steps0 == changed0.len() + c0.dom().len(),
                self.pending() == old(self).pending(),
            ensures
                store_view(storage).staged == staged0,
                store_view(storage).committed == propagated(c0, changed0),
                store_view(storage).committed.dom() == c0.dom(),
                resolved(store_view(storage).committed),
                forall|h: LoadHandle| #[trigger]
                    c0.contains_key(h) ==> store_view(storage).committed[h].asset.version
                        <= c0[h].asset.version + steps0,
                self.changed() == Seq::<LoadHandle>::empty(),
                self.pending() == old(self).pending(),
            decreases steps,
        {
            let ghost c = store_view(storage).committed;
            let ghost queue_before = self.changed();
            let ghost visited_before = visited@;
            let dependee = match pop_changed(&mut self.changed) {
                Some(handle) => handle,
                None => {
                    proof {
                        assert(self.changed() =~= Seq::<LoadHandle>::empty());
                    }
                    break ;
                },
            };
            let ghost rest = self.changed();
            let ghost dependers = dependers_of(c, dependee);
            let ghost mut pushes: Seq<LoadHandle> = Seq::empty();
            let mut updates: Vec<(LoadHandle, CookedPrefab)> = Vec::new();
            proof {
                lemma_len_subset(visited@, c0.dom());
                assert(dependers.take(0) =~= Seq::<LoadHandle>::empty());
                assert(updates_view(updates@) =~= Seq::<Update>::empty());
                assert(rest + pushes =~= rest);
            }
            match storage.get_for_load_handle(dependee) {
                Some(p) => {
                    let n = p.dependers.len();
                    let mut i: usize = 0;
                    while i < n
                        invariant
                            c == store_view(storage).committed,
                            c.dom() == c0.dom(),
                            c0.dom().finite(),
                            resolved(c),
                            p.dependers@ == dependers,
                            n == dependers.len(),
                            dependers.no_duplicates(),
                            i <= n,
                            scan(c, dependers.take(i as int), visited_before) == (Scan {
                                visited: visited@,
                                pushes,
                                updates: updates_view(updates@),
                            }),
                            self.changed() == rest + pushes,
                            self.pending() == old(self).pending(),
                            visited@.finite(),
                            visited@.subset_of(c0.dom()),
                            visited@.len() == visited_before.len() + pushes.len(),
                            forall|j: int|
                                0 <= j < updates@.len() ==> c.contains_key(
                                    (#[trigger] updates@[j]).0,
                                ) && exists|k: int|
                                    0 <= k < i && dependers[k] == updates@[j].0,
                            forall|a: int, b: int|
                                0 <= a < b < updates@.len() ==> (#[trigger] updates@[a]).0 != (
                                #[trigger] updates@[b]).0,
                        decreases n - i,
                    {
                        let w = p.dependers.get(i);
                        let ghost taken = dependers.take(i as int);
                        let ghost before = scan(c, taken, visited_before);
                        proof {
                            assert(dependers.take(i + 1).drop_last() =~= taken);
                            assert(dependers.take(i + 1).last() == w);
                        }
                        match storage.get_asset_with_version(w) {
                            Some((prefab, _version)) => {
                                let ghost updates_before = updates@;
                                proof {
                                    assert(c.contains_key(w));
                                    assert(c[w].asset == prefab@);
                                }
                                let cooked = cook_prefab(prefab, storage);
                                if fnv_insert(&mut visited, w) {
                                    push_changed(&mut self.changed, w);
                                    proof {
                                        pushes = pushes.push(w);
                                        assert(self.changed() =~= rest + pushes);
                                    }
                                }
                                updates.push((w, cooked));
                                proof {
                                    assert(c.contains_key(w));
                                    assert(c[w].asset == prefab@);
                                    assert(updates_view(updates@) =~= updates_view(
                                        updates_before,
                                    ).push(Update { handle: w, cooked: cooked.cook_order@ }));
                                    assert forall|j: int| 0 <= j < updates@.len() implies c.contains_key(
                                        (#[trigger] updates@[j]).0,
                                    ) && exists|k: int|
                                        0 <= k < i + 1 && dependers[k] == updates@[j].0 by {
                                        if j < updates_before.len() {
                                            assert(updates@[j] == updates_before[j]);
                                            let k = choose|k: int|
                                                0 <= k < i && dependers[k] == updates_before[j].0;
                                            assert(0 <= k < i + 1 && dependers[k] == updates@[j].0);
                                        } else {
                                            assert(dependers[i as int] == updates@[j].0);
                                        }
                                    }
                                    assert forall|a: int, b: int|
                                        0 <= a < b < updates@.len() implies (
                                    #[trigger] updates@[a]).0 != (#[trigger] updates@[b]).0 by {
                                        assert(updates@[a] == updates_before[a]);
                                        if b == updates_before.len() {
                                            let k = choose|k: int|
                                                0 <= k < i && dependers[k] == updates_before[a].0;
                                            assert(dependers[k] != dependers[i as int]);
                                        } else {
                                            assert(updates@[b] == updates_before[b]);
                                        }
                                    }
                                }
                            },
                            None => {
                                proof {
                                    assert(!c.contains_key(w));
                                }
                            },
                        }
                        i += 1;
                    }
                    proof {
                        assert(dependers.take(n as int) =~= dependers);
                    }
                },
                None => {
                    proof {
                        assert(dependers =~= Seq::<LoadHandle>::empty());
                    }
                },
            }
            let ghost found = scan(c, dependers, visited_before);
            let ghost batch = updates@;
            let ghost outputs = updates_view(batch);
            proof {
                assert(found.updates == outputs);
                assert(found.pushes == pushes);
                assert(found.visited == visited@);
                assert(outputs.take(0) =~= Seq::<Update>::empty());
                assert(steps >= 1);
            }
            for u in it: updates
                invariant
                    it.seq() == batch,
                    outputs == updates_view(batch),
                    store_view(storage).staged == staged0,
                    store_view(storage).committed == apply_updates(
                        c,
                        outputs.take(it.index() as int),
                    ),
                    store_view(storage).committed.dom() == c.dom(),
                    resolved(store_view(storage).committed),
                    headroom(c, steps),
                    steps >= 1,
                    forall|j: int| 0 <= j < batch.len() ==> c.contains_key((#[trigger] batch[j]).0),
                    forall|a: int, b: int|
                        0 <= a < b < batch.len() ==> (#[trigger] batch[a]).0 != (#[trigger] batch[b]).0,
                    forall|h: LoadHandle| #[trigger]
                        c.contains_key(h) ==> store_view(storage).committed[h].asset.version
                            <= c[h].asset.version + 1,
                    forall|h: LoadHandle|
                        c.contains_key(h) && (forall|j: int|
                            0 <= j < it.index() ==> (#[trigger] batch[j]).0 != h)
                            ==> #[trigger] store_view(storage).committed[h] == c[h],
            {
                let ghost now = store_view(storage).committed;
                let ghost done = it.index() as int;
                let (handle, cooked) = u;
                proof {
                    assert(batch[done] == (handle, cooked));
                    assert(c.contains_key(handle));
                    assert(now[handle] == c[handle]);
                    assert(storage.committed().contains_key(handle));
                }
                let ghost output = cooked.cook_order@;
                let change = move |asset: Prefab| -> (out: Prefab)
                    requires
                        asset.version < u32::MAX,
                    ensures
                        out@ == (PrefabView {
                            prefab: Some(cooked.cook_order@),
                            version: (asset.version + 1) as u32,
                            ..asset@
                        }),
                    {
                        let Prefab { raw_prefab, prefab: _, dependencies, dependers, version } =
                            asset;
                        Prefab {
                            raw_prefab,
                            prefab: Some(cooked),
                            dependencies,
                            dependers,
                            version: version + 1,
                        }
                    };
                storage.mutate_asset_in_storage(handle, change);
                proof {
                    let u_view = Update { handle, cooked: output };
                    assert(outputs[done] == u_view);
                    assert(outputs.take(done + 1).drop_last() =~= outputs.take(done));
                    assert(outputs.take(done + 1).last() == u_view);
                    assert(store_view(storage).committed =~= apply_update(now, u_view));
                    assert(store_view(storage).staged =~= staged0);
                }
            }
            proof {
                assert(outputs.take(batch.len() as int) =~= outputs);
                steps = (steps - 1) as nat;
                assert((queue_before.skip(1) + pushes) =~= self.changed());
            }
        }
    }

    /// One pass of the pipeline: follows the change signals, then looks at
    /// every envelope in the ingestion queue once, and puts those that wait
    /// for something unpublished back into the queue, in their order. The
    /// result holds the outcomes to report, in the order of the envelopes.
    ///
    /// The handles that `loader` gives are its own affair; whatever they are,
    /// the pass is the one that `ingest_all` describes for the envelopes with
    /// those handles filled in.
    pub fn process<L: Loader>(&mut self, storage: &mut AssetStorage<Prefab>, loader: &L) -> (notices:
        Vec<Notification>)
        requires
            fit_for_pass(
                store_view(old(storage)).committed,
                old(self).changed().len(),
                old(self).pending().len(),
            ),
        ensures
            final(self).changed() == Seq::<LoadHandle>::empty(),
            resolved(store_view(final(storage)).committed),
            is_pass(
                loader,
                store_view(old(storage)),
                old(self).changed(),
                old(self).pending_view(),
                store_view(final(storage)),
                final(self).pending_view(),
                notices@,
            ),
    {
        let ghost items0 = self.pending();
        let ghost total = items0.len();
        self.propagate_changes(storage);
        let ghost start = store_view(storage);
        let mut requeue: Vec<Processed> = Vec::new();
        let mut notices: Vec<Notification> = Vec::new();
        let ghost mut filled: Seq<ProcessedView> = Seq::empty();
        proof {
            assert(requeue@.map_values(|item: Processed| item@) =~= Seq::<ProcessedView>::empty());
        }
        loop
            invariant
                self.changed() == Seq::<LoadHandle>::empty(),
                filled.len() <= total,
                total == items0.len(),
                total <= u32::MAX,
                self.pending() == items0.skip(filled.len() as int),
                forall|i: int|
                    0 <= i < filled.len() ==> item_resolution(
                        loader,
                        (#[trigger] items0[i])@,
                        filled[i],
                    ),
                ingest_all(start, filled) == (Ingestion {
                    store: store_view(storage),
                    requeue: requeue@.map_values(|item: Processed| item@),
                    notices: notices@,
                }),
                resolved(store_view(storage).committed),
                headroom(store_view(storage).committed, (total - filled.len()) as nat),
            ensures
                filled.len() == total,
                self.pending() == Seq::<Processed>::empty(),
                self.changed() == Seq::<LoadHandle>::empty(),
                forall|i: int|
                    0 <= i < filled.len() ==> item_resolution(
                        loader,
                        (#[trigger] items0[i])@,
                        filled[i],
                    ),
                ingest_all(start, filled) == (Ingestion {
                    store: store_view(storage),
                    requeue: requeue@.map_values(|item: Processed| item@),
                    notices: notices@,
                }),
                resolved(store_view(storage).committed),
            decreases total - filled.len(),
        {
            let ghost done = filled.len() as int;
            let item = match pop_processed(&mut self.processed) {
                Some(item) => item,
                None => {
                    proof {
                        assert(self.pending() =~= Seq::<Processed>::empty());
                    }
                    break ;
                },
            };
            proof {
                assert(item == items0[done]);
                assert(self.pending() =~= items0.skip(done + 1));
            }
            let Processed { data, handle, load_notifier, version, commit } = item;
            let data = match data {
                Ok(prefab) => Ok(resolve_dependencies(prefab, loader)),
                Err(e) => Err(e),
            };
            let ready = Processed { data, handle, load_notifier, version, commit };
            let ghost before = store_view(storage);
            let ghost requeue_before = requeue@.map_values(|item: Processed| item@);
            proof {
                assert(item_resolution(loader, item@, ready@));
                assert(filled.push(ready@).drop_last() =~= filled);
                filled = filled.push(ready@);
            }
            match ingest(storage, ready) {
                Ingested::Requeued(waiting) => {
                    requeue.push(waiting);
                    proof {
                        assert(requeue@.map_values(|item: Processed| item@) =~= requeue_before.push(
                            waiting@,
                        ));
                    }
                },
                Ingested::Notified(notice) => {
                    notices.push(notice);
                },
            }
        }
        let ghost waiting = requeue@;
        for item in it: requeue
            invariant
                it.seq() == waiting,
                self.pending() == waiting.take(it.index() as int),
                self.changed() == Seq::<LoadHandle>::empty(),
        {
            push_processed(&mut self.processed, item);
            proof {
                assert(waiting.take(it.index() + 1) =~= waiting.take(it.index() as int).push(item));
            }
        }
        proof {
            assert(waiting.take(waiting.len() as int) =~= waiting);
            assert(resolutions(loader, items0.map_values(|item: Processed| item@), filled));
        }
        notices
    }

    /// Tells whether a pass may start.
    pub fn can_process(&self, storage: &AssetStorage<Prefab>) -> (ok: bool)
        ensures
            ok == fit_for_pass(
                store_view(storage).committed,
                self.changed().len(),
                self.pending().len(),
            ),
    {
        let ghost c = store_view(storage).committed;
        let envelopes = len_processed(&self.processed);
        let signals = len_changed(&self.changed);
        if envelopes > u32::MAX as usize {
            return false;
        }
        let handles = storage.handles();
        proof {
            handles@.unique_seq_to_set();
            assert(c.dom() =~= storage.committed().dom());
        }
        let bumps: u128 = signals as u128 + handles.len() as u128 + envelopes as u128;
        let mut ok = true;
        let mut i: usize = 0;
        while i < handles.len()
            invariant
                c == store_view(storage).committed,
                i <= handles@.len(),
                forall|j: int| 0 <= j < handles@.len() ==> c.contains_key(#[trigger] handles@[j]),
                bumps == signals + c.dom().len() + envelopes,
                bumps <= 3 * usize::MAX,
                ok <==> forall|j: int|
                    0 <= j < i ==> c[#[trigger] handles@[j]].asset.dependencies.is_some()
                        && c[handles@[j]].asset.version + bumps <= u32::MAX,
            decreases handles@.len() - i,
        {
            proof {
                assert(handles@.to_set().contains(handles@[i as int]));
            }
            match storage.get(handles[i]) {
                Some(published) => {
                    if published.dependencies.is_none() || published.version as u128 + bumps
                        > u32::MAX as u128 {
                        ok = false;
                    }
                },
                None => {},
            }
            i += 1;
        }
        proof {
            if ok {
                assert forall|h: LoadHandle| #[trigger] c.contains_key(h) implies c[h].asset.dependencies.is_some()
                    && c[h].asset.version + bumps <= u32::MAX by {
                    assert(handles@.to_set().contains(h));
                    let j = choose|j: int| 0 <= j < handles@.len() && handles@[j] == h;
                    assert(c[handles@[j]].asset.dependencies.is_some());
                }
            }
        }
        ok
    }

    /// Makes a pass where one may start, and leaves everything as it is
    /// where none may.
    pub fn try_process<L: Loader>(
        &mut self,
        storage: &mut AssetStorage<Prefab>,
        loader: &L,
    ) -> (notices: Option<Vec<Notification>>)
        ensures
            notices.is_some() == fit_for_pass(
                store_view(old(storage)).committed,
                old(self).changed().len(),
                old(self).pending().len(),
            ),
            match notices {
                Some(notices) => {
                    &&& final(self).changed() == Seq::<LoadHandle>::empty()
                    &&& resolved(store_view(final(storage)).committed)
                    &&& is_pass(
                        loader,
                        store_view(old(storage)),
                        old(self).changed(),
                        old(self).pending_view(),
                        store_view(final(storage)),
                        final(self).pending_view(),
                        notices@,
                    )
                },
                None => {
                    &&& final(self).changed() == old(self).changed()
                    &&& final(self).pending() == old(self).pending()
                    &&& store_view(final(storage)) == store_view(old(storage))
                },
            },
    {
        if self.can_process(storage) {
            Some(self.process(storage, loader))
        } else {
            None
        }
    }
}

} // verus!
