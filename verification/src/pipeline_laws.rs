//! What holds of every pass of the pipeline.

use vstd::prelude::*;
use crate::cook::cook_order;
use vstd::set_lib::lemma_len_subset;
use crate::model::{
    apply_update, apply_updates, dependers_of, headroom, propagate, propagated, recooked, scan,
    Slots, Update,
};
use crate::types::LoadHandle;

verus! {

/// No published record has the same depender twice.
pub open spec fn distinct_dependers(c: Slots) -> bool {
    forall|h: LoadHandle| #[trigger] c.contains_key(h) ==> c[h].asset.dependers.no_duplicates()
}

/// `w` is a depender of the record published for `x`, and has a published
/// record itself.
pub open spec fn builds_on(c: Slots, w: LoadHandle, x: LoadHandle) -> bool {
    c.contains_key(w) && dependers_of(c, x).contains(w)
}

/// The outputs of a batch are for published records, no two for the same.
spec fn one_each(c: Slots, updates: Seq<Update>) -> bool {
    &&& forall|j: int| 0 <= j < updates.len() ==> c.contains_key((#[trigger] updates[j]).handle)
    &&& forall|a: int, b: int|
        0 <= a < b < updates.len() ==> (#[trigger] updates[a]).handle != (
        #[trigger] updates[b]).handle
}

/// There is an output for `h` in the batch.
spec fn updates_hold(updates: Seq<Update>, h: LoadHandle) -> bool {
    exists|j: int| 0 <= j < updates.len() && (#[trigger] updates[j]).handle == h
}

proof fn lemma_apply_updates(c: Slots, updates: Seq<Update>)
    requires
        one_each(c, updates),
    ensures
        apply_updates(c, updates).dom() == c.dom(),
        forall|h: LoadHandle|
            #![trigger apply_updates(c, updates)[h]]
            c.contains_key(h) && !updates_hold(updates, h) ==> apply_updates(c, updates)[h] == c[h],
        forall|j: int|
            0 <= j < updates.len() ==> apply_updates(c, updates)[(#[trigger] updates[j]).handle]
                == recooked(c[updates[j].handle], updates[j].cooked),
    decreases updates.len(),
{
    if updates.len() > 0 {
        let front = updates.drop_last();
        let last = updates.last();
        let mid = apply_updates(c, front);
        lemma_apply_updates(c, front);
        let r = apply_updates(c, updates);
        assert(r == apply_update(mid, last));
        assert(mid.contains_key(last.handle));
        assert(r.dom() =~= c.dom());
        assert(!updates_hold(front, last.handle)) by {
            if updates_hold(front, last.handle) {
                let j = choose|j: int| 0 <= j < front.len() && (#[trigger] front[j]).handle == last.handle;
                assert(updates[j] == front[j]);
                assert(updates[j].handle != updates[updates.len() - 1].handle);
            }
        }
        assert forall|h: LoadHandle|
            #![trigger r[h]]
            c.contains_key(h) && !updates_hold(updates, h) implies r[h] == c[h] by {
            assert(h != last.handle) by {
                if h == last.handle {
                    assert(updates[updates.len() - 1].handle == h);
                }
            }
            assert(!updates_hold(front, h)) by {
                if updates_hold(front, h) {
                    let j = choose|j: int| 0 <= j < front.len() && (#[trigger] front[j]).handle == h;
                    assert(updates[j] == front[j]);
                }
            }
        }
        assert forall|j: int| 0 <= j < updates.len() implies r[(#[trigger] updates[j]).handle]
            == recooked(c[updates[j].handle], updates[j].cooked) by {
            if j < front.len() {
                assert(updates[j] == front[j]);
                assert(updates[j].handle != updates[updates.len() - 1].handle);
            }
        }
    }
}

proof fn lemma_scan(c: Slots, dependers: Seq<LoadHandle>, visited: Set<LoadHandle>)
    requires
        visited.finite(),
    ensures
        ({
            let found = scan(c, dependers, visited);
            &&& forall|j: int|
                0 <= j < found.updates.len() ==> {
                    let u = #[trigger] found.updates[j];
                    c.contains_key(u.handle) && dependers.contains(u.handle) && u.cooked
                        == cook_order(c, c[u.handle].asset)
                }
            &&& forall|w: LoadHandle|
                dependers.contains(w) && c.contains_key(w) ==> #[trigger] updates_hold(
                    found.updates,
                    w,
                )
            &&& dependers.no_duplicates() ==> one_each(c, found.updates)
            &&& forall|w: LoadHandle|
                #[trigger] found.visited.contains(w) <==> visited.contains(w) || (
                dependers.contains(w) && c.contains_key(w))
            &&& forall|w: LoadHandle|
                #[trigger] found.pushes.contains(w) <==> !visited.contains(w)
                    && dependers.contains(w) && c.contains_key(w)
            &&& found.visited.finite()
            &&& found.visited.len() == visited.len() + found.pushes.len()
        }),
    decreases dependers.len(),
{
    let found = scan(c, dependers, visited);
    if dependers.len() > 0 {
        let front = dependers.drop_last();
        let w = dependers.last();
        let before = scan(c, front, visited);
        lemma_scan(c, front, visited);
        assert forall|x: LoadHandle| front.contains(x) implies dependers.contains(x) by {
            let i = choose|i: int| 0 <= i < front.len() && front[i] == x;
            assert(dependers[i] == x);
        }
        assert forall|x: LoadHandle| dependers.contains(x) implies front.contains(x) || x == w by {
            let i = choose|i: int| 0 <= i < dependers.len() && dependers[i] == x;
            if i < front.len() {
                assert(front[i] == x);
            }
        }
        assert(dependers.contains(w)) by {
            assert(dependers[dependers.len() - 1] == w);
        }
        if c.contains_key(w) {
            let u = Update { handle: w, cooked: cook_order(c, c[w].asset) };
            assert(found.updates == before.updates.push(u));
            assert forall|x: LoadHandle|
                dependers.contains(x) && c.contains_key(x) implies #[trigger] updates_hold(
                found.updates,
                x,
            ) by {
                if x == w {
                    assert(found.updates[before.updates.len() as int].handle == x);
                } else {
                    assert(updates_hold(before.updates, x));
                    let j = choose|j: int|
                        0 <= j < before.updates.len() && (#[trigger] before.updates[j]).handle == x;
                    assert(found.updates[j].handle == x);
                }
            }
            if dependers.no_duplicates() {
                assert(front.no_duplicates());
                assert(!front.contains(w)) by {
                    if front.contains(w) {
                        let i = choose|i: int| 0 <= i < front.len() && front[i] == w;
                        assert(dependers[i] == dependers[dependers.len() - 1]);
                    }
                }
                assert(one_each(c, found.updates)) by {
                    assert forall|a: int, b: int|
                        0 <= a < b < found.updates.len() implies (
                    #[trigger] found.updates[a]).handle != (#[trigger] found.updates[b]).handle by {
                        assert(found.updates[a] == before.updates[a]);
                        if b < before.updates.len() {
                            assert(found.updates[b] == before.updates[b]);
                        }
                    }
                }
            }
            assert forall|x: LoadHandle| #[trigger]
                found.pushes.contains(x) <==> !visited.contains(x) && dependers.contains(x)
                    && c.contains_key(x) by {
                if before.visited.contains(w) {
                } else {
                    assert(found.pushes == before.pushes.push(w));
                    if found.pushes.contains(x) {
                        let i = choose|i: int| 0 <= i < found.pushes.len() && found.pushes[i] == x;
                        if i < before.pushes.len() {
                            assert(before.pushes[i] == x);
                        }
                    }
                    if before.pushes.contains(x) {
                        let i = choose|i: int|
                            0 <= i < before.pushes.len() && before.pushes[i] == x;
                        assert(found.pushes[i] == x);
                    }
                    assert(found.pushes[before.pushes.len() as int] == w);
                }
            }
        } else {
            assert(found == before);
        }
    } else {
        assert(found.pushes =~= Seq::<LoadHandle>::empty());
    }
}

/// Following one change signal cooks each published depender of the changed
/// record once: the depender gets the cook order over what was published
/// before, and the version after the one it had, exactly one higher where
/// there is room for it. Every other record stays as it was.
pub proof fn lemma_signal_recooks_dependers(c: Slots, x: LoadHandle, visited: Set<LoadHandle>)
    requires
        visited.finite(),
        distinct_dependers(c),
    ensures
        ({
            let after = apply_updates(c, scan(c, dependers_of(c, x), visited).updates);
            &&& after.dom() == c.dom()
            &&& forall|w: LoadHandle|
                builds_on(c, w, x) ==> #[trigger] after[w] == recooked(
                    c[w],
                    cook_order(c, c[w].asset),
                )
            &&& forall|w: LoadHandle|
                c.contains_key(w) && !builds_on(c, w, x) ==> #[trigger] after[w] == c[w]
            &&& headroom(c, 1) ==> forall|w: LoadHandle|
                builds_on(c, w, x) ==> (#[trigger] after[w]).asset.version == c[w].asset.version
                    + 1
        }),
{
    let found = scan(c, dependers_of(c, x), visited);
    lemma_scan(c, dependers_of(c, x), visited);
    lemma_apply_updates(c, found.updates);
    let after = apply_updates(c, found.updates);
    assert forall|w: LoadHandle| builds_on(c, w, x) implies #[trigger] after[w] == recooked(
        c[w],
        cook_order(c, c[w].asset),
    ) by {
        assert(updates_hold(found.updates, w));
        let j = choose|j: int| 0 <= j < found.updates.len() && (#[trigger] found.updates[j]).handle == w;
        assert(found.updates[j].cooked == cook_order(c, c[w].asset));
    }
    assert forall|w: LoadHandle| c.contains_key(w) && !builds_on(c, w, x) implies #[trigger] after[w]
        == c[w] by {
        if updates_hold(found.updates, w) {
            let j = choose|j: int| 0 <= j < found.updates.len() && (#[trigger] found.updates[j]).handle == w;
            assert(dependers_of(c, x).contains(found.updates[j].handle));
        }
    }
}

/// The records `now` are the records `then`, some of them cooked again: the
/// same handles, the same dependers, and no version lower.
pub open spec fn cooked_on(then: Slots, now: Slots) -> bool {
    &&& now.dom() == then.dom()
    &&& forall|h: LoadHandle| #[trigger]
        then.contains_key(h) ==> now[h].asset.dependers == then[h].asset.dependers
            && now[h].asset.version >= then[h].asset.version
}

/// The record at `h` has been cooked since `then`: it has an output, and a
/// higher version.
pub open spec fn cooked_since(then: Slots, now: Slots, h: LoadHandle) -> bool {
    now[h].asset.prefab.is_some() && now[h].asset.version > then[h].asset.version
}

/// Every published depender of a handle in `all` is in `all` too, and has
/// been cooked since `then`.
spec fn closed(then: Slots, now: Slots, all: Set<LoadHandle>) -> bool {
    forall|x: LoadHandle, w: LoadHandle|
        all.contains(x) && #[trigger] builds_on(then, w, x) ==> all.contains(w) && cooked_since(
            then,
            now,
            w,
        )
}

proof fn lemma_propagate(
    then: Slots,
    c: Slots,
    changed: Seq<LoadHandle>,
    visited: Set<LoadHandle>,
    done: Set<LoadHandle>,
    steps: nat,
)
    requires
        then.dom().finite(),
        visited.finite(),
        visited.subset_of(then.dom()),
        distinct_dependers(then),
        cooked_on(then, c),
        headroom(c, steps),
        steps >= changed.len() + then.dom().len() - visited.len(),
        forall|x: LoadHandle, w: LoadHandle|
            done.contains(x) && #[trigger] builds_on(then, w, x) ==> visited.contains(w)
                && cooked_since(then, c, w),
        forall|w: LoadHandle| #[trigger]
            visited.contains(w) ==> done.contains(w) || changed.contains(w),
    ensures
        cooked_on(c, propagate(c, changed, visited, steps)),
        exists|all: Set<LoadHandle>|
            #![trigger closed(then, propagate(c, changed, visited, steps), all)]
            closed(then, propagate(c, changed, visited, steps), all) && forall|x: LoadHandle|
                done.contains(x) || changed.contains(x) ==> all.contains(x),
    decreases steps,
{
    let r = propagate(c, changed, visited, steps);
    lemma_len_subset(visited, then.dom());
    if changed.len() == 0 {
        assert(r == c);
        assert(closed(then, r, done));
    } else {
        let x = changed[0];
        let found = scan(c, dependers_of(c, x), visited);
        let c1 = apply_updates(c, found.updates);
        let changed1 = changed.skip(1) + found.pushes;
        let done1 = done.insert(x);
        assert(distinct_dependers(c));
        lemma_scan(c, dependers_of(c, x), visited);
        lemma_signal_recooks_dependers(c, x, visited);
        assert(r == propagate(c1, changed1, found.visited, (steps - 1) as nat));
        assert forall|h: LoadHandle| c.contains_key(h) implies c1[h].asset.dependers
            == c[h].asset.dependers && c1[h].asset.version >= c[h].asset.version && (
        c[h].asset.prefab.is_some() ==> c1[h].asset.prefab.is_some()) && c1[h].asset.version
            <= c[h].asset.version + 1 by {
            if builds_on(c, h, x) {
                assert(c1[h] == recooked(c[h], cook_order(c, c[h].asset)));
            } else {
                assert(c1[h] == c[h]);
            }
        }
        assert(cooked_on(c, c1));
        assert(cooked_on(then, c1));
        assert(headroom(c1, (steps - 1) as nat));
        assert(found.visited.subset_of(then.dom()));
        assert(dependers_of(c, x) == dependers_of(then, x));
        assert forall|y: LoadHandle, w: LoadHandle|
            done1.contains(y) && #[trigger] builds_on(then, w, y) implies found.visited.contains(w)
            && cooked_since(then, c1, w) by {
            if done.contains(y) {
                assert(cooked_since(then, c, w));
            } else {
                assert(builds_on(c, w, x));
                assert(c1[w] == recooked(c[w], cook_order(c, c[w].asset)));
            }
        }
        assert forall|w: LoadHandle| #[trigger] found.visited.contains(w) implies done1.contains(w)
            || changed1.contains(w) by {
            if visited.contains(w) {
                if !done.contains(w) {
                    let i = choose|i: int| 0 <= i < changed.len() && changed[i] == w;
                    if i > 0 {
                        assert(changed1[i - 1] == w);
                    }
                }
            } else {
                assert(found.pushes.contains(w));
                let i = choose|i: int| 0 <= i < found.pushes.len() && found.pushes[i] == w;
                assert(changed1[changed.len() - 1 + i] == w);
            }
        }
        lemma_propagate(then, c1, changed1, found.visited, done1, (steps - 1) as nat);
        let all = choose|all: Set<LoadHandle>|
            #![trigger closed(then, r, all)]
            closed(then, r, all) && forall|y: LoadHandle|
                done1.contains(y) || changed1.contains(y) ==> all.contains(y);
        assert forall|y: LoadHandle| done.contains(y) || changed.contains(y) implies all.contains(
            y,
        ) by {
            if !done.contains(y) && y != x {
                let i = choose|i: int| 0 <= i < changed.len() && changed[i] == y;
                assert(changed1[i - 1] == y);
            }
        }
        assert(closed(then, r, all));
    }
}

/// Each handle of `path` but the first is a published depender of the
/// handle before it.
pub open spec fn dependers_chain(c: Slots, path: Seq<LoadHandle>) -> bool {
    forall|i: int| 1 <= i < path.len() ==> builds_on(c, #[trigger] path[i], path[i - 1])
}

proof fn lemma_along(then: Slots, now: Slots, all: Set<LoadHandle>, path: Seq<LoadHandle>, i: int)
    requires
        closed(then, now, all),
        dependers_chain(then, path),
        path.len() > 0,
        all.contains(path[0]),
        0 <= i < path.len(),
    ensures
        all.contains(path[i]),
        i >= 1 ==> cooked_since(then, now, path[i]),
    decreases i,
{
    if i >= 1 {
        lemma_along(then, now, all, path, i - 1);
        assert(builds_on(then, path[i], path[i - 1]));
    }
}

/// One drain of the change signals reaches every record that builds on a
/// changed one, however many records lie between them: the record at the
/// end of a chain of dependers that starts at a signalled handle has been
/// cooked again, and has a higher version than before.
pub proof fn lemma_propagation_reaches(c: Slots, changed: Seq<LoadHandle>, path: Seq<LoadHandle>)
    requires
        c.dom().finite(),
        distinct_dependers(c),
        headroom(c, changed.len() + c.dom().len()),
        path.len() >= 2,
        changed.contains(path[0]),
        dependers_chain(c, path),
    ensures
        cooked_on(c, propagated(c, changed)),
        cooked_since(c, propagated(c, changed), path.last()),
{
    let steps = changed.len() + c.dom().len();
    lemma_propagate(c, c, changed, Set::empty(), Set::empty(), steps);
    let r = propagated(c, changed);
    let all = choose|all: Set<LoadHandle>|
        #![trigger closed(c, r, all)]
        closed(c, r, all) && forall|y: LoadHandle|
            Set::<LoadHandle>::empty().contains(y) || changed.contains(y) ==> all.contains(y);
    lemma_along(c, r, all, path, path.len() - 1);
}

/// One drain of the change signals lowers no version, changes no depender,
/// and neither adds nor drops a record.
pub proof fn lemma_propagation_never_lowers(c: Slots, changed: Seq<LoadHandle>)
    requires
        c.dom().finite(),
        distinct_dependers(c),
        headroom(c, changed.len() + c.dom().len()),
    ensures
        cooked_on(c, propagated(c, changed)),
{
    lemma_propagate(c, c, changed, Set::empty(), Set::empty(), changed.len() + c.dom().len());
}

} // verus!
