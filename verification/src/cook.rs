//! The cook order of a prefab: its closure, everything a prefab builds on
//! before the prefab itself.

use fnv::FnvHashSet;
use vstd::prelude::*;
use vstd::set_lib::lemma_len_subset;
use crate::idset::fnv_insert;
use crate::model::{resolved, store_view, Slots};
use crate::storage::AssetStorage;
use crate::types::{CookedPrefab, LoadHandle, Prefab, PrefabUuid, PrefabView};

verus! {

broadcast use vstd::std_specs::hash::group_hash_axioms;

/// How far a traversal has come: the identities it has entered, and the
/// records it has left, in the order in which it left them.
pub ghost struct Trail {
    pub seen: Set<PrefabUuid>,
    pub left: Seq<PrefabView>,
}

/// The handles that a record builds on; none while they are unknown.
pub open spec fn deps_of(p: PrefabView) -> Seq<LoadHandle> {
    match p.dependencies {
        Some(handles) => handles,
        None => Seq::empty(),
    }
}

/// The trail after the traversal has entered `node`, gone through what it
/// builds on, and left it. `depth` bounds the nesting.
pub open spec fn visit(g: Slots, node: PrefabView, trail: Trail, depth: nat) -> Trail
    decreases depth, 0nat,
{
    if depth == 0 {
        trail
    } else {
        let inner = visit_children(
            g,
            deps_of(node),
            0,
            Trail { seen: trail.seen.insert(node.id), left: trail.left },
            (depth - 1) as nat,
        );
        Trail { seen: inner.seen, left: inner.left.push(node) }
    }
}

/// The trail after the traversal has gone through `deps` from position
/// `from` on: a handle without a record is passed over, and so is a record
/// whose identity the traversal has entered before; any other is visited.
pub open spec fn visit_children(
    g: Slots,
    deps: Seq<LoadHandle>,
    from: nat,
    trail: Trail,
    depth: nat,
) -> Trail
    decreases depth, deps.len() - from + 1,
{
    if from >= deps.len() {
        trail
    } else {
        let d = deps[from as int];
        let next = if g.contains_key(d) && !trail.seen.contains(g[d].asset.id) {
            visit(g, g[d].asset, trail, depth)
        } else {
            trail
        };
        visit_children(g, deps, from + 1, next, depth)
    }
}

/// The trail before anything has been entered.
pub open spec fn empty_trail() -> Trail {
    Trail { seen: Set::empty(), left: Seq::empty() }
}

/// The records of the closure of `root` over the published records `g`, in
/// the order in which they are cooked: depth first, each record after
/// everything that it builds on, no identity entered twice. The nesting of a
/// traversal never reaches the bound given here.
pub open spec fn cook_nodes(g: Slots, root: PrefabView) -> Seq<PrefabView> {
    visit(g, root, empty_trail(), g.dom().len() + 1).left
}

/// The identities of a sequence of records.
pub open spec fn ids_of(nodes: Seq<PrefabView>) -> Seq<PrefabUuid> {
    nodes.map_values(|p: PrefabView| p.id)
}

/// The cook order of `root` over the published records `g`: the identities
/// of its closure, in the order in which the records are cooked.
pub open spec fn cook_order(g: Slots, root: PrefabView) -> Seq<PrefabUuid> {
    ids_of(cook_nodes(g, root))
}

/// The handles of the records whose identity has not been entered.
pub(crate) open spec fn unseen(g: Slots, seen: Set<PrefabUuid>) -> Set<LoadHandle> {
    g.dom().filter(|h: LoadHandle| !seen.contains(g[h].asset.id))
}

/// A record under traversal, and the position of the next handle to look at.
struct Frame<'a> {
    node: &'a Prefab,
    next: usize,
}

/// The steps that the frames of a stack still stand for.
spec fn pending(frames: Seq<Frame>) -> nat
    decreases frames.len(),
{
    if frames.len() == 0 {
        0
    } else {
        let top = frames.last();
        pending(frames.drop_last()) + (deps_of((*top.node)@).len() - top.next + 1) as nat
    }
}

/// The trail that a stack of frames leads to, from the trail reached so far.
spec fn resume(g: Slots, frames: Seq<Frame>, trail: Trail, depth: nat) -> Trail
    decreases frames.len(),
{
    if frames.len() == 0 {
        trail
    } else {
        let top = frames.last();
        let inner = visit_children(
            g,
            deps_of((*top.node)@),
            top.next as nat,
            trail,
            (depth - frames.len()) as nat,
        );
        resume(
            g,
            frames.drop_last(),
            Trail { seen: inner.seen, left: inner.left.push((*top.node)@) },
            depth,
        )
    }
}

/// What a stack leads to, told from its top frame.
proof fn lemma_resume_push(g: Slots, below: Seq<Frame>, top: Frame, trail: Trail, depth: nat)
    ensures
        resume(g, below.push(top), trail, depth) == ({
            let inner = visit_children(
                g,
                deps_of((*top.node)@),
                top.next as nat,
                trail,
                (depth - (below.len() + 1)) as nat,
            );
            resume(
                g,
                below,
                Trail { seen: inner.seen, left: inner.left.push((*top.node)@) },
                depth,
            )
        }),
{
    assert(below.push(top).drop_last() =~= below);
    assert(below.push(top).last() == top);
}

/// Entering the record of an unseen handle leaves fewer unseen handles.
proof fn lemma_unseen_shrinks(g: Slots, seen: Set<PrefabUuid>, d: LoadHandle)
    requires
        g.dom().finite(),
        g.contains_key(d),
        !seen.contains(g[d].asset.id),
    ensures
        unseen(g, seen.insert(g[d].asset.id)).len() < unseen(g, seen).len(),
        unseen(g, seen).finite(),
        unseen(g, seen).len() <= g.dom().len(),
{
    let before = unseen(g, seen);
    let after = unseen(g, seen.insert(g[d].asset.id));
    lemma_len_subset(before, g.dom());
    assert(before.contains(d));
    assert(after.subset_of(before.remove(d)));
    lemma_len_subset(after, before.remove(d));
}

/// Computes the cook order of `prefab` over what `storage` has published,
/// with a stack of its own in place of recursion. A dependency that is not
/// published is passed over. The traversal ends on every graph: a record
/// whose identity it has entered is not entered again.
pub fn cook_prefab(prefab: &Prefab, storage: &AssetStorage<Prefab>) -> (cooked: CookedPrefab)
    requires
        prefab.dependencies.is_some(),
        resolved(store_view(storage).committed),
    ensures
        cooked.cook_order@ == cook_order(store_view(storage).committed, prefab@),
{
    let ghost g = store_view(storage).committed;
    let ghost depth = g.dom().len() + 1;
    let mut seen: FnvHashSet<PrefabUuid> = FnvHashSet::default();
    let mut order: Vec<PrefabUuid> = Vec::new();
    let mut frames: Vec<Frame> = Vec::new();
    let ghost mut left: Seq<PrefabView> = Seq::empty();
    fnv_insert(&mut seen, prefab.raw_prefab.prefab_id());
    frames.push(Frame { node: prefab, next: 0 });
    proof {
        storage.lemma_finite();
        assert(g.dom() =~= storage.committed().dom());
        lemma_len_subset(unseen(g, seen@), g.dom());
        let start = Trail { seen: seen@, left };
        assert(seen@ =~= empty_trail().seen.insert(prefab@.id));
        assert(order@ =~= ids_of(left));
        assert(frames@ =~= Seq::<Frame>::empty().push(frames@[0]));
        lemma_resume_push(g, Seq::<Frame>::empty(), frames@[0], start, depth);
        assert(resume(g, frames@, start, depth) == visit(g, prefab@, empty_trail(), depth));
    }
    while frames.len() > 0
        invariant
            g == store_view(storage).committed,
            g.dom().finite(),
            resolved(g),
            depth == g.dom().len() + 1,
            frames@.len() + unseen(g, seen@).len() <= depth,
            forall|i: int|
                0 <= i < frames@.len() ==> (#[trigger] frames@[i]).node.dependencies.is_some()
                    && frames@[i].next <= deps_of((*frames@[i].node)@).len(),
            order@ == ids_of(left),
            resume(g, frames@, Trail { seen: seen@, left }, depth) == visit(
                g,
                prefab@,
                empty_trail(),
                depth,
            ),
        decreases unseen(g, seen@).len(), pending(frames@),
    {
        let ghost frames0 = frames@;
        let ghost trail0 = Trail { seen: seen@, left };
        let top = frames.pop().unwrap();
        let ghost below = frames@;
        let ghost room = (depth - frames0.len()) as nat;
        proof {
            assert(frames0 =~= below.push(top));
            lemma_resume_push(g, below, top, trail0, depth);
        }
        let deps = top.node.dependencies.as_ref().unwrap();
        if top.next < deps.len() {
            let next_handle = deps[top.next];
            frames.push(Frame { node: top.node, next: top.next + 1 });
            let ghost waiting = frames@;
            proof {
                assert(waiting =~= below.push(waiting.last()));
                assert(pending(waiting) + 1 == pending(frames0)) by {
                    assert(waiting.drop_last() =~= below);
                    assert(frames0.drop_last() =~= below);
                }
            }
            match storage.get(next_handle) {
                Some(child) => {
                    let id = child.raw_prefab.prefab_id();
                    let fresh = fnv_insert(&mut seen, id);
                    proof {
                        assert(g.contains_key(next_handle));
                        assert(g[next_handle].asset == child@);
                    }
                    if fresh {
                        frames.push(Frame { node: child, next: 0 });
                        proof {
                            lemma_unseen_shrinks(g, trail0.seen, next_handle);
                            assert(room >= 1);
                            let entered = Trail { seen: seen@, left };
                            assert(frames@ =~= waiting.push(frames@.last()));
                            lemma_resume_push(g, waiting, frames@.last(), entered, depth);
                            lemma_resume_push(
                                g,
                                below,
                                waiting.last(),
                                visit(g, child@, trail0, room),
                                depth,
                            );
                        }
                    } else {
                        proof {
                            assert(seen@ =~= trail0.seen);
                            lemma_resume_push(g, below, waiting.last(), trail0, depth);
                        }
                    }
                },
                None => {
                    proof {
                        assert(!g.contains_key(next_handle));
                        lemma_resume_push(g, below, waiting.last(), trail0, depth);
                    }
                },
            }
        } else {
            order.push(top.node.raw_prefab.prefab_id());
            proof {
                left = left.push((*top.node)@);
                assert(order@ =~= ids_of(left));
                assert(pending(below) + 1 == pending(frames0)) by {
                    assert(frames0.drop_last() =~= below);
                }
            }
        }
    }
    CookedPrefab { cook_order: order }
}

} // verus!
