//! What holds of every cook order.

use vstd::prelude::*;
use vstd::set_lib::lemma_len_subset;
use crate::cook::{
    cook_nodes, cook_order, deps_of, empty_trail, unseen, visit, visit_children, Trail,
};
use crate::model::Slots;
use crate::types::{LoadHandle, PrefabUuid, PrefabView};

verus! {

/// Each published record that `node` builds on has an identity of lower
/// rank than `node`.
pub open spec fn edges_descend(g: Slots, node: PrefabView, rank: spec_fn(PrefabUuid) -> nat) -> bool {
    forall|k: int|
        0 <= k < deps_of(node).len() && g.contains_key(#[trigger] deps_of(node)[k]) ==> rank(
            g[deps_of(node)[k]].asset.id,
        ) < rank(node.id)
}

/// The published records have no cycle: along every edge the rank of the
/// identity goes down.
pub open spec fn acyclic(g: Slots, rank: spec_fn(PrefabUuid) -> nat) -> bool {
    forall|h: LoadHandle| #[trigger] g.contains_key(h) ==> edges_descend(g, g[h].asset, rank)
}

/// A record with the identity `id` stands before position `j`.
pub open spec fn stands_before(nodes: Seq<PrefabView>, id: PrefabUuid, j: int) -> bool {
    exists|i: int| 0 <= i < j && i < nodes.len() && (#[trigger] nodes[i]).id == id
}

/// Every record stands after the published records that it builds on.
pub open spec fn dependencies_first(g: Slots, nodes: Seq<PrefabView>) -> bool {
    forall|j: int, k: int|
        0 <= j < nodes.len() && 0 <= k < deps_of(nodes[j]).len() && g.contains_key(
            #[trigger] deps_of(nodes[j])[k],
        ) ==> stands_before(nodes, g[deps_of(nodes[j])[k]].asset.id, j)
}

/// The identity of every record that was left has been entered.
spec fn entered_all(trail: Trail) -> bool {
    forall|i: int| 0 <= i < trail.left.len() ==> trail.seen.contains((#[trigger] trail.left[i]).id)
}

/// Every identity that was entered and not left has at least the rank
/// `bound`.
spec fn open_ranks(trail: Trail, rank: spec_fn(PrefabUuid) -> nat, bound: nat) -> bool {
    forall|x: PrefabUuid|
        #![trigger trail.seen.contains(x)]
        trail.seen.contains(x) && !stands_before(trail.left, x, trail.left.len() as int) ==> rank(x)
            >= bound
}

/// `after` continues `before`: what was left stays in its place, what was
/// entered stays entered, and what is newly entered has been left.
spec fn continues(before: Trail, after: Trail) -> bool {
    &&& before.left.len() <= after.left.len()
    &&& forall|i: int| 0 <= i < before.left.len() ==> #[trigger] after.left[i] == before.left[i]
    &&& forall|x: PrefabUuid| #[trigger] before.seen.contains(x) ==> after.seen.contains(x)
    &&& forall|x: PrefabUuid| #[trigger]
        after.seen.contains(x) ==> before.seen.contains(x) || stands_before(
            after.left,
            x,
            after.left.len() as int,
        )
}

proof fn lemma_stands_on(before: Trail, after: Trail, id: PrefabUuid, j: int)
    requires
        continues(before, after),
        stands_before(before.left, id, j),
        j <= before.left.len(),
    ensures
        stands_before(after.left, id, j),
        stands_before(after.left, id, after.left.len() as int),
{
    let i = choose|i: int| 0 <= i < j && i < before.left.len() && (#[trigger] before.left[i]).id == id;
    assert(after.left[i] == before.left[i]);
}

proof fn lemma_continues_twice(a: Trail, b: Trail, c: Trail)
    requires
        continues(a, b),
        continues(b, c),
    ensures
        continues(a, c),
{
    assert forall|i: int| 0 <= i < a.left.len() implies #[trigger] c.left[i] == a.left[i] by {
        assert(b.left[i] == a.left[i]);
        assert(c.left[i] == b.left[i]);
    }
    assert forall|x: PrefabUuid| #[trigger] c.seen.contains(x) implies a.seen.contains(x)
        || stands_before(c.left, x, c.left.len() as int) by {
        if !stands_before(c.left, x, c.left.len() as int) {
            assert(b.seen.contains(x));
            if stands_before(b.left, x, b.left.len() as int) {
                lemma_stands_on(b, c, x, b.left.len() as int);
            }
        }
    }
}

proof fn lemma_unseen_monotone(g: Slots, fewer: Set<PrefabUuid>, more: Set<PrefabUuid>)
    requires
        g.dom().finite(),
        forall|x: PrefabUuid| #[trigger] fewer.contains(x) ==> more.contains(x),
    ensures
        unseen(g, more).len() <= unseen(g, fewer).len(),
        unseen(g, fewer).len() <= g.dom().len(),
{
    lemma_len_subset(unseen(g, fewer), g.dom());
    assert(unseen(g, more).subset_of(unseen(g, fewer)));
    lemma_len_subset(unseen(g, more), unseen(g, fewer));
}

proof fn lemma_unseen_drops(g: Slots, seen: Set<PrefabUuid>, d: LoadHandle)
    requires
        g.dom().finite(),
        g.contains_key(d),
        !seen.contains(g[d].asset.id),
    ensures
        unseen(g, seen.insert(g[d].asset.id)).len() < unseen(g, seen).len(),
{
    let before = unseen(g, seen);
    let after = unseen(g, seen.insert(g[d].asset.id));
    lemma_len_subset(before, g.dom());
    assert(before.contains(d));
    assert(after.subset_of(before.remove(d)));
    lemma_len_subset(after, before.remove(d));
}

proof fn lemma_visit(
    g: Slots,
    node: PrefabView,
    trail: Trail,
    depth: nat,
    rank: spec_fn(PrefabUuid) -> nat,
)
    requires
        g.dom().finite(),
        acyclic(g, rank),
        edges_descend(g, node, rank),
        entered_all(trail),
        dependencies_first(g, trail.left),
        open_ranks(trail, rank, rank(node.id) + 1),
        depth >= unseen(g, trail.seen.insert(node.id)).len() + 1,
    ensures
        ({
            let r = visit(g, node, trail, depth);
            &&& continues(trail, r)
            &&& entered_all(r)
            &&& dependencies_first(g, r.left)
            &&& r.left.len() > trail.left.len()
            &&& r.left.last() == node
            &&& r.seen.contains(node.id)
        }),
    decreases depth, 0nat,
{
    let entered = Trail { seen: trail.seen.insert(node.id), left: trail.left };
    let inner = visit_children(g, deps_of(node), 0, entered, (depth - 1) as nat);
    let r = visit(g, node, trail, depth);
    assert(r == Trail { seen: inner.seen, left: inner.left.push(node) });
    assert(open_ranks(entered, rank, rank(node.id)));
    lemma_visit_children(g, node, 0, entered, (depth - 1) as nat, rank);
    // what was left stays
    assert(continues(trail, r)) by {
        assert forall|x: PrefabUuid| #[trigger] r.seen.contains(x) implies trail.seen.contains(x)
            || stands_before(r.left, x, r.left.len() as int) by {
            if x == node.id {
                assert(r.left[inner.left.len() as int].id == x);
            } else if !trail.seen.contains(x) {
                assert(!entered.seen.contains(x));
                assert(stands_before(inner.left, x, inner.left.len() as int));
                let i = choose|i: int|
                    0 <= i < inner.left.len() && (#[trigger] inner.left[i]).id == x;
                assert(r.left[i].id == x);
            }
        }
        assert forall|i: int| 0 <= i < trail.left.len() implies #[trigger] r.left[i]
            == trail.left[i] by {
            assert(inner.left[i] == entered.left[i]);
        }
        assert forall|x: PrefabUuid| #[trigger] trail.seen.contains(x) implies r.seen.contains(
            x,
        ) by {
            assert(entered.seen.contains(x));
        }
    }
    assert(entered_all(r)) by {
        assert forall|i: int| 0 <= i < r.left.len() implies r.seen.contains(
            (#[trigger] r.left[i]).id,
        ) by {
            if i < inner.left.len() {
                assert(r.left[i] == inner.left[i]);
            } else {
                assert(entered.seen.contains(node.id));
            }
        }
    }
    assert(dependencies_first(g, r.left)) by {
        assert forall|j: int, k: int|
            0 <= j < r.left.len() && 0 <= k < deps_of(r.left[j]).len() && g.contains_key(
                #[trigger] deps_of(r.left[j])[k],
            ) implies stands_before(r.left, g[deps_of(r.left[j])[k]].asset.id, j) by {
            let id = g[deps_of(r.left[j])[k]].asset.id;
            if j < inner.left.len() {
                assert(r.left[j] == inner.left[j]);
                assert(stands_before(inner.left, id, j));
                let i = choose|i: int|
                    0 <= i < j && i < inner.left.len() && (#[trigger] inner.left[i]).id == id;
                assert(r.left[i].id == id);
            } else {
                assert(r.left[j] == node);
                assert(stands_before(inner.left, id, inner.left.len() as int));
                let i = choose|i: int|
                    0 <= i < inner.left.len() && (#[trigger] inner.left[i]).id == id;
                assert(r.left[i].id == id);
            }
        }
    }
}

proof fn lemma_visit_children(
    g: Slots,
    node: PrefabView,
    from: nat,
    trail: Trail,
    depth: nat,
    rank: spec_fn(PrefabUuid) -> nat,
)
    requires
        g.dom().finite(),
        acyclic(g, rank),
        edges_descend(g, node, rank),
        entered_all(trail),
        dependencies_first(g, trail.left),
        open_ranks(trail, rank, rank(node.id)),
        depth >= unseen(g, trail.seen).len(),
    ensures
        ({
            let r = visit_children(g, deps_of(node), from, trail, depth);
            &&& continues(trail, r)
            &&& entered_all(r)
            &&& dependencies_first(g, r.left)
            &&& forall|k: int|
                from <= k < deps_of(node).len() && g.contains_key(#[trigger] deps_of(node)[k])
                    ==> stands_before(r.left, g[deps_of(node)[k]].asset.id, r.left.len() as int)
        }),
    decreases depth, deps_of(node).len() - from + 1,
{
    let deps = deps_of(node);
    if from < deps.len() {
        let d = deps[from as int];
        let next = if g.contains_key(d) && !trail.seen.contains(g[d].asset.id) {
            visit(g, g[d].asset, trail, depth)
        } else {
            trail
        };
        if g.contains_key(d) {
            let child = g[d].asset;
            assert(rank(child.id) < rank(node.id));
            if !trail.seen.contains(child.id) {
                lemma_unseen_drops(g, trail.seen, d);
                assert(open_ranks(trail, rank, rank(child.id) + 1));
                lemma_visit(g, child, trail, depth, rank);
                assert(next.left[next.left.len() - 1].id == child.id);
                assert(stands_before(next.left, child.id, next.left.len() as int));
            } else {
                assert(stands_before(trail.left, child.id, trail.left.len() as int));
            }
        }
        assert(continues(trail, next));
        lemma_unseen_monotone(g, trail.seen, next.seen);
        assert(open_ranks(next, rank, rank(node.id))) by {
            assert forall|x: PrefabUuid|
                #![trigger next.seen.contains(x)]
                next.seen.contains(x) && !stands_before(
                    next.left,
                    x,
                    next.left.len() as int,
                ) implies rank(x) >= rank(node.id) by {
                assert(trail.seen.contains(x));
                if stands_before(trail.left, x, trail.left.len() as int) {
                    lemma_stands_on(trail, next, x, trail.left.len() as int);
                }
            }
        }
        lemma_visit_children(g, node, from + 1, next, depth, rank);
        let r = visit_children(g, deps, from + 1, next, depth);
        assert(r == visit_children(g, deps, from, trail, depth));
        lemma_continues_twice(trail, next, r);
        assert forall|k: int|
            from <= k < deps.len() && g.contains_key(#[trigger] deps[k]) implies stands_before(
            r.left,
            g[deps[k]].asset.id,
            r.left.len() as int,
        ) by {
            if k == from {
                lemma_stands_on(next, r, g[d].asset.id, next.left.len() as int);
            }
        }
    }
}

/// In a graph without cycles, every record of a cook order stands after the
/// published records that it builds on, and the cooked record stands last.
pub proof fn lemma_dependencies_first(
    g: Slots,
    root: PrefabView,
    rank: spec_fn(PrefabUuid) -> nat,
)
    requires
        g.dom().finite(),
        acyclic(g, rank),
        edges_descend(g, root, rank),
    ensures
        dependencies_first(g, cook_nodes(g, root)),
        cook_nodes(g, root).len() > 0,
        cook_nodes(g, root).last() == root,
        cook_order(g, root).len() == cook_nodes(g, root).len(),
        cook_order(g, root).last() == root.id,
{
    let start = empty_trail();
    lemma_unseen_monotone(g, start.seen, start.seen.insert(root.id));
    lemma_visit(g, root, start, g.dom().len() + 1, rank);
}

/// No two records have the same identity.
spec fn distinct_ids(nodes: Seq<PrefabView>) -> bool {
    forall|a: int, b: int|
        0 <= a < b < nodes.len() ==> (#[trigger] nodes[a]).id != (#[trigger] nodes[b]).id
}

/// `after` continues `before` with records whose identities `before` had
/// not entered.
spec fn adds_new(before: Trail, after: Trail) -> bool {
    &&& before.left.len() <= after.left.len()
    &&& forall|i: int| 0 <= i < before.left.len() ==> #[trigger] after.left[i] == before.left[i]
    &&& forall|x: PrefabUuid| #[trigger] before.seen.contains(x) ==> after.seen.contains(x)
    &&& forall|i: int|
        before.left.len() <= i < after.left.len() ==> !before.seen.contains(
            (#[trigger] after.left[i]).id,
        )
}

proof fn lemma_visit_distinct(g: Slots, node: PrefabView, trail: Trail, depth: nat)
    requires
        entered_all(trail),
        distinct_ids(trail.left),
        !trail.seen.contains(node.id),
    ensures
        ({
            let r = visit(g, node, trail, depth);
            &&& adds_new(trail, r)
            &&& entered_all(r)
            &&& distinct_ids(r.left)
        }),
    decreases depth, 0nat,
{
    if depth > 0 {
        let entered = Trail { seen: trail.seen.insert(node.id), left: trail.left };
        let inner = visit_children(g, deps_of(node), 0, entered, (depth - 1) as nat);
        let r = visit(g, node, trail, depth);
        lemma_children_distinct(g, deps_of(node), 0, entered, (depth - 1) as nat);
        assert(r == Trail { seen: inner.seen, left: inner.left.push(node) });
        assert(entered.seen.contains(node.id));
        assert forall|i: int| 0 <= i < r.left.len() implies r.seen.contains(
            (#[trigger] r.left[i]).id,
        ) by {
            if i < inner.left.len() {
                assert(r.left[i] == inner.left[i]);
            }
        }
        assert forall|i: int| 0 <= i < inner.left.len() implies (#[trigger] inner.left[i]).id
            != node.id by {
            if i < trail.left.len() {
                assert(inner.left[i] == entered.left[i]);
                assert(trail.seen.contains(trail.left[i].id));
            } else {
                assert(!entered.seen.contains(inner.left[i].id));
            }
        }
        assert forall|a: int, b: int| 0 <= a < b < r.left.len() implies (#[trigger] r.left[a]).id
            != (#[trigger] r.left[b]).id by {
            assert(r.left[a] == inner.left[a]);
            if b < inner.left.len() {
                assert(r.left[b] == inner.left[b]);
            }
        }
        assert forall|i: int| 0 <= i < trail.left.len() implies #[trigger] r.left[i]
            == trail.left[i] by {
            assert(inner.left[i] == entered.left[i]);
        }
        assert forall|x: PrefabUuid| #[trigger] trail.seen.contains(x) implies r.seen.contains(
            x,
        ) by {
            assert(entered.seen.contains(x));
        }
        assert forall|i: int| trail.left.len() <= i < r.left.len() implies !trail.seen.contains(
            (#[trigger] r.left[i]).id,
        ) by {
            if i < inner.left.len() {
                assert(r.left[i] == inner.left[i]);
                assert(!entered.seen.contains(inner.left[i].id));
            }
        }
    }
}

proof fn lemma_children_distinct(
    g: Slots,
    deps: Seq<LoadHandle>,
    from: nat,
    trail: Trail,
    depth: nat,
)
    requires
        entered_all(trail),
        distinct_ids(trail.left),
    ensures
        ({
            let r = visit_children(g, deps, from, trail, depth);
            &&& adds_new(trail, r)
            &&& entered_all(r)
            &&& distinct_ids(r.left)
        }),
    decreases depth, deps.len() - from + 1,
{
    if from < deps.len() {
        let d = deps[from as int];
        let next = if g.contains_key(d) && !trail.seen.contains(g[d].asset.id) {
            visit(g, g[d].asset, trail, depth)
        } else {
            trail
        };
        if g.contains_key(d) && !trail.seen.contains(g[d].asset.id) {
            lemma_visit_distinct(g, g[d].asset, trail, depth);
        }
        lemma_children_distinct(g, deps, from + 1, next, depth);
        let r = visit_children(g, deps, from + 1, next, depth);
        assert(r == visit_children(g, deps, from, trail, depth));
        assert forall|i: int| 0 <= i < trail.left.len() implies #[trigger] r.left[i]
            == trail.left[i] by {
            assert(next.left[i] == trail.left[i]);
            assert(r.left[i] == next.left[i]);
        }
        assert forall|x: PrefabUuid| #[trigger] trail.seen.contains(x) implies r.seen.contains(
            x,
        ) by {
            assert(next.seen.contains(x));
        }
        assert forall|i: int| trail.left.len() <= i < r.left.len() implies !trail.seen.contains(
            (#[trigger] r.left[i]).id,
        ) by {
            if i < next.left.len() {
                assert(r.left[i] == next.left[i]);
            } else {
                assert(!next.seen.contains(r.left[i].id));
            }
        }
    }
}

/// No identity occurs twice in a cook order, however many records of the
/// closure build on it.
pub proof fn lemma_cook_order_distinct(g: Slots, root: PrefabView)
    ensures
        cook_order(g, root).no_duplicates(),
{
    lemma_visit_distinct(g, root, empty_trail(), g.dom().len() + 1);
    let nodes = cook_nodes(g, root);
    assert forall|a: int, b: int|
        0 <= a < cook_order(g, root).len() && 0 <= b < cook_order(g, root).len() && a
            != b implies cook_order(g, root)[a] != cook_order(g, root)[b] by {
        if a < b {
            assert(nodes[a].id != nodes[b].id);
        } else {
            assert(nodes[b].id != nodes[a].id);
        }
    }
}

/// A record with the identity `id` stands among `nodes`.
pub open spec fn stands_among(nodes: Seq<PrefabView>, id: PrefabUuid) -> bool {
    stands_before(nodes, id, nodes.len() as int)
}

/// Whatever a record among `nodes` builds on, and is published, stands among
/// `nodes` too.
pub open spec fn closed_under_dependencies(g: Slots, nodes: Seq<PrefabView>) -> bool {
    forall|j: int, k: int|
        0 <= j < nodes.len() && 0 <= k < deps_of(nodes[j]).len() && g.contains_key(
            #[trigger] deps_of(nodes[j])[k],
        ) ==> stands_among(nodes, g[deps_of(nodes[j])[k]].asset.id)
}

/// Whatever a record that was left builds on, and is published, has been
/// entered.
spec fn dependencies_entered(g: Slots, trail: Trail) -> bool {
    forall|j: int, k: int|
        0 <= j < trail.left.len() && 0 <= k < deps_of(trail.left[j]).len() && g.contains_key(
            #[trigger] deps_of(trail.left[j])[k],
        ) ==> trail.seen.contains(g[deps_of(trail.left[j])[k]].asset.id)
}

proof fn lemma_visit_closed(g: Slots, node: PrefabView, trail: Trail, depth: nat)
    requires
        g.dom().finite(),
        dependencies_entered(g, trail),
        depth >= unseen(g, trail.seen.insert(node.id)).len() + 1,
    ensures
        ({
            let r = visit(g, node, trail, depth);
            &&& continues(trail, r)
            &&& dependencies_entered(g, r)
            &&& r.seen.contains(node.id)
        }),
    decreases depth, 0nat,
{
    let entered = Trail { seen: trail.seen.insert(node.id), left: trail.left };
    let inner = visit_children(g, deps_of(node), 0, entered, (depth - 1) as nat);
    let r = visit(g, node, trail, depth);
    assert(r == Trail { seen: inner.seen, left: inner.left.push(node) });
    assert(dependencies_entered(g, entered)) by {
        assert forall|j: int, k: int|
            0 <= j < entered.left.len() && 0 <= k < deps_of(entered.left[j]).len()
                && g.contains_key(
                #[trigger] deps_of(entered.left[j])[k],
            ) implies entered.seen.contains(g[deps_of(entered.left[j])[k]].asset.id) by {
            assert(trail.seen.contains(g[deps_of(trail.left[j])[k]].asset.id));
        }
    }
    lemma_children_closed(g, deps_of(node), 0, entered, (depth - 1) as nat);
    assert(entered.seen.contains(node.id));
    assert(continues(trail, r)) by {
        assert forall|x: PrefabUuid| #[trigger] r.seen.contains(x) implies trail.seen.contains(x)
            || stands_before(r.left, x, r.left.len() as int) by {
            if x == node.id {
                assert(r.left[inner.left.len() as int].id == x);
            } else if !trail.seen.contains(x) {
                assert(!entered.seen.contains(x));
                assert(stands_before(inner.left, x, inner.left.len() as int));
                let i = choose|i: int|
                    0 <= i < inner.left.len() && (#[trigger] inner.left[i]).id == x;
                assert(r.left[i].id == x);
            }
        }
        assert forall|i: int| 0 <= i < trail.left.len() implies #[trigger] r.left[i]
            == trail.left[i] by {
            assert(inner.left[i] == entered.left[i]);
        }
        assert forall|x: PrefabUuid| #[trigger] trail.seen.contains(x) implies r.seen.contains(
            x,
        ) by {
            assert(entered.seen.contains(x));
        }
    }
    assert(dependencies_entered(g, r)) by {
        assert forall|j: int, k: int|
            0 <= j < r.left.len() && 0 <= k < deps_of(r.left[j]).len() && g.contains_key(
                #[trigger] deps_of(r.left[j])[k],
            ) implies r.seen.contains(g[deps_of(r.left[j])[k]].asset.id) by {
            if j < inner.left.len() {
                assert(r.left[j] == inner.left[j]);
                assert(inner.seen.contains(g[deps_of(inner.left[j])[k]].asset.id));
            } else {
                assert(r.left[j] == node);
            }
        }
    }
}

proof fn lemma_children_closed(
    g: Slots,
    deps: Seq<LoadHandle>,
    from: nat,
    trail: Trail,
    depth: nat,
)
    requires
        g.dom().finite(),
        dependencies_entered(g, trail),
        depth >= unseen(g, trail.seen).len(),
    ensures
        ({
            let r = visit_children(g, deps, from, trail, depth);
            &&& continues(trail, r)
            &&& dependencies_entered(g, r)
            &&& forall|k: int|
                from <= k < deps.len() && g.contains_key(#[trigger] deps[k]) ==> r.seen.contains(
                    g[deps[k]].asset.id,
                )
        }),
    decreases depth, deps.len() - from + 1,
{
    if from < deps.len() {
        let d = deps[from as int];
        let next = if g.contains_key(d) && !trail.seen.contains(g[d].asset.id) {
            visit(g, g[d].asset, trail, depth)
        } else {
            trail
        };
        if g.contains_key(d) && !trail.seen.contains(g[d].asset.id) {
            lemma_unseen_drops(g, trail.seen, d);
            lemma_visit_closed(g, g[d].asset, trail, depth);
        }
        assert(continues(trail, next));
        lemma_unseen_monotone(g, trail.seen, next.seen);
        lemma_children_closed(g, deps, from + 1, next, depth);
        let r = visit_children(g, deps, from + 1, next, depth);
        assert(r == visit_children(g, deps, from, trail, depth));
        lemma_continues_twice(trail, next, r);
        assert forall|k: int|
            from <= k < deps.len() && g.contains_key(#[trigger] deps[k]) implies r.seen.contains(
            g[deps[k]].asset.id,
        ) by {
            if k == from {
                assert(next.seen.contains(g[d].asset.id));
            }
        }
    }
}

/// A cook order holds the whole closure, on every graph: whatever a record
/// of it builds on, and is published, stands in it too.
pub proof fn lemma_cook_order_closed(g: Slots, root: PrefabView)
    requires
        g.dom().finite(),
    ensures
        closed_under_dependencies(g, cook_nodes(g, root)),
        stands_among(cook_nodes(g, root), root.id),
{
    let start = empty_trail();
    lemma_unseen_monotone(g, start.seen, start.seen.insert(root.id));
    lemma_visit_closed(g, root, start, g.dom().len() + 1);
    let r = visit(g, root, start, g.dom().len() + 1);
    assert forall|j: int, k: int|
        0 <= j < r.left.len() && 0 <= k < deps_of(r.left[j]).len() && g.contains_key(
            #[trigger] deps_of(r.left[j])[k],
        ) implies stands_among(r.left, g[deps_of(r.left[j])[k]].asset.id) by {
        assert(r.seen.contains(g[deps_of(r.left[j])[k]].asset.id));
    }
}

} // verus!
