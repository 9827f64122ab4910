//! Walks along directed edges, and the least number of hops between two
//! nodes. Nodes are integers and an edge is the pair of its source and its
//! target.

use vstd::prelude::*;

verus! {

/// Whether `edges` holds an edge from `u` to `v`.
pub open spec fn has_edge(edges: Seq<(int, int)>, u: int, v: int) -> bool {
    exists|k: int| 0 <= k < edges.len() && #[trigger] edges[k] == (u, v)
}

/// Whether `p` is a walk: it has a first node, and an edge leads from each
/// of its nodes to the next.
pub open spec fn is_walk(edges: Seq<(int, int)>, p: Seq<int>) -> bool {
    &&& p.len() >= 1
    &&& forall|i: int| 0 <= i < p.len() - 1 ==> has_edge(edges, #[trigger] p[i], p[i + 1])
}

/// Whether `p` is a walk from `s` to `t`.
pub open spec fn walk_between(edges: Seq<(int, int)>, p: Seq<int>, s: int, t: int) -> bool {
    &&& is_walk(edges, p)
    &&& p.first() == s
    &&& p.last() == t
}

/// Whether some walk from `s` to `t` takes exactly `hops` edges.
pub open spec fn reaches_in(edges: Seq<(int, int)>, s: int, t: int, hops: nat) -> bool {
    exists|p: Seq<int>| #[trigger] walk_between(edges, p, s, t) && p.len() == hops + 1
}

/// Whether some walk leads from `s` to `t`.
pub open spec fn reachable(edges: Seq<(int, int)>, s: int, t: int) -> bool {
    exists|hops: nat| reaches_in(edges, s, t, hops)
}

/// Whether `hops` is the length of a shortest walk from `s` to `t`.
pub open spec fn is_distance(edges: Seq<(int, int)>, s: int, t: int, hops: nat) -> bool {
    &&& reaches_in(edges, s, t, hops)
    &&& forall|h: nat| h < hops ==> !reaches_in(edges, s, t, h)
}

/// The length of a shortest walk from `s` to `t`, where there is a walk.
pub open spec fn distance(edges: Seq<(int, int)>, s: int, t: int) -> nat {
    choose|hops: nat| is_distance(edges, s, t, hops)
}

/// The edges with one more edge join the nodes that were joined and those
/// of the new edge.
pub proof fn lemma_has_edge_push(edges: Seq<(int, int)>, edge: (int, int), u: int, v: int)
    ensures
        has_edge(edges.push(edge), u, v) <==> has_edge(edges, u, v) || edge == (u, v),
{
    let more = edges.push(edge);
    if has_edge(more, u, v) {
        let k = choose|k: int| 0 <= k < more.len() && #[trigger] more[k] == (u, v);
        if k < edges.len() {
            assert(edges[k] == (u, v));
        }
    }
    if has_edge(edges, u, v) {
        let k = choose|k: int| 0 <= k < edges.len() && #[trigger] edges[k] == (u, v);
        assert(more[k] == (u, v));
    }
    if edge == (u, v) {
        assert(more[edges.len() as int] == (u, v));
    }
}

/// A node reaches itself in no hops.
pub proof fn lemma_reaches_itself(edges: Seq<(int, int)>, s: int)
    ensures
        reaches_in(edges, s, s, 0),
        is_distance(edges, s, s, 0),
{
    assert(walk_between(edges, seq![s], s, s));
}

/// A walk that is followed by one more edge is a walk that is one hop
/// longer.
pub proof fn lemma_reaches_step(edges: Seq<(int, int)>, s: int, u: int, v: int, hops: nat)
    requires
        reaches_in(edges, s, u, hops),
        has_edge(edges, u, v),
    ensures
        reaches_in(edges, s, v, hops + 1),
{
    let p = choose|p: Seq<int>| #[trigger] walk_between(edges, p, s, u) && p.len() == hops + 1;
    let q = p.push(v);
    assert forall|i: int| 0 <= i < q.len() - 1 implies has_edge(edges, #[trigger] q[i], q[i + 1]) by {
        if i < p.len() - 1 {
            assert(has_edge(edges, p[i], p[i + 1]));
        }
    }
    assert(walk_between(edges, q, s, v));
}

/// A walk of at least one hop ends with an edge, and what comes before
/// that edge is a walk that is one hop shorter.
pub proof fn lemma_reaches_last_step(edges: Seq<(int, int)>, s: int, t: int, hops: nat) -> (u: int)
    requires
        reaches_in(edges, s, t, hops),
        hops > 0,
    ensures
        reaches_in(edges, s, u, (hops - 1) as nat),
        has_edge(edges, u, t),
{
    let p = choose|p: Seq<int>| #[trigger] walk_between(edges, p, s, t) && p.len() == hops + 1;
    let q = p.drop_last();
    let u = q.last();
    assert(p[hops - 1] == u);
    assert(has_edge(edges, p[hops - 1], p[hops - 1 + 1]));
    assert forall|i: int| 0 <= i < q.len() - 1 implies has_edge(edges, #[trigger] q[i], q[i + 1]) by {
        assert(has_edge(edges, p[i], p[i + 1]));
    }
    assert(walk_between(edges, q, s, u));
    u
}

/// Among the numbers of hops in which `t` is reached there is a least one.
pub proof fn lemma_least_hops(edges: Seq<(int, int)>, s: int, t: int, hops: nat) -> (least: nat)
    requires
        reaches_in(edges, s, t, hops),
    ensures
        least <= hops,
        is_distance(edges, s, t, least),
    decreases hops,
{
    if exists|h: nat| h < hops && reaches_in(edges, s, t, h) {
        let h = choose|h: nat| h < hops && reaches_in(edges, s, t, h);
        lemma_least_hops(edges, s, t, h)
    } else {
        hops
    }
}

/// The distance to a node that can be reached is the length of a shortest
/// walk to it, and no other number is.
pub proof fn lemma_distance(edges: Seq<(int, int)>, s: int, t: int)
    requires
        reachable(edges, s, t),
    ensures
        is_distance(edges, s, t, distance(edges, s, t)),
        forall|hops: nat| is_distance(edges, s, t, hops) ==> hops == distance(edges, s, t),
{
    let h = choose|h: nat| reaches_in(edges, s, t, h);
    let least = lemma_least_hops(edges, s, t, h);
    assert(is_distance(edges, s, t, distance(edges, s, t)));
}

/// Whether two sets of edges join the same nodes, whatever the order of the
/// edges and however often an edge is repeated.
pub open spec fn same_links(first: Seq<(int, int)>, second: Seq<(int, int)>) -> bool {
    forall|u: int, v: int|
        #![trigger has_edge(first, u, v)]
        #![trigger has_edge(second, u, v)]
        has_edge(first, u, v) <==> has_edge(second, u, v)
}

/// Edges that join the same nodes give the same walks, so the same nodes
/// are reached in the same numbers of hops and the distances are the same.
pub proof fn lemma_same_links(first: Seq<(int, int)>, second: Seq<(int, int)>, s: int, t: int)
    requires
        same_links(first, second),
    ensures
        forall|hops: nat| reaches_in(first, s, t, hops) <==> reaches_in(second, s, t, hops),
        reachable(first, s, t) <==> reachable(second, s, t),
        forall|hops: nat| is_distance(first, s, t, hops) <==> is_distance(second, s, t, hops),
        reachable(first, s, t) ==> distance(first, s, t) == distance(second, s, t),
{
    assert forall|hops: nat| reaches_in(first, s, t, hops) <==> reaches_in(
        second,
        s,
        t,
        hops,
    ) by {
        if reaches_in(first, s, t, hops) {
            let p = choose|p: Seq<int>| #[trigger]
                walk_between(first, p, s, t) && p.len() == hops + 1;
            assert forall|i: int| 0 <= i < p.len() - 1 implies has_edge(
                second,
                #[trigger] p[i],
                p[i + 1],
            ) by {
                assert(has_edge(first, p[i], p[i + 1]));
            }
            assert(walk_between(second, p, s, t));
        }
        if reaches_in(second, s, t, hops) {
            let p = choose|p: Seq<int>| #[trigger]
                walk_between(second, p, s, t) && p.len() == hops + 1;
            assert forall|i: int| 0 <= i < p.len() - 1 implies has_edge(
                first,
                #[trigger] p[i],
                p[i + 1],
            ) by {
                assert(has_edge(second, p[i], p[i + 1]));
            }
            assert(walk_between(first, p, s, t));
        }
    }
    if reachable(first, s, t) {
        let h = choose|h: nat| reaches_in(first, s, t, h);
        assert(reaches_in(second, s, t, h));
        lemma_distance(first, s, t);
        lemma_distance(second, s, t);
        assert(is_distance(second, s, t, distance(first, s, t)));
    }
    if reachable(second, s, t) {
        let h = choose|h: nat| reaches_in(second, s, t, h);
        assert(reaches_in(first, s, t, h));
    }
}

} // verus!
