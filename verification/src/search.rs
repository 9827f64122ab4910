//! Breadth-first search from one node: the least number of hops to every
//! node that can be reached.

use crate::graph::lemma_out_neighbors;
use crate::graph::out_neighbors;
use crate::graph::CharacterGraph;
use crate::graph::GraphModel;
use crate::paths::distance;
use crate::paths::has_edge;
use crate::paths::is_distance;
use crate::paths::is_walk;
use crate::paths::lemma_distance;
use crate::paths::lemma_reaches_itself;
use crate::paths::lemma_reaches_last_step;
use crate::paths::lemma_reaches_step;
use crate::paths::lemma_same_links;
use crate::paths::reachable;
use crate::paths::reaches_in;
use crate::paths::same_links;
use crate::paths::walk_between;
use std::collections::HashMap;
use std::collections::VecDeque;
use vstd::hash_map::StringHashMap;
use vstd::prelude::*;
use vstd::seq_lib::seq_to_set_is_finite;
use vstd::set_lib::lemma_int_range;
use vstd::set_lib::lemma_len_subset;
use vstd::set_lib::set_int_range;

verus! {

/// Why a search gave no distances.
#[derive(Clone, Copy, Debug, PartialEq, Eq, Structural)]
pub enum SearchError {
    /// No node of the graph has the name at which the search was to start.
    NotFound,
}

impl SearchError {
    /// The error in words.
    pub fn message(&self) -> (text: String)
        ensures
            text@ == "Start character not found"@,
    {
        "Start character not found".to_owned()
    }
}

/// The distances that one search found: for each node that was reached its
/// name and the number of hops to it.
pub struct DistanceMap {
    hops: StringHashMap<usize>,
    order: Vec<String>,
}

impl View for DistanceMap {
    type V = Map<Seq<char>, nat>;

    closed spec fn view(&self) -> Map<Seq<char>, nat> {
        Map::new(
            |name: Seq<char>| self.hops@.contains_key(name),
            |name: Seq<char>| self.hops@[name] as nat,
        )
    }
}

impl DistanceMap {
    /// Each name of the map is listed once, and no other.
    pub closed spec fn wf(&self) -> bool {
        &&& self.order.deep_view().no_duplicates()
        &&& forall|name: Seq<char>| #[trigger]
            self.hops@.contains_key(name) <==> self.order.deep_view().contains(name)
    }

    /// The map without entries.
    pub fn new() -> (map: Self)
        ensures
            map.wf(),
            map@ == Map::<Seq<char>, nat>::empty(),
    {
        let map = DistanceMap { hops: StringHashMap::new(), order: Vec::new() };
        assert(map@ =~= Map::<Seq<char>, nat>::empty());
        map
    }

    /// Sets the number of hops to `name`, in place of an earlier one if
    /// there was one.
    pub fn insert(&mut self, name: String, hops: usize)
        requires
            old(self).wf(),
        ensures
            final(self).wf(),
            final(self)@ == old(self)@.insert(name@, hops as nat),
    {
        if !self.hops.contains_key(name.as_str()) {
            self.order.push(name.clone());
            proof {
                let before = old(self).order.deep_view();
                let after = self.order.deep_view();
                assert(after =~= before.push(name@));
            }
        }
        self.hops.insert(name, hops);
        proof {
            let before = old(self).order.deep_view();
            let after = self.order.deep_view();
            assert forall|n: Seq<char>| #[trigger]
                self.hops@.contains_key(n) <==> after.contains(n) by {
                if after.contains(n) {
                    let i = choose|i: int| 0 <= i < after.len() && after[i] == n;
                    if i < before.len() {
                        assert(before[i] == n);
                        assert(before.contains(n));
                    }
                }
                if before.contains(n) {
                    let i = choose|i: int| 0 <= i < before.len() && before[i] == n;
                    assert(after[i] == n);
                }
                if n == name@ && !old(self).hops@.contains_key(name@) {
                    assert(after[before.len() as int] == n);
                }
            }
            assert forall|i: int, j: int|
                0 <= i < after.len() && 0 <= j < after.len() && i != j implies after[i]
                != after[j] by {
                if i < before.len() {
                    assert(before.contains(before[i]));
                }
                if j < before.len() {
                    assert(before.contains(before[j]));
                }
            }
            assert(self@ =~= old(self)@.insert(name@, hops as nat));
        }
    }

    /// The number of hops to `name`, if the map has it.
    pub fn get(&self, name: &str) -> (hops: Option<usize>)
        ensures
            match hops {
                Some(h) => self@.contains_key(name@) && self@[name@] == h,
                None => !self@.contains_key(name@),
            },
    {
        match self.hops.get(name) {
            Some(h) => Some(*h),
            None => None,
        }
    }

    /// Whether the map has `name`.
    pub fn contains_key(&self, name: &str) -> (found: bool)
        ensures
            found == self@.contains_key(name@),
    {
        self.hops.contains_key(name)
    }

    /// The number of entries.
    pub fn len(&self) -> (n: usize)
        requires
            self.wf(),
        ensures
            n == self@.len(),
            self@.dom().finite(),
    {
        proof {
            let listed = self.order.deep_view();
            assert(self@.dom() =~= listed.to_set());
            seq_to_set_is_finite(listed);
            listed.unique_seq_to_set();
        }
        self.order.len()
    }

    /// The names of the map, each once, in the order in which they were
    /// first set.
    pub fn names(&self) -> (names: &Vec<String>)
        requires
            self.wf(),
        ensures
            names.deep_view().no_duplicates(),
            forall|name: Seq<char>| #[trigger]
                names.deep_view().contains(name) <==> self@.contains_key(name),
    {
        &self.order
    }
}

/// The distances from node `s`: the name of each node that can be reached
/// from `s`, with the length of a shortest walk from `s` to that node.
pub open spec fn distances_from(g: GraphModel, s: int) -> Map<Seq<char>, nat> {
    Map::new(
        |name: Seq<char>|
            exists|t: int|
                0 <= t < g.names.len() && #[trigger] g.names[t] == name && reachable(g.edges, s, t),
        |name: Seq<char>| distance(g.edges, s, g.id_of(name)),
    )
}

/// The distances from a node of a well-formed graph are exact: a name is
/// in the map if and only if its node can be reached, so a node that cannot
/// be reached never is; the number with it is the length of a shortest walk
/// to that node; every name of the map is the name of a node; and the start
/// is there, at distance 0.
pub proof fn lemma_distances_from(g: GraphModel, s: int)
    requires
        g.wf(),
        0 <= s < g.names.len(),
    ensures
        forall|t: int|
            0 <= t < g.names.len() ==> (distances_from(g, s).contains_key(#[trigger] g.names[t])
                <==> reachable(g.edges, s, t)),
        forall|t: int|
            0 <= t < g.names.len() && reachable(g.edges, s, t) ==> is_distance(
                g.edges,
                s,
                t,
                distances_from(g, s)[#[trigger] g.names[t]],
            ),
        forall|name: Seq<char>| #[trigger]
            distances_from(g, s).contains_key(name) ==> g.names.contains(name),
        distances_from(g, s).contains_key(g.names[s]),
        distances_from(g, s)[g.names[s]] == 0,
{
    let found = distances_from(g, s);
    assert forall|t: int| 0 <= t < g.names.len() && reachable(g.edges, s, t) implies is_distance(
        g.edges,
        s,
        t,
        found[#[trigger] g.names[t]],
    ) by {
        assert(g.names.contains(g.names[t]));
        assert(g.id_of(g.names[t]) == t);
        lemma_distance(g.edges, s, t);
    }
    lemma_reaches_itself(g.edges, s);
    assert(reachable(g.edges, s, s));
    lemma_distance(g.edges, s, s);
}

/// Graphs with the same names whose edges join the same nodes have the same
/// distances, however often an edge is repeated in the one or the other.
pub proof fn lemma_same_links_same_distances(first: GraphModel, second: GraphModel, s: int)
    requires
        first.wf(),
        first.names == second.names,
        same_links(first.edges, second.edges),
    ensures
        distances_from(first, s) == distances_from(second, s),
{
    let one = distances_from(first, s);
    let other = distances_from(second, s);
    assert forall|name: Seq<char>| one.contains_key(name) <==> other.contains_key(name) by {
        if one.contains_key(name) {
            let t = choose|t: int|
                0 <= t < first.names.len() && #[trigger] first.names[t] == name && reachable(
                    first.edges,
                    s,
                    t,
                );
            lemma_same_links(first.edges, second.edges, s, t);
            assert(second.names[t] == name);
        }
        if other.contains_key(name) {
            let t = choose|t: int|
                0 <= t < second.names.len() && #[trigger] second.names[t] == name && reachable(
                    second.edges,
                    s,
                    t,
                );
            lemma_same_links(first.edges, second.edges, s, t);
            assert(first.names[t] == name);
        }
    }
    assert forall|name: Seq<char>| one.contains_key(name) implies one[name] == other[name] by {
        let t = choose|t: int|
            0 <= t < first.names.len() && #[trigger] first.names[t] == name && reachable(
                first.edges,
                s,
                t,
            );
        assert(first.names.contains(name));
        assert(first.id_of(name) == t);
        lemma_same_links(first.edges, second.edges, s, t);
    }
    assert(one =~= other);
}

/// The distances go by layers. Only the start is at distance 0, and a node
/// at a distance `d` above 0 has an edge from a node at distance `d - 1`.
pub proof fn lemma_layering(g: GraphModel, s: int, t: int)
    requires
        g.wf(),
        0 <= s < g.names.len(),
        0 <= t < g.names.len(),
        distances_from(g, s).contains_key(g.names[t]),
    ensures
        distances_from(g, s)[g.names[t]] == 0 <==> t == s,
        t != s ==> exists|u: int|
            0 <= u < g.names.len() && has_edge(g.edges, u, t) && distances_from(g, s).contains_key(
                #[trigger] g.names[u],
            ) && distances_from(g, s)[g.names[u]] == distances_from(g, s)[g.names[t]] - 1,
{
    let found = distances_from(g, s);
    let d = found[g.names[t]];
    lemma_distances_from(g, s);
    assert(is_distance(g.edges, s, t, d));
    if d == 0 {
        let p = choose|p: Seq<int>| #[trigger] walk_between(g.edges, p, s, t) && p.len() == 1;
        assert(p.first() == p.last());
    } else {
        let u = lemma_reaches_last_step(g.edges, s, t, d);
        let k = choose|k: int| 0 <= k < g.edges.len() && #[trigger] g.edges[k] == (u, t);
        assert(0 <= g.edges[k].0 < g.names.len());
        assert(reachable(g.edges, s, u));
        let du = found[g.names[u]];
        assert(is_distance(g.edges, s, u, du));
        if du < d - 1 {
            lemma_reaches_step(g.edges, s, u, t, du);
            assert(false);
        }
    }
}

/// A set of labelled nodes that holds `s` with the label 0 and, with each
/// of its nodes, the targets of that node's edges, each with a label that
/// is greater by one at most: every walk from `s` ends in the set, at a
/// node whose label is at most the number of its hops.
proof fn lemma_closed_set_bounds_walks(
    edges: Seq<(int, int)>,
    s: int,
    seen: Set<int>,
    label: Map<int, nat>,
    p: Seq<int>,
)
    requires
        label.dom() == seen,
        seen.contains(s),
        label[s] == 0,
        forall|k: int|
            0 <= k < edges.len() && seen.contains((#[trigger] edges[k]).0) ==> seen.contains(
                edges[k].1,
            ) && label[edges[k].1] <= label[edges[k].0] + 1,
        is_walk(edges, p),
        p.first() == s,
    ensures
        seen.contains(p.last()),
        label[p.last()] <= p.len() - 1,
    decreases p.len(),
{
    if p.len() > 1 {
        let q = p.drop_last();
        assert forall|i: int| 0 <= i < q.len() - 1 implies has_edge(edges, #[trigger] q[i], q[i + 1]) by {
            assert(has_edge(edges, p[i], p[i + 1]));
        }
        lemma_closed_set_bounds_walks(edges, s, seen, label, q);
        let u = p[p.len() - 2];
        assert(q.last() == u);
        assert(has_edge(edges, u, p[p.len() - 2 + 1]));
        let k = choose|k: int| 0 <= k < edges.len() && #[trigger] edges[k] == (u, p.last());
        assert(seen.contains(edges[k].0));
    }
}

/// What holds of a search from `s` while it runs. The nodes met so far,
/// `seen`, carry a label each; those in `done` have left the queue, the
/// others wait in it. `layer` is the label of the node that left the queue
/// last, and `pending` is that node while its edges are still being
/// followed.
#[verifier::opaque]
spec fn search_inv(
    g: GraphModel,
    s: int,
    seen: Set<int>,
    label: Map<int, nat>,
    done: Set<int>,
    queue: Seq<(usize, usize)>,
    found: Map<Seq<char>, nat>,
    layer: int,
    pending: Option<int>,
) -> bool {
    &&& seen.finite()
    &&& label.dom() == seen
    &&& seen.contains(s)
    &&& label[s] == 0
    &&& forall|v: int| #[trigger] seen.contains(v) ==> 0 <= v < g.names.len()
    // A label is the length of a walk from the start, is less than the
    // number of nodes met, and is at most one layer ahead.
    &&& forall|v: int| #[trigger] seen.contains(v) ==> reaches_in(g.edges, s, v, label[v])
    &&& forall|v: int| #[trigger] seen.contains(v) ==> label[v] < seen.len()
    &&& forall|v: int| #[trigger] seen.contains(v) ==> label[v] <= layer + 1
    // The queue holds nodes with their labels, the nearer ones first.
    &&& forall|i: int|
        0 <= i < queue.len() ==> {
            &&& seen.contains((#[trigger] queue[i]).0 as int)
            &&& label[queue[i].0 as int] == queue[i].1
            &&& layer <= queue[i].1
        }
    &&& forall|i: int, j: int|
        0 <= i <= j < queue.len() ==> (#[trigger] queue[i]).1 <= (#[trigger] queue[j]).1
    // A node that was met is done or waits in the queue.
    &&& forall|v: int| #[trigger] done.contains(v) ==> seen.contains(v)
    &&& forall|v: int|
        seen.contains(v) && !done.contains(v) ==> exists|i: int|
            0 <= i < queue.len() && (#[trigger] queue[i]).0 == v
    // The edges of a node that is done lead to nodes that were met, at most
    // one layer further on.
    &&& forall|k: int|
        0 <= k < g.edges.len() && done.contains((#[trigger] g.edges[k]).0) && pending != Some(
            g.edges[k].0,
        ) ==> seen.contains(g.edges[k].1) && label[g.edges[k].1] <= label[g.edges[k].0] + 1
    // The distances found are the labels of the nodes that are done.
    &&& forall|v: int| #[trigger]
        done.contains(v) ==> found.contains_key(g.names[v]) && found[g.names[v]] == label[v]
    &&& forall|name: Seq<char>| #[trigger]
        found.contains_key(name) ==> exists|v: int| done.contains(v) && g.names[v] == name
}

/// A search starts with the start in the queue, labelled 0.
proof fn lemma_search_start(g: GraphModel, start: usize)
    requires
        start < g.names.len(),
    ensures
        search_inv(
            g,
            start as int,
            set![start as int],
            map![start as int => 0nat],
            Set::empty(),
            seq![(start, 0usize)],
            Map::empty(),
            0,
            None,
        ),
{
    reveal(search_inv);
    let s = start as int;
    lemma_reaches_itself(g.edges, s);
    assert(seq![(start, 0usize)][0] == (start, 0usize));
}

/// The node at the front of the queue leaves it: it is done, its label is
/// the distance found for it and the layer from now on, and its edges are
/// to be followed.
proof fn lemma_search_take(
    g: GraphModel,
    s: int,
    seen: Set<int>,
    label: Map<int, nat>,
    done: Set<int>,
    queue: Seq<(usize, usize)>,
    found: Map<Seq<char>, nat>,
    layer: int,
)
    requires
        g.wf(),
        search_inv(g, s, seen, label, done, queue, found, layer, None),
        queue.len() > 0,
    ensures
        search_inv(
            g,
            s,
            seen,
            label,
            done.insert(queue[0].0 as int),
            queue.subrange(1, queue.len() as int),
            found.insert(g.names[queue[0].0 as int], queue[0].1 as nat),
            queue[0].1 as int,
            Some(queue[0].0 as int),
        ),
        seen.contains(queue[0].0 as int),
        queue[0].0 < g.names.len(),
        label[queue[0].0 as int] == queue[0].1,
        queue[0].1 < seen.len(),
        label.dom() == seen,
        seen.finite(),
        seen.subset_of(set_int_range(0, g.names.len() as int)),
        forall|v: int| #[trigger] seen.contains(v) ==> label[v] <= queue[0].1 + 1,
{
    reveal(search_inv);
    let u = queue[0].0 as int;
    let dist = queue[0].1;
    let rest = queue.subrange(1, queue.len() as int);
    let done_after = done.insert(u);
    let found_after = found.insert(g.names[u], dist as nat);
    assert forall|i: int| 0 <= i < rest.len() implies {
        &&& seen.contains((#[trigger] rest[i]).0 as int)
        &&& label[rest[i].0 as int] == rest[i].1
        &&& dist <= rest[i].1
    } by {
        assert(rest[i] == queue[i + 1]);
        assert(queue[0].1 <= queue[i + 1].1);
    }
    assert forall|i: int, j: int| 0 <= i <= j < rest.len() implies (#[trigger] rest[i]).1 <= (
    #[trigger] rest[j]).1 by {
        assert(rest[i] == queue[i + 1]);
        assert(rest[j] == queue[j + 1]);
    }
    assert forall|v: int| seen.contains(v) && !done_after.contains(v) implies exists|i: int|
        0 <= i < rest.len() && (#[trigger] rest[i]).0 == v by {
        let i = choose|i: int| 0 <= i < queue.len() && (#[trigger] queue[i]).0 == v;
        assert(rest[i - 1] == queue[i]);
    }
    assert forall|name: Seq<char>| #[trigger] found_after.contains_key(name) implies exists|
        v: int,
    | done_after.contains(v) && g.names[v] == name by {
        if name == g.names[u] {
            assert(done_after.contains(u));
        } else {
            let v = choose|v: int| done.contains(v) && g.names[v] == name;
            assert(done_after.contains(v));
        }
    }
}

/// An edge from the pending node leads to a node that was not met before:
/// that node is met, with the next label, and joins the queue at its end.
proof fn lemma_search_meet(
    g: GraphModel,
    s: int,
    seen: Set<int>,
    label: Map<int, nat>,
    done: Set<int>,
    queue: Seq<(usize, usize)>,
    found: Map<Seq<char>, nat>,
    dist: usize,
    u: int,
    next: usize,
)
    requires
        g.wf(),
        search_inv(g, s, seen, label, done, queue, found, dist as int, Some(u)),
        done.contains(u),
        label[u] == dist,
        dist < usize::MAX,
        has_edge(g.edges, u, next as int),
        !seen.contains(next as int),
    ensures
        search_inv(
            g,
            s,
            seen.insert(next as int),
            label.insert(next as int, (dist + 1) as nat),
            done,
            queue.push((next, (dist + 1) as usize)),
            found,
            dist as int,
            Some(u),
        ),
{
    reveal(search_inv);
    let w = next as int;
    let seen_after = seen.insert(w);
    let label_after = label.insert(w, (dist + 1) as nat);
    let queue_after = queue.push((next, (dist + 1) as usize));
    let k = choose|k: int| 0 <= k < g.edges.len() && #[trigger] g.edges[k] == (u, w);
    assert(0 <= g.edges[k].1 < g.names.len());
    lemma_reaches_step(g.edges, s, u, w, dist as nat);
    assert forall|v: int| seen_after.contains(v) && !done.contains(v) implies exists|i: int|
        0 <= i < queue_after.len() && (#[trigger] queue_after[i]).0 == v by {
        if v == w {
            assert(queue_after[queue.len() as int].0 == v);
        } else {
            let i = choose|i: int| 0 <= i < queue.len() && (#[trigger] queue[i]).0 == v;
            assert(queue_after[i] == queue[i]);
        }
    }
    assert forall|i: int| 0 <= i < queue_after.len() implies {
        &&& seen_after.contains((#[trigger] queue_after[i]).0 as int)
        &&& label_after[queue_after[i].0 as int] == queue_after[i].1
        &&& dist <= queue_after[i].1
    } by {
        if i < queue.len() {
            assert(queue_after[i] == queue[i]);
        }
    }
    assert forall|i: int, j: int| 0 <= i <= j < queue_after.len() implies (
    #[trigger] queue_after[i]).1 <= (#[trigger] queue_after[j]).1 by {
        if j < queue.len() {
            assert(queue_after[i] == queue[i]);
            assert(queue_after[j] == queue[j]);
        } else if i < queue.len() {
            assert(queue_after[i] == queue[i]);
            assert(seen.contains(queue[i].0 as int));
        }
    }
}

/// All edges of the pending node were followed: nothing is pending.
proof fn lemma_search_leave(
    g: GraphModel,
    s: int,
    seen: Set<int>,
    label: Map<int, nat>,
    done: Set<int>,
    queue: Seq<(usize, usize)>,
    found: Map<Seq<char>, nat>,
    dist: usize,
    u: int,
)
    requires
        search_inv(g, s, seen, label, done, queue, found, dist as int, Some(u)),
        label[u] == dist,
        forall|t: int| #[trigger]
            has_edge(g.edges, u, t) ==> seen.contains(t) && label[t] <= dist + 1,
    ensures
        search_inv(g, s, seen, label, done, queue, found, dist as int, None),
{
    reveal(search_inv);
    assert forall|k: int|
        0 <= k < g.edges.len() && done.contains((#[trigger] g.edges[k]).0) implies seen.contains(
        g.edges[k].1,
    ) && label[g.edges[k].1] <= label[g.edges[k].0] + 1 by {
        if g.edges[k].0 == u {
            assert(g.edges[k] == (u, g.edges[k].1));
            assert(has_edge(g.edges, u, g.edges[k].1));
        }
    }
}

/// A search whose queue is empty found the distances from `s`.
proof fn lemma_search_complete(
    g: GraphModel,
    s: int,
    seen: Set<int>,
    label: Map<int, nat>,
    done: Set<int>,
    found: Map<Seq<char>, nat>,
    layer: int,
)
    requires
        g.wf(),
        0 <= s < g.names.len(),
        search_inv(g, s, seen, label, done, Seq::empty(), found, layer, None),
    ensures
        found == distances_from(g, s),
{
    reveal(search_inv);
    let expected = distances_from(g, s);
    assert forall|v: int| seen.contains(v) implies done.contains(v) by {
        if !done.contains(v) {
            let i = choose|i: int|
                0 <= i < Seq::<(usize, usize)>::empty().len() && (#[trigger] Seq::<
                    (usize, usize),
                >::empty()[i]).0 == v;
        }
    }
    assert forall|t: int| reachable(g.edges, s, t) implies seen.contains(t) && is_distance(
        g.edges,
        s,
        t,
        label[t],
    ) by {
        assert forall|h: nat| reaches_in(g.edges, s, t, h) implies seen.contains(t) && label[t]
            <= h by {
            let p = choose|p: Seq<int>| #[trigger]
                walk_between(g.edges, p, s, t) && p.len() == h + 1;
            lemma_closed_set_bounds_walks(g.edges, s, seen, label, p);
        }
    }
    assert forall|name: Seq<char>| found.contains_key(name) <==> expected.contains_key(
        name,
    ) by {
        if found.contains_key(name) {
            let v = choose|v: int| done.contains(v) && g.names[v] == name;
            assert(reachable(g.edges, s, v));
        }
        if expected.contains_key(name) {
            let t = choose|t: int|
                0 <= t < g.names.len() && #[trigger] g.names[t] == name && reachable(
                    g.edges,
                    s,
                    t,
                );
            assert(done.contains(t));
        }
    }
    assert forall|name: Seq<char>| found.contains_key(name) implies found[name]
        == expected[name] by {
        let v = choose|v: int| done.contains(v) && g.names[v] == name;
        assert(reachable(g.edges, s, v));
        lemma_distance(g.edges, s, v);
        assert(g.names.contains(name));
        assert(g.id_of(name) == v);
    }
    assert(found =~= expected);
}

/// The distance from the node called `start` to every node that can be
/// reached from it along the edges, by breadth-first search. The start is
/// at distance 0. Fails where no node is called `start`.
pub fn six_degrees_to_all(graph: &CharacterGraph, start: &str) -> (found: Result<
    DistanceMap,
    SearchError,
>)
    requires
        graph.wf(),
    ensures
        match found {
            Ok(map) => {
                &&& graph@.names.contains(start@)
                &&& map.wf()
                &&& map@ == distances_from(graph@, graph@.id_of(start@))
                &&& map@.contains_key(start@)
                &&& map@[start@] == 0
                &&& forall|name: Seq<char>| #[trigger]
                    map@.contains_key(name) ==> graph@.names.contains(name)
            },
            Err(e) => e == SearchError::NotFound && !graph@.names.contains(start@),
        },
{
    broadcast use vstd::std_specs::hash::group_hash_axioms;

    let start_node = match graph.node_index(start) {
        Some(id) => id,
        None => {
            return Err(SearchError::NotFound);
        },
    };
    let n = graph.node_count();
    let ghost g = graph@;
    let ghost s = start_node as int;
    proof {
        graph.lemma_wf();
        assert(g.names.contains(start@));
        assert(g.id_of(start@) == s);
    }

    let mut distances = DistanceMap::new();
    let mut queue: VecDeque<(usize, usize)> = VecDeque::new();
    let mut visited: HashMap<usize, bool> = HashMap::new();
    queue.push_back((start_node, 0));
    visited.insert(start_node, true);

    let ghost mut seen: Set<int> = set![s];
    let ghost mut label: Map<int, nat> = map![s => 0nat];
    let ghost mut done: Set<int> = Set::empty();
    let ghost mut layer: int = 0;
    proof {
        lemma_search_start(g, start_node);
        assert(queue@ == seq![(start_node, 0usize)]);
    }

    while queue.len() > 0
        invariant
            graph.wf(),
            g == graph@,
            g.wf(),
            n == g.names.len(),
            distances.wf(),
            forall|v: usize| #[trigger] visited@.contains_key(v) <==> seen.contains(v as int),
            search_inv(g, s, seen, label, done, queue@, distances@, layer, None),
        decreases n - seen.len() + queue@.len(),
    {
        let ghost budget = n - seen.len() + queue@.len();
        proof {
            lemma_search_take(g, s, seen, label, done, queue@, distances@, layer);
            lemma_int_range(0, n as int);
            lemma_len_subset(seen, set_int_range(0, n as int));
        }
        let (current, dist) = queue.pop_front().unwrap();
        let ghost u = current as int;
        let name = graph.node_name(current).clone();
        distances.insert(name, dist);
        proof {
            done = done.insert(u);
            layer = dist as int;
        }
        let neighbors = graph.neighbors(current);
        let ghost targets = neighbors@.map_values(|b: usize| b as int);
        proof {
            lemma_out_neighbors(g.edges, u);
        }
        let mut j: usize = 0;
        while j < neighbors.len()
            invariant
                graph.wf(),
                g == graph@,
                g.wf(),
                n == g.names.len(),
                distances.wf(),
                forall|v: usize| #[trigger] visited@.contains_key(v) <==> seen.contains(v as int),
                search_inv(g, s, seen, label, done, queue@, distances@, dist as int, Some(u)),
                seen.finite(),
                seen.subset_of(set_int_range(0, n as int)),
                label.dom() == seen,
                forall|v: int| #[trigger] seen.contains(v) ==> label[v] <= dist + 1,
                seen.contains(u),
                done.contains(u),
                label[u] == dist,
                dist < n,
                j <= neighbors.len(),
                targets == neighbors@.map_values(|b: usize| b as int),
                forall|t: int| #[trigger] targets.contains(t) <==> has_edge(g.edges, u, t),
                forall|i: int| 0 <= i < j ==> seen.contains((#[trigger] neighbors[i]) as int),
                n - seen.len() + queue@.len() == budget - 1,
            decreases neighbors.len() - j,
        {
            let next = neighbors[j];
            proof {
                assert(targets[j as int] == next);
                assert(targets.contains(next as int));
                lemma_int_range(0, n as int);
                lemma_len_subset(seen, set_int_range(0, n as int));
            }
            if !visited.contains_key(&next) {
                proof {
                    lemma_search_meet(g, s, seen, label, done, queue@, distances@, dist, u, next);
                    let k = choose|k: int|
                        0 <= k < g.edges.len() && #[trigger] g.edges[k] == (u, next as int);
                    assert(0 <= g.edges[k].1 < n);
                    seen = seen.insert(next as int);
                    label = label.insert(next as int, (dist + 1) as nat);
                }
                queue.push_back((next, dist + 1));
                visited.insert(next, true);
            }
            j += 1;
        }
        proof {
            assert forall|t: int| #[trigger] has_edge(g.edges, u, t) implies seen.contains(t)
                && label[t] <= dist + 1 by {
                assert(targets.contains(t));
                let i = choose|i: int| 0 <= i < targets.len() && targets[i] == t;
                assert(neighbors[i] as int == t);
            }
            lemma_search_leave(g, s, seen, label, done, queue@, distances@, dist, u);
        }
    }
    proof {
        assert(queue@ =~= Seq::empty());
        lemma_search_complete(g, s, seen, label, done, distances@, layer);
        lemma_distances_from(g, s);
    }
    Ok(distances)
}

} // verus!
