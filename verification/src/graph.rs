//! The directed graph of named nodes, kept in a `petgraph` graph together
//! with a table from each name to the identity of its node.

use crate::paths::has_edge;
use petgraph::graph::Graph;
use petgraph::graph::NodeIndex;
use petgraph::Directed;
use vstd::hash_map::StringHashMap;
use vstd::prelude::*;

verus! {

/// `petgraph::graph::Graph`, whose inside Verus does not see.
#[verifier::external_type_specification]
#[verifier::external_body]
#[verifier::reject_recursive_types(N)]
#[verifier::reject_recursive_types(E)]
#[verifier::reject_recursive_types(Ty)]
#[verifier::reject_recursive_types(Ix)]
pub struct ExGraph<N, E, Ty, Ix>(Graph<N, E, Ty, Ix>);

/// `petgraph::Directed`, the marker of a graph with directed edges.
#[verifier::external_type_specification]
#[verifier::external_body]
pub struct ExDirected(Directed);

/// The weights of the nodes of a `petgraph` graph of strings, in the order
/// of their indices: the node with index `i` has the weight at place `i`.
pub uninterp spec fn graph_names(g: Graph<String, (), Directed, u32>) -> Seq<Seq<char>>;

/// The edges of a `petgraph` graph of strings, in the order in which they
/// were added, each as the indices of its source and its target.
pub uninterp spec fn graph_edges(g: Graph<String, (), Directed, u32>) -> Seq<(int, int)>;

/// The targets of the edges of `edges` that start at `node`, the edge that
/// was added last coming first.
pub open spec fn out_neighbors(edges: Seq<(int, int)>, node: int) -> Seq<int>
    decreases edges.len(),
{
    if edges.len() == 0 {
        Seq::<int>::empty()
    } else if edges.last().0 == node {
        seq![edges.last().1] + out_neighbors(edges.drop_last(), node)
    } else {
        out_neighbors(edges.drop_last(), node)
    }
}

/// `Graph::new`: a directed graph without nodes and without edges.
#[verifier::external_body]
fn graph_new() -> (g: Graph<String, (), Directed, u32>)
    ensures
        graph_names(g) == Seq::<Seq<char>>::empty(),
        graph_edges(g) == Seq::<(int, int)>::empty(),
{
    Graph::new()
}

/// `Graph::node_count`: the number of nodes.
#[verifier::external_body]
fn graph_node_count(g: &Graph<String, (), Directed, u32>) -> (n: usize)
    ensures
        n == graph_names(*g).len(),
{
    g.node_count()
}

/// `Graph::edge_count`: the number of edges.
#[verifier::external_body]
fn graph_edge_count(g: &Graph<String, (), Directed, u32>) -> (n: usize)
    ensures
        n == graph_edges(*g).len(),
{
    g.edge_count()
}

/// `Graph::add_node`: a node with the given weight is added behind the
/// others and its index, the number of nodes before, is returned. The edges
/// stay. The outside function panics when the index of the new node would
/// be `u32::MAX`, which `requires` leaves out.
#[verifier::external_body]
fn graph_add_node(g: &mut Graph<String, (), Directed, u32>, name: String) -> (id: usize)
    requires
        graph_names(*old(g)).len() < u32::MAX,
    ensures
        id == graph_names(*old(g)).len(),
        graph_names(*final(g)) == graph_names(*old(g)).push(name@),
        graph_edges(*final(g)) == graph_edges(*old(g)),
{
    g.add_node(name).index()
}

/// `Graph::add_edge`: an edge from node `a` to node `b` is added behind the
/// others, also where such an edge is there already. The nodes stay. The
/// outside function panics when a node does not exist or when the index of
/// the new edge would be `u32::MAX`, which `requires` leaves out.
#[verifier::external_body]
fn graph_add_edge(g: &mut Graph<String, (), Directed, u32>, a: usize, b: usize)
    requires
        a < graph_names(*old(g)).len(),
        b < graph_names(*old(g)).len(),
        graph_names(*old(g)).len() <= u32::MAX,
        graph_edges(*old(g)).len() < u32::MAX,
    ensures
        graph_names(*final(g)) == graph_names(*old(g)),
        graph_edges(*final(g)) == graph_edges(*old(g)).push((a as int, b as int)),
{
    g.add_edge(NodeIndex::new(a), NodeIndex::new(b), ());
}

/// `Graph::node_weight`: the weight of the node with index `a`, or `None`
/// where the graph has no such node.
#[verifier::external_body]
fn graph_node_weight(g: &Graph<String, (), Directed, u32>, a: usize) -> (w: Option<&String>)
    requires
        a <= u32::MAX,
    ensures
        match w {
            Some(name) => a < graph_names(*g).len() && name@ == graph_names(*g)[a as int],
            None => a >= graph_names(*g).len(),
        },
{
    g.node_weight(NodeIndex::new(a))
}

/// `Graph::neighbors`: for a directed graph the targets of the edges that
/// start at node `a`, the most recently added edge first.
#[verifier::external_body]
fn graph_neighbors(g: &Graph<String, (), Directed, u32>, a: usize) -> (out: Vec<usize>)
    requires
        a < graph_names(*g).len(),
        graph_names(*g).len() <= u32::MAX,
    ensures
        out@.map_values(|b: usize| b as int) == out_neighbors(graph_edges(*g), a as int),
{
    g.neighbors(NodeIndex::new(a)).map(|b| b.index()).collect()
}

/// What a graph is to the contracts: the names of its nodes by identity,
/// and its edges as pairs of identities.
pub ghost struct GraphModel {
    pub names: Seq<Seq<char>>,
    pub edges: Seq<(int, int)>,
}

impl GraphModel {
    /// No two nodes share a name and every edge joins two nodes.
    pub open spec fn wf(self) -> bool {
        &&& self.names.no_duplicates()
        &&& forall|k: int|
            0 <= k < self.edges.len() ==> {
                &&& 0 <= (#[trigger] self.edges[k]).0 < self.names.len()
                &&& 0 <= self.edges[k].1 < self.names.len()
            }
    }

    /// The graph without nodes.
    pub open spec fn empty() -> GraphModel {
        GraphModel { names: Seq::empty(), edges: Seq::empty() }
    }

    /// The identity of the node called `name`, where there is one.
    pub open spec fn id_of(self, name: Seq<char>) -> int {
        self.names.index_of(name)
    }

    /// The graph with a node called `name`: a new node, with the next free
    /// identity, only where no node has that name yet.
    pub open spec fn with_node(self, name: Seq<char>) -> GraphModel {
        if self.names.contains(name) {
            self
        } else {
            GraphModel { names: self.names.push(name), edges: self.edges }
        }
    }

    /// The graph with one more edge, from node `a` to node `b`.
    pub open spec fn with_edge(self, a: int, b: int) -> GraphModel {
        GraphModel { names: self.names, edges: self.edges.push((a, b)) }
    }

    /// The graph with the nodes called `source` and `target`, the source
    /// looked up or created first, and one more edge from the one to the
    /// other.
    pub open spec fn with_link(self, source: Seq<char>, target: Seq<char>) -> GraphModel {
        let g = self.with_node(source).with_node(target);
        g.with_edge(g.id_of(source), g.id_of(target))
    }
}

/// Every target that `out_neighbors` lists is joined to `node` by an edge,
/// and the target of every edge from `node` is listed.
pub proof fn lemma_out_neighbors(edges: Seq<(int, int)>, node: int)
    ensures
        forall|v: int| #[trigger]
            out_neighbors(edges, node).contains(v) <==> has_edge(edges, node, v),
    decreases edges.len(),
{
    let out = out_neighbors(edges, node);
    if edges.len() > 0 {
        let init = edges.drop_last();
        let rest = out_neighbors(init, node);
        lemma_out_neighbors(init, node);
        assert forall|v: int| #[trigger] out.contains(v) <==> has_edge(edges, node, v) by {
            if out.contains(v) {
                let i = choose|i: int| 0 <= i < out.len() && out[i] == v;
                if edges.last().0 == node && i == 0 {
                    assert(edges[edges.len() - 1] == (node, v));
                } else {
                    if edges.last().0 == node {
                        assert(rest[i - 1] == v);
                    }
                    assert(rest.contains(v));
                    let k = choose|k: int| 0 <= k < init.len() && #[trigger] init[k] == (node, v);
                    assert(edges[k] == (node, v));
                }
            }
            if has_edge(edges, node, v) {
                let k = choose|k: int| 0 <= k < edges.len() && #[trigger] edges[k] == (node, v);
                if k == edges.len() - 1 {
                    assert(out[0] == v);
                } else {
                    assert(init[k] == (node, v));
                    assert(rest.contains(v));
                    let i = choose|i: int| 0 <= i < rest.len() && rest[i] == v;
                    if edges.last().0 == node {
                        assert(out[i + 1] == v);
                    }
                }
            }
        }
    }
}

/// A directed graph whose nodes are told apart by their names.
pub struct CharacterGraph {
    graph: Graph<String, (), Directed, u32>,
    index: StringHashMap<usize>,
}

impl View for CharacterGraph {
    type V = GraphModel;

    closed spec fn view(&self) -> GraphModel {
        GraphModel { names: graph_names(self.graph), edges: graph_edges(self.graph) }
    }
}

impl CharacterGraph {
    /// The graph is well formed and the table of names agrees with it.
    pub closed spec fn wf(&self) -> bool {
        &&& self@.wf()
        &&& self@.names.len() <= u32::MAX
        &&& self@.edges.len() <= u32::MAX
        &&& forall|name: Seq<char>| #[trigger]
            self.index@.contains_key(name) <==> self@.names.contains(name)
        &&& forall|i: int|
            0 <= i < self@.names.len() ==> self.index@[#[trigger] self@.names[i]] == i
    }

    /// A well-formed graph has a well-formed model, and neither more nodes
    /// nor more edges than `u32::MAX`.
    pub proof fn lemma_wf(&self)
        requires
            self.wf(),
        ensures
            self@.wf(),
            self@.names.len() <= u32::MAX,
            self@.edges.len() <= u32::MAX,
    {
    }

    /// A graph without nodes.
    pub fn new() -> (g: Self)
        ensures
            g.wf(),
            g@ == GraphModel::empty(),
    {
        CharacterGraph { graph: graph_new(), index: StringHashMap::new() }
    }

    /// The number of nodes.
    pub fn node_count(&self) -> (n: usize)
        ensures
            n == self@.names.len(),
    {
        graph_node_count(&self.graph)
    }

    /// The number of edges.
    pub fn edge_count(&self) -> (n: usize)
        ensures
            n == self@.edges.len(),
    {
        graph_edge_count(&self.graph)
    }

    /// The identity of the node called `name`, if there is one.
    pub fn node_index(&self, name: &str) -> (found: Option<usize>)
        requires
            self.wf(),
        ensures
            match found {
                Some(id) => id < self@.names.len() && self@.names[id as int] == name@,
                None => !self@.names.contains(name@),
            },
    {
        match self.index.get(name) {
            Some(id) => {
                assert(self@.names.contains(name@));
                Some(*id)
            },
            None => None,
        }
    }

    /// The name of node `id`.
    pub fn node_name(&self, id: usize) -> (name: &String)
        requires
            self.wf(),
            id < self@.names.len(),
        ensures
            name@ == self@.names[id as int],
    {
        graph_node_weight(&self.graph, id).unwrap()
    }

    /// The nodes to which an edge leads from node `id`, one for each such
    /// edge, the edge that was added last first.
    pub fn neighbors(&self, id: usize) -> (out: Vec<usize>)
        requires
            self.wf(),
            id < self@.names.len(),
        ensures
            out@.map_values(|b: usize| b as int) == out_neighbors(self@.edges, id as int),
            forall|j: int| 0 <= j < out.len() ==> out[j] < self@.names.len(),
    {
        let out = graph_neighbors(&self.graph, id);
        proof {
            let ids = out@.map_values(|b: usize| b as int);
            lemma_out_neighbors(self@.edges, id as int);
            assert forall|j: int| 0 <= j < out.len() implies out[j] < self@.names.len() by {
                assert(ids[j] == out[j]);
                assert(ids.contains(out[j] as int));
                assert(has_edge(self@.edges, id as int, out[j] as int));
            }
        }
        out
    }

    /// Looks up the node called `name` and creates it where there is none.
    /// Returns its identity: a new node gets the number of nodes before.
    pub fn add_node(&mut self, name: String) -> (id: usize)
        requires
            old(self).wf(),
            old(self)@.names.len() < u32::MAX,
        ensures
            final(self).wf(),
            final(self)@ == old(self)@.with_node(name@),
            id < final(self)@.names.len(),
            final(self)@.names[id as int] == name@,
    {
        let found = self.node_index(name.as_str());
        match found {
            Some(id) => id,
            None => {
                let id = graph_add_node(&mut self.graph, name.clone());
                self.index.insert(name, id);
                proof {
                    let before = old(self)@.names;
                    let after = self@.names;
                    assert(after == before.push(name@));
                    assert forall|n: Seq<char>| #[trigger]
                        self.index@.contains_key(n) <==> after.contains(n) by {
                        if after.contains(n) {
                            let i = choose|i: int| 0 <= i < after.len() && after[i] == n;
                            if i < before.len() {
                                assert(before[i] == n);
                                assert(before.contains(n));
                            }
                        }
                        if before.contains(n) {
                            let i = choose|i: int| 0 <= i < before.len() && before[i] == n;
                            assert(after[i] == n);
                        }
                        assert(after[before.len() as int] == name@);
                    }
                    assert forall|i: int| 0 <= i < after.len() implies self.index@[#[trigger] after[i]]
                        == i by {
                        if i < before.len() {
                            assert(before[i] == after[i]);
                            assert(before.contains(before[i]));
                        }
                    }
                    assert forall|i: int, j: int|
                        0 <= i < after.len() && 0 <= j < after.len() && i != j implies after[i]
                        != after[j] by {
                        if i < before.len() {
                            assert(before.contains(before[i]));
                        }
                        if j < before.len() {
                            assert(before.contains(before[j]));
                        }
                    }
                }
                id
            },
        }
    }

    /// Adds an edge from node `a` to node `b`, also where there is one
    /// already.
    pub fn add_edge(&mut self, a: usize, b: usize)
        requires
            old(self).wf(),
            a < old(self)@.names.len(),
            b < old(self)@.names.len(),
            old(self)@.edges.len() < u32::MAX,
        ensures
            final(self).wf(),
            final(self)@ == old(self)@.with_edge(a as int, b as int),
    {
        graph_add_edge(&mut self.graph, a, b);
    }
}

} // verus!
