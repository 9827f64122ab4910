//! Building the graph from relationship records.

use crate::graph::CharacterGraph;
use crate::graph::GraphModel;
use crate::paths::has_edge;
use crate::paths::lemma_has_edge_push;
use crate::paths::reachable;
use crate::paths::same_links;
use crate::records::dedup;
use crate::records::lemma_dedup;
use crate::records::read_csv;
use crate::records::records_of;
use crate::records::records_of_lines;
use crate::search::distances_from;
use crate::search::lemma_same_links_same_distances;
use crate::text::lemma_split;
use crate::text::split;
use vstd::prelude::*;

verus! {

/// The graph of the records: one after the other, each record adds the
/// nodes that its two names call for, the source before the target, and an
/// edge from the first to the second. Nodes are numbered as they are first
/// seen, and an edge is added for every record, also for a repeated one.
pub open spec fn graph_of(records: Seq<(Seq<char>, Seq<char>)>) -> GraphModel
    decreases records.len(),
{
    if records.len() == 0 {
        GraphModel::empty()
    } else {
        graph_of(records.drop_last()).with_link(records.last().0, records.last().1)
    }
}

/// The graph of the records has an edge for each record and at most two
/// nodes for each, and it is well formed.
pub proof fn lemma_graph_of(records: Seq<(Seq<char>, Seq<char>)>)
    ensures
        graph_of(records).wf(),
        graph_of(records).edges.len() == records.len(),
        graph_of(records).names.len() <= 2 * records.len(),
    decreases records.len(),
{
    if records.len() > 0 {
        let before = graph_of(records.drop_last());
        lemma_graph_of(records.drop_last());
        lemma_with_link(before, records.last().0, records.last().1);
    }
}

/// The graph of the records has the names of the records for its nodes and
/// no others, and its edges are the records, in their order: each leads
/// from the node with the first name of its record to the node with the
/// second.
pub proof fn lemma_graph_of_links(records: Seq<(Seq<char>, Seq<char>)>)
    ensures
        graph_of(records).wf(),
        graph_of(records).edges.len() == records.len(),
        forall|k: int|
            0 <= k < records.len() ==> {
                &&& graph_of(records).names[graph_of(records).edges[k].0] == (
                #[trigger] records[k]).0
                &&& graph_of(records).names[graph_of(records).edges[k].1] == records[k].1
            },
        forall|name: Seq<char>| #[trigger]
            graph_of(records).names.contains(name) <==> exists|k: int|
                0 <= k < records.len() && ((#[trigger] records[k]).0 == name || records[k].1
                    == name),
    decreases records.len(),
{
    let g = graph_of(records);
    lemma_graph_of(records);
    if records.len() > 0 {
        let init = records.drop_last();
        let before = graph_of(init);
        let source = records.last().0;
        let target = records.last().1;
        let middle = before.with_node(source);
        lemma_graph_of_links(init);
        lemma_with_node(before, source);
        lemma_with_node(middle, target);
        lemma_with_link(before, source, target);
        assert(g.names == middle.with_node(target).names);
        assert forall|k: int| 0 <= k < records.len() implies {
            &&& g.names[g.edges[k].0] == (#[trigger] records[k]).0
            &&& g.names[g.edges[k].1] == records[k].1
        } by {
            if k < init.len() {
                assert(init[k] == records[k]);
                assert(g.edges[k] == before.edges[k]);
                assert(0 <= before.edges[k].0 < before.names.len());
                assert(0 <= before.edges[k].1 < before.names.len());
            }
        }
        assert forall|name: Seq<char>| #[trigger]
            g.names.contains(name) <==> exists|k: int|
                0 <= k < records.len() && ((#[trigger] records[k]).0 == name || records[k].1
                    == name) by {
            if g.names.contains(name) {
                let i = choose|i: int| 0 <= i < g.names.len() && g.names[i] == name;
                if i < before.names.len() {
                    assert(before.names[i] == name);
                    assert(before.names.contains(name));
                    let k = choose|k: int|
                        0 <= k < init.len() && ((#[trigger] init[k]).0 == name || init[k].1
                            == name);
                    assert(records[k] == init[k]);
                } else {
                    assert(name == source || name == target) by {
                        if i < middle.names.len() {
                            assert(middle.names[i] == name);
                        }
                    }
                    assert(records[records.len() - 1].0 == source);
                }
            }
            if exists|k: int|
                0 <= k < records.len() && ((#[trigger] records[k]).0 == name || records[k].1
                    == name) {
                let k = choose|k: int|
                    0 <= k < records.len() && ((#[trigger] records[k]).0 == name || records[k].1
                        == name);
                if k < init.len() {
                    assert(init[k] == records[k]);
                    assert(before.names.contains(name));
                    let i = choose|i: int| 0 <= i < before.names.len() && before.names[i] == name;
                    assert(g.names[i] == name);
                }
            }
        }
    }
}

/// A link keeps a graph well formed, adds one edge and at most two nodes,
/// and the new edge joins the nodes with the two names.
pub proof fn lemma_with_link(g: GraphModel, source: Seq<char>, target: Seq<char>)
    requires
        g.wf(),
    ensures
        g.with_link(source, target).wf(),
        g.with_link(source, target).edges.len() == g.edges.len() + 1,
        g.names.len() <= g.with_link(source, target).names.len() <= g.names.len() + 2,
        g.with_link(source, target).names.contains(source),
        g.with_link(source, target).names.contains(target),
        g.with_link(source, target).names[g.with_link(source, target).edges.last().0] == source,
        g.with_link(source, target).names[g.with_link(source, target).edges.last().1] == target,
{
    let g1 = g.with_node(source);
    lemma_with_node(g, source);
    let g2 = g1.with_node(target);
    lemma_with_node(g1, target);
    let i = choose|i: int| 0 <= i < g1.names.len() && g1.names[i] == source;
    assert(g2.names[i] == source);
    let out = g.with_link(source, target);
    assert forall|k: int| 0 <= k < out.edges.len() implies 0 <= (#[trigger] out.edges[k]).0
        < out.names.len() && 0 <= out.edges[k].1 < out.names.len() by {
        if k < g.edges.len() {
            assert(out.edges[k] == g.edges[k]);
        }
    }
}

/// A graph with one more name stays well formed and has that name; the
/// nodes that were there keep their identities.
pub proof fn lemma_with_node(g: GraphModel, name: Seq<char>)
    requires
        g.wf(),
    ensures
        g.with_node(name).wf(),
        g.with_node(name).names.contains(name),
        g.with_node(name).edges == g.edges,
        g.names.len() <= g.with_node(name).names.len() <= g.names.len() + 1,
        forall|i: int| 0 <= i < g.names.len() ==> g.with_node(name).names[i] == g.names[i],
{
    let out = g.with_node(name);
    if !g.names.contains(name) {
        assert(out.names[g.names.len() as int] == name);
        assert forall|i: int, j: int|
            0 <= i < out.names.len() && 0 <= j < out.names.len() && i != j implies out.names[i]
            != out.names[j] by {
            if i < g.names.len() {
                assert(g.names.contains(g.names[i]));
            }
            if j < g.names.len() {
                assert(g.names.contains(g.names[j]));
            }
        }
    }
}

/// Building is repeatable: two graphs of the same records have the same
/// nodes under the same names and identities and the same edges, so the
/// same nodes can be reached in them and the distances from every node are
/// the same.
pub proof fn lemma_rebuild(
    records: Seq<(Seq<char>, Seq<char>)>,
    first: GraphModel,
    second: GraphModel,
)
    requires
        first == graph_of(records),
        second == graph_of(records),
    ensures
        first == second,
        first.wf(),
        forall|s: int, t: int|
            reachable(first.edges, s, t) <==> #[trigger] reachable(second.edges, s, t),
        forall|s: int| distances_from(first, s) == #[trigger] distances_from(second, s),
{
    lemma_graph_of(records);
}

/// The graph of records from which the duplicates were removed has the
/// nodes of the graph of all the records, under the same identities, and
/// its edges join the same nodes.
pub proof fn lemma_dedup_same_graph(records: Seq<(Seq<char>, Seq<char>)>)
    ensures
        graph_of(dedup(records)).names == graph_of(records).names,
        same_links(graph_of(dedup(records)).edges, graph_of(records).edges),
    decreases records.len(),
{
    if records.len() > 0 {
        let init = records.drop_last();
        let last = records.last();
        let whole = graph_of(init);
        let clean = graph_of(dedup(init));
        lemma_dedup_same_graph(init);
        lemma_dedup(init);
        lemma_graph_of_links(init);
        lemma_with_node(whole, last.0);
        lemma_with_node(whole.with_node(last.0), last.1);
        let linked = whole.with_node(last.0).with_node(last.1);
        let a = linked.id_of(last.0);
        let b = linked.id_of(last.1);
        assert(graph_of(records).edges == whole.edges.push((a, b)));
        if dedup(init).contains(last) {
            let k = choose|k: int| 0 <= k < init.len() && init[k] == last;
            assert(whole.names.contains(last.0));
            assert(whole.names.contains(last.1));
            assert(linked == whole);
            assert(whole.names[whole.edges[k].0] == last.0);
            assert(whole.names[whole.edges[k].1] == last.1);
            assert(whole.edges[k] == (a, b));
            assert forall|u: int, v: int|
                #![trigger has_edge(clean.edges, u, v)]
                #![trigger has_edge(graph_of(records).edges, u, v)]
                has_edge(clean.edges, u, v) <==> has_edge(graph_of(records).edges, u, v) by {
                lemma_has_edge_push(whole.edges, (a, b), u, v);
                assert(has_edge(whole.edges, a, b));
            }
        } else {
            assert(dedup(records).drop_last() == dedup(init));
            assert(graph_of(dedup(records)) == clean.with_link(last.0, last.1));
            assert(graph_of(dedup(records)).edges == clean.edges.push((a, b)));
            assert forall|u: int, v: int|
                #![trigger has_edge(graph_of(dedup(records)).edges, u, v)]
                #![trigger has_edge(graph_of(records).edges, u, v)]
                has_edge(graph_of(dedup(records)).edges, u, v) <==> has_edge(
                    graph_of(records).edges,
                    u,
                    v,
                ) by {
                lemma_has_edge_push(whole.edges, (a, b), u, v);
                lemma_has_edge_push(clean.edges, (a, b), u, v);
            }
        }
    }
}

/// Duplicates among the records change no distance: a search in the graph
/// of the records without their duplicates finds what a search in the graph
/// of all the records finds.
pub proof fn lemma_dedup_keeps_distances(records: Seq<(Seq<char>, Seq<char>)>, s: int)
    ensures
        graph_of(dedup(records)).names == graph_of(records).names,
        distances_from(graph_of(dedup(records)), s) == distances_from(graph_of(records), s),
{
    lemma_dedup_same_graph(records);
    lemma_graph_of(dedup(records));
    lemma_same_links_same_distances(graph_of(dedup(records)), graph_of(records), s);
}

/// Lines hold at most one record each.
pub proof fn lemma_records_of_lines_len(lines: Seq<Seq<char>>)
    ensures
        records_of_lines(lines).len() <= lines.len(),
    decreases lines.len(),
{
    if lines.len() > 0 {
        lemma_records_of_lines_len(lines.drop_last());
    }
}

/// Builds the graph of the records.
pub fn build_graph(edges: &[(String, String)]) -> (graph: CharacterGraph)
    requires
        edges.len() <= i32::MAX,
    ensures
        graph.wf(),
        graph@ == graph_of(edges.deep_view()),
{
    let mut graph = CharacterGraph::new();
    let mut i: usize = 0;
    assert(edges.deep_view().take(0) == Seq::<(Seq<char>, Seq<char>)>::empty());
    while i < edges.len()
        invariant
            i <= edges.len() <= i32::MAX,
            graph.wf(),
            graph@ == graph_of(edges.deep_view().take(i as int)),
        decreases edges.len() - i,
    {
        let ghost before = graph@;
        let ghost head = edges.deep_view().take(i as int);
        let ghost grown = edges.deep_view().take(i + 1);
        let ghost source = edges[i as int].0@;
        let ghost target = edges[i as int].1@;
        proof {
            assert(grown.drop_last() == head);
            assert(grown.last() == (source, target));
            graph.lemma_wf();
            lemma_graph_of(head);
            lemma_with_node(before, source);
            lemma_with_node(before.with_node(source), target);
        }
        let source_node = graph.add_node(edges[i].0.clone());
        let target_node = graph.add_node(edges[i].1.clone());
        graph.add_edge(source_node, target_node);
        proof {
            let linked = before.with_node(source).with_node(target);
            assert(linked.names.contains(source));
            assert(linked.id_of(source) == source_node);
            assert(linked.names.contains(target));
            assert(linked.id_of(target) == target_node);
        }
        i += 1;
    }
    assert(edges.deep_view().take(edges.len() as int) == edges.deep_view());
    graph
}

/// Reads the records of a text and builds their graph.
pub fn load_data(text: &str) -> (graph: CharacterGraph)
    requires
        text@.len() < i32::MAX,
    ensures
        graph.wf(),
        graph@ == graph_of(records_of(text@)),
{
    let edges = read_csv(text);
    proof {
        lemma_split(text@, '\n');
        lemma_records_of_lines_len(split(text@, '\n'));
    }
    build_graph(edges.as_slice())
}

} // verus!
