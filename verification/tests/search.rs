use six_degrees::build_graph;
use six_degrees::load_data;
use six_degrees::six_degrees_to_all;
use six_degrees::CharacterGraph;
use six_degrees::DistanceMap;
use six_degrees::SearchError;
use std::collections::HashMap;

fn pair(a: &str, b: &str) -> (String, String) {
    (a.to_owned(), b.to_owned())
}

fn as_hash_map(map: &DistanceMap) -> HashMap<String, usize> {
    let mut out = HashMap::new();
    for name in map.names() {
        out.insert(name.clone(), map.get(name).unwrap());
    }
    out
}

/// Distances by trying every walk of up to as many hops as there are nodes.
fn distances_by_enumeration(graph: &CharacterGraph, start: usize) -> Vec<Option<usize>> {
    let n = graph.node_count();
    let mut best: Vec<Option<usize>> = vec![None; n];
    let mut walks: Vec<Vec<usize>> = vec![vec![start]];
    for hops in 0..n {
        let mut longer = Vec::new();
        for walk in &walks {
            let end = walk[walk.len() - 1];
            if best[end].is_none() {
                best[end] = Some(hops);
            }
            for next in graph.neighbors(end) {
                if !walk.contains(&next) {
                    let mut grown = walk.clone();
                    grown.push(next);
                    longer.push(grown);
                }
            }
        }
        walks = longer;
    }
    best
}

fn check_against_enumeration(graph: &CharacterGraph) {
    for start in 0..graph.node_count() {
        let found = six_degrees_to_all(graph, graph.node_name(start)).unwrap();
        let expected = distances_by_enumeration(graph, start);
        let mut reached = 0;
        for t in 0..graph.node_count() {
            assert_eq!(found.get(graph.node_name(t)), expected[t]);
            assert_eq!(found.contains_key(graph.node_name(t)), expected[t].is_some());
            if expected[t].is_some() {
                reached += 1;
            }
        }
        assert_eq!(found.len(), reached);
    }
}

#[test]
fn test_six_degrees_to_all() {
    let mut graph = CharacterGraph::new();
    let node1 = graph.add_node("Harry Potter".to_owned());
    let node2 = graph.add_node("Ron Weasley".to_owned());
    let node3 = graph.add_node("Hermione Granger".to_owned());
    graph.add_edge(node1, node2);
    graph.add_edge(node2, node3);

    let result = six_degrees_to_all(&graph, "Harry Potter").unwrap();

    let expected_distances: HashMap<String, usize> = [
        ("Harry Potter".to_owned(), 0),
        ("Ron Weasley".to_owned(), 1),
        ("Hermione Granger".to_owned(), 2),
    ]
    .iter()
    .cloned()
    .collect();

    assert_eq!(result.len(), 3);
    assert_eq!(as_hash_map(&result), expected_distances);
}

#[test]
fn distances_along_a_chain_of_records() {
    let edges = vec![pair("Harry Potter", "Ron Weasley"), pair("Ron Weasley", "Hermione Granger")];
    let graph = build_graph(&edges);
    assert_eq!(graph.node_count(), 3);
    assert_eq!(graph.edge_count(), 2);
    let found = six_degrees_to_all(&graph, "Harry Potter").unwrap();
    assert_eq!(found.len(), 3);
    assert_eq!(found.get("Harry Potter"), Some(0));
    assert_eq!(found.get("Ron Weasley"), Some(1));
    assert_eq!(found.get("Hermione Granger"), Some(2));
}

#[test]
fn start_that_is_in_no_edge_is_not_found() {
    let graph = load_data("Harry Potter,Ron Weasley\nRon Weasley,Hermione Granger\n");
    let result = six_degrees_to_all(&graph, "Draco Malfoy");
    assert!(matches!(result, Err(SearchError::NotFound)));
}

#[test]
fn start_in_an_empty_graph_is_not_found() {
    let graph = CharacterGraph::new();
    assert!(matches!(six_degrees_to_all(&graph, ""), Err(SearchError::NotFound)));
    assert!(matches!(six_degrees_to_all(&graph, "A"), Err(SearchError::NotFound)));
}

#[test]
fn start_is_looked_up_by_its_exact_name() {
    let graph = load_data("A,B\n");
    assert!(matches!(six_degrees_to_all(&graph, "a"), Err(SearchError::NotFound)));
    assert!(matches!(six_degrees_to_all(&graph, " A"), Err(SearchError::NotFound)));
    assert!(six_degrees_to_all(&graph, "A").is_ok());
}

#[test]
fn not_found_says_so() {
    assert_eq!(SearchError::NotFound.message(), "Start character not found");
    assert_eq!(SearchError::NotFound, SearchError::NotFound);
}

#[test]
fn edges_are_followed_in_their_direction_only() {
    let graph = load_data("A,B\nB,C\n");
    let from_c = six_degrees_to_all(&graph, "C").unwrap();
    assert_eq!(from_c.len(), 1);
    assert_eq!(from_c.get("C"), Some(0));
    assert_eq!(from_c.get("A"), None);
    assert_eq!(from_c.get("B"), None);
    let from_b = six_degrees_to_all(&graph, "B").unwrap();
    assert_eq!(from_b.len(), 2);
    assert_eq!(from_b.get("B"), Some(0));
    assert_eq!(from_b.get("C"), Some(1));
    assert_eq!(from_b.get("A"), None);
}

#[test]
fn nodes_that_cannot_be_reached_stay_out() {
    let graph = load_data("A,B\nC,D\nD,C\nE,A\n");
    let found = six_degrees_to_all(&graph, "A").unwrap();
    assert_eq!(found.len(), 2);
    assert!(found.contains_key("A"));
    assert!(found.contains_key("B"));
    assert!(!found.contains_key("C"));
    assert!(!found.contains_key("D"));
    assert!(!found.contains_key("E"));
    assert!(!found.contains_key("F"));
}

#[test]
fn the_shorter_of_two_ways_counts() {
    let graph = load_data("A,B\nB,C\nC,D\nA,D\nD,E\n");
    let found = six_degrees_to_all(&graph, "A").unwrap();
    assert_eq!(found.get("A"), Some(0));
    assert_eq!(found.get("B"), Some(1));
    assert_eq!(found.get("C"), Some(2));
    assert_eq!(found.get("D"), Some(1));
    assert_eq!(found.get("E"), Some(2));
    assert_eq!(found.len(), 5);
}

#[test]
fn cycles_and_loops_end() {
    let graph = load_data("A,A\nA,B\nB,C\nC,A\nC,C\n");
    let found = six_degrees_to_all(&graph, "B").unwrap();
    assert_eq!(found.len(), 3);
    assert_eq!(found.get("B"), Some(0));
    assert_eq!(found.get("C"), Some(1));
    assert_eq!(found.get("A"), Some(2));
}

#[test]
fn parallel_edges_change_no_distance() {
    let edges = vec![pair("A", "B"), pair("A", "B"), pair("B", "C"), pair("B", "C")];
    let found = six_degrees_to_all(&build_graph(&edges), "A").unwrap();
    assert_eq!(found.len(), 3);
    assert_eq!(found.get("A"), Some(0));
    assert_eq!(found.get("B"), Some(1));
    assert_eq!(found.get("C"), Some(2));
}

#[test]
fn distances_equal_the_shortest_walk_found_by_enumeration() {
    check_against_enumeration(&load_data("A,B\nB,C\nC,D\nA,D\nD,E\nE,B\nF,A\nG,G\nG,F\n"));
    check_against_enumeration(&load_data("1,2\n2,3\n3,1\n3,4\n4,5\n5,6\n6,4\n1,6\n"));
    check_against_enumeration(&load_data("a,b\na,c\na,d\nb,e\nc,e\nd,e\ne,f\nf,a\n"));
    check_against_enumeration(&load_data("x,x\n"));
}

#[test]
fn each_distance_has_a_neighbour_one_layer_before() {
    let graph = load_data("A,B\nB,C\nC,D\nA,D\nD,E\nE,B\nF,A\nC,G\nG,H\nH,A\n");
    let found = six_degrees_to_all(&graph, "A").unwrap();
    for name in found.names() {
        let d = found.get(name).unwrap();
        let t = graph.node_index(name).unwrap();
        if d == 0 {
            assert_eq!(name, "A");
        } else {
            let mut before = false;
            for u in 0..graph.node_count() {
                if graph.neighbors(u).contains(&t) && found.get(graph.node_name(u)) == Some(d - 1) {
                    before = true;
                }
            }
            assert!(before);
        }
    }
}

#[test]
fn searches_in_rebuilt_graphs_agree() {
    let edges = vec![pair("B", "A"), pair("A", "C"), pair("C", "B"), pair("D", "A"), pair("C", "E")];
    let first = build_graph(&edges);
    let second = build_graph(&edges);
    for name in ["A", "B", "C", "D", "E"] {
        let one = six_degrees_to_all(&first, name).unwrap();
        let other = six_degrees_to_all(&second, name).unwrap();
        assert_eq!(as_hash_map(&one), as_hash_map(&other));
    }
}

#[test]
fn duplicates_change_no_distance() {
    let edges = vec![
        pair("A", "B"),
        pair("B", "C"),
        pair("A", "B"),
        pair("C", "A"),
        pair("B", "C"),
        pair("C", "D"),
        pair("A", "B"),
    ];
    let unique = six_degrees::remove_duplicates(&edges);
    assert_eq!(unique.len(), 4);
    let whole = build_graph(&edges);
    let clean = build_graph(&unique);
    assert_eq!(whole.node_count(), clean.node_count());
    assert_eq!(whole.edge_count(), 7);
    assert_eq!(clean.edge_count(), 4);
    for id in 0..whole.node_count() {
        assert_eq!(whole.node_name(id), clean.node_name(id));
    }
    for name in ["A", "B", "C", "D"] {
        let one = six_degrees_to_all(&whole, name).unwrap();
        let other = six_degrees_to_all(&clean, name).unwrap();
        assert_eq!(as_hash_map(&one), as_hash_map(&other));
    }
}

#[test]
fn a_graph_can_be_searched_again_and_again() {
    let graph = load_data("A,B\nB,C\n");
    let first = six_degrees_to_all(&graph, "A").unwrap();
    let second = six_degrees_to_all(&graph, "A").unwrap();
    assert_eq!(as_hash_map(&first), as_hash_map(&second));
    assert_eq!(first.names(), second.names());
}

#[test]
fn names_list_each_reached_node_once() {
    let graph = load_data("A,B\nA,C\nB,D\nC,D\nD,A\n");
    let found = six_degrees_to_all(&graph, "A").unwrap();
    let names = found.names();
    assert_eq!(names.len(), 4);
    assert_eq!(names[0], "A");
    for i in 0..names.len() {
        for j in 0..i {
            assert_ne!(names[i], names[j]);
        }
    }
}

#[test]
fn distance_map_sets_and_replaces() {
    let mut map = DistanceMap::new();
    assert_eq!(map.len(), 0);
    assert_eq!(map.get("A"), None);
    map.insert("A".to_owned(), 3);
    map.insert("B".to_owned(), 1);
    map.insert("A".to_owned(), 2);
    assert_eq!(map.len(), 2);
    assert_eq!(map.get("A"), Some(2));
    assert_eq!(map.get("B"), Some(1));
    assert!(map.contains_key("A"));
    assert!(!map.contains_key("C"));
    assert_eq!(map.names(), &vec!["A".to_owned(), "B".to_owned()]);
}

#[test]
fn long_chain_is_counted_to_its_end() {
    let mut text = String::new();
    for i in 0..2000 {
        text.push_str(&format!("n{},n{}\n", i, i + 1));
    }
    let graph = load_data(&text);
    let found = six_degrees_to_all(&graph, "n0").unwrap();
    assert_eq!(found.len(), 2001);
    assert_eq!(found.get("n2000"), Some(2000));
    assert_eq!(found.get("n1000"), Some(1000));
}
