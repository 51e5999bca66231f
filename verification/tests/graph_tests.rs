use std::rc::Rc;

use labeled_graph::{Graph, GraphError, GraphRow, get_index, none_vec};

#[test]
fn get_finds_every_member_label() {
    let g: Graph<&str, u64> = Graph::new_empty(vec!["a", "b", "c"]);
    assert!(g.get(&"a").is_some());
    assert!(g.get(&"b").is_some());
    assert!(g.get(&"c").is_some());
}

#[test]
fn get_reports_unknown_label_as_none() {
    let g: Graph<&str, u64> = Graph::new_empty(vec!["a", "b", "c"]);
    assert!(g.get(&"d").is_none());
    let empty: Graph<&str, u64> = Graph::new_empty(vec![]);
    assert!(empty.get(&"a").is_none());
}

#[test]
fn new_empty_rows_have_no_edges() {
    let g: Graph<u64, u64> = Graph::new_empty(vec![1, 2, 3]);
    for l in [1u64, 2, 3] {
        let row = g.get(&l).unwrap();
        assert_eq!(row.len(), 3);
        for t in [1u64, 2, 3] {
            assert_eq!(row.get(&t), Some(&None));
        }
    }
}

#[test]
fn row_set_succeeds_only_on_matching_length() {
    let labels = Rc::new(vec!["x", "y"]);
    let mut row: GraphRow<&str, u64> = GraphRow::new_empty(labels);
    assert_eq!(row.len(), 2);

    assert_eq!(row.set(vec![Some(1)]), Err(GraphError::InvalidVecSizeError));
    assert_eq!(row.set(vec![Some(1), None, Some(3)]), Err(GraphError::InvalidVecSizeError));
    assert_eq!(row.set(vec![Some(1), Some(2)]), Ok(()));
}

#[test]
fn row_failed_set_leaves_row_unchanged() {
    let labels = Rc::new(vec!["x", "y"]);
    let mut row: GraphRow<&str, u64> = GraphRow::new_empty(labels);
    assert_eq!(row.set(vec![Some(7), None]), Ok(()));

    let before: Vec<Option<u64>> = vec![row.get(&"x").unwrap().clone(), row.get(&"y").unwrap().clone()];
    assert_eq!(row.set(vec![Some(9)]), Err(GraphError::InvalidVecSizeError));
    let after: Vec<Option<u64>> = vec![row.get(&"x").unwrap().clone(), row.get(&"y").unwrap().clone()];
    assert_eq!(before, after);
    assert_eq!(after, vec![Some(7), None]);
}

#[test]
fn row_set_then_get_round_trips_every_slot() {
    let labels = Rc::new(vec!["a", "b", "c", "d"]);
    let mut row: GraphRow<&str, u64> = GraphRow::new_empty(labels);
    let values: Vec<Option<u64>> = vec![Some(10), None, Some(30), None];
    assert_eq!(row.set(values.clone()), Ok(()));

    let read_back: Vec<Option<u64>> = ["a", "b", "c", "d"]
        .iter()
        .map(|l| row.get(l).unwrap().clone())
        .collect();
    assert_eq!(read_back, values);
}

#[test]
fn graph_set_row_round_trips_through_get() {
    let mut g: Graph<&str, u64> = Graph::new_empty(vec!["a", "b", "c"]);
    let values: Vec<Option<u64>> = vec![None, Some(5), Some(6)];
    assert_eq!(g.set_row("a", values.clone()), Ok(()));

    let row = g.get(&"a").unwrap();
    let read_back: Vec<Option<u64>> = ["a", "b", "c"]
        .iter()
        .map(|l| row.get(l).unwrap().clone())
        .collect();
    assert_eq!(read_back, values);
}

#[test]
fn graph_set_row_rejects_wrong_length() {
    let mut g: Graph<&str, u64> = Graph::new_empty(vec!["a", "b", "c"]);
    assert_eq!(g.set_row("a", vec![None]), Err(GraphError::InvalidVecSizeError));
    let row = g.get(&"a").unwrap();
    for l in ["a", "b", "c"] {
        assert_eq!(row.get(&l), Some(&None));
    }
}

#[test]
fn indexed_access_reads_and_writes_slots() {
    let mut g: Graph<&str, u64> = Graph::new_empty(vec!["a", "b"]);
    g.set_edge("a", "b", Some(42));
    assert_eq!(*g.index("a").index("b"), Some(42));
    assert_eq!(*g.index("a").index("a"), None);
    g.set_edge("a", "b", None);
    assert_eq!(*g.index("a").index("b"), None);
}

#[test]
fn get_index_returns_first_match_position() {
    let labels: Vec<u64> = vec![5, 6, 7];
    assert_eq!(get_index(&labels, &5), Some(0));
    assert_eq!(get_index(&labels, &7), Some(2));
    assert_eq!(get_index(&labels, &8), None);
    let empty: Vec<u64> = vec![];
    assert_eq!(get_index(&empty, &5), None);
}

#[test]
fn none_vec_is_all_empty() {
    let v: Vec<Option<u64>> = none_vec(4);
    assert_eq!(v, vec![None, None, None, None]);
    let empty: Vec<Option<u64>> = none_vec(0);
    assert!(empty.is_empty());
}

#[test]
fn connected_nodes_are_exactly_the_some_slots_in_order() {
    let mut g: Graph<&str, u64> = Graph::new_empty(vec!["a", "b", "c", "d"]);
    g.set_edge("a", "d", Some(1));
    g.set_edge("a", "b", Some(2));

    let connected = g.get_connected_nodes("a");
    let names: Vec<&str> = connected.iter().map(|l| **l).collect();
    assert_eq!(names, vec!["b", "d"]);
}

#[test]
fn connected_nodes_include_self_only_on_self_loop() {
    let mut g: Graph<&str, u64> = Graph::new_empty(vec!["a", "b"]);
    g.set_edge("a", "b", Some(1));
    let names: Vec<&str> = g.get_connected_nodes("a").iter().map(|l| **l).collect();
    assert_eq!(names, vec!["b"]);

    g.set_edge("a", "a", Some(3));
    let names: Vec<&str> = g.get_connected_nodes("a").iter().map(|l| **l).collect();
    assert_eq!(names, vec!["a", "b"]);
}

#[test]
fn connected_nodes_empty_without_edges() {
    let g: Graph<&str, u64> = Graph::new_empty(vec!["a", "b"]);
    assert!(g.get_connected_nodes("b").is_empty());
}

fn undirected_edge(g: &mut Graph<&str, u64>, a: &'static str, b: &'static str, w: u64) {
    g.set_edge(a, b, Some(w));
    g.set_edge(b, a, Some(w));
}

#[test]
fn dijkstra_prefers_the_lighter_route() {
    let mut g: Graph<&str, u64> = Graph::new_empty(vec!["A", "B", "C", "D"]);
    undirected_edge(&mut g, "A", "B", 1);
    undirected_edge(&mut g, "B", "C", 2);
    undirected_edge(&mut g, "A", "C", 5);
    undirected_edge(&mut g, "C", "D", 1);

    let path = g.dijkstra_shortest_path(&"A", &"D").unwrap();
    let names: Vec<&str> = path.iter().map(|l| **l).collect();
    assert_eq!(names, vec!["A", "B", "C", "D"]);
}

#[test]
fn dijkstra_direct_edge_when_it_is_lighter() {
    let mut g: Graph<&str, u64> = Graph::new_empty(vec!["A", "B", "C"]);
    undirected_edge(&mut g, "A", "B", 1);
    undirected_edge(&mut g, "B", "C", 2);
    undirected_edge(&mut g, "A", "C", 2);

    let path = g.dijkstra_shortest_path(&"A", &"C").unwrap();
    let names: Vec<&str> = path.iter().map(|l| **l).collect();
    assert_eq!(names, vec!["A", "C"]);
}

#[test]
fn dijkstra_breaks_ties_toward_the_earlier_label() {
    let mut g: Graph<&str, u64> = Graph::new_empty(vec!["A", "B", "C", "D"]);
    undirected_edge(&mut g, "A", "B", 1);
    undirected_edge(&mut g, "A", "C", 1);
    undirected_edge(&mut g, "B", "D", 1);
    undirected_edge(&mut g, "C", "D", 1);

    let path = g.dijkstra_shortest_path(&"A", &"D").unwrap();
    let names: Vec<&str> = path.iter().map(|l| **l).collect();
    assert_eq!(names, vec!["A", "B", "D"]);
}

#[test]
fn dijkstra_same_start_and_end_is_the_single_label() {
    let mut g: Graph<&str, u64> = Graph::new_empty(vec!["A", "B"]);
    undirected_edge(&mut g, "A", "B", 1);
    let path = g.dijkstra_shortest_path(&"A", &"A").unwrap();
    let names: Vec<&str> = path.iter().map(|l| **l).collect();
    assert_eq!(names, vec!["A"]);

    let lonely: Graph<&str, u64> = Graph::new_empty(vec!["A"]);
    let path = lonely.dijkstra_shortest_path(&"A", &"A").unwrap();
    let names: Vec<&str> = path.iter().map(|l| **l).collect();
    assert_eq!(names, vec!["A"]);
}

#[test]
fn dijkstra_unreachable_end_is_no_path_error() {
    let mut g: Graph<&str, u64> = Graph::new_empty(vec!["A", "B", "C"]);
    undirected_edge(&mut g, "A", "B", 1);

    assert!(matches!(g.dijkstra_shortest_path(&"A", &"C"), Err(GraphError::NoPathError)));
}

#[test]
fn dijkstra_one_way_edge_has_no_way_back() {
    let mut g: Graph<&str, u64> = Graph::new_empty(vec!["A", "B"]);
    g.set_edge("A", "B", Some(1));

    let forward = g.dijkstra_shortest_path(&"A", &"B").unwrap();
    assert_eq!(forward.len(), 2);
    assert!(matches!(g.dijkstra_shortest_path(&"B", &"A"), Err(GraphError::NoPathError)));
}

#[test]
fn dijkstra_unknown_endpoint_is_unknown_label_error() {
    let g: Graph<&str, u64> = Graph::new_empty(vec!["A", "B"]);
    assert!(matches!(g.dijkstra_shortest_path(&"X", &"B"), Err(GraphError::UnknownLabelError)));
    assert!(matches!(g.dijkstra_shortest_path(&"A", &"X"), Err(GraphError::UnknownLabelError)));
    assert!(matches!(g.dijkstra_shortest_path(&"X", &"Y"), Err(GraphError::UnknownLabelError)));
}
