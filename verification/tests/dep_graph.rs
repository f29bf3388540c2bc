use decycle::dep_graph::DependencyGraph;
use decycle::hash::{BlockMap, IdMap, IdSet, PathIndex};
use decycle::sequence::reversed;

fn sample() -> DependencyGraph<&'static str> {
    let mut graph = DependencyGraph::new();
    let (a, new_a) = graph.get_path_index_or_insert("/p/a.js");
    let (b, new_b) = graph.get_path_index_or_insert("/p/b.js");
    let (c, new_c) = graph.get_path_index_or_insert("/p/c.js");
    let (d, _) = graph.get_path_index_or_insert("/p/d.js");
    assert!(new_a && new_b && new_c);
    assert_eq!((a, b, c, d), (0, 1, 2, 3));
    graph.add_edge(a, b, "a-b");
    graph.add_edge(b, c, "b-c");
    graph.add_edge(c, a, "c-a");
    graph.add_edge(c, d, "c-d");
    graph.add_edge(a, b, "a-b again");
    graph.add_edge(d, d, "d-d");
    graph
}

#[test]
fn a_path_has_one_node() {
    let mut graph = sample();
    assert_eq!(graph.get_path_index_or_insert("/p/b.js"), (1, false));
    assert_eq!(graph.get_path_index_or_insert("/p/e.js"), (4, true));
    assert_eq!(graph.get_path_index_or_insert("/p/e.js"), (4, false));
    assert_eq!(graph.node_count(), 5);
    assert_eq!(graph.index_of("/p/a.js"), Some(0));
    assert_eq!(graph.index_of("/p/z.js"), None);
    assert_eq!(graph.path(2), "/p/c.js");
    assert!(graph.assert_consistency());
}

#[test]
fn an_empty_graph_is_consistent() {
    let graph = DependencyGraph::<()>::new();
    assert!(graph.assert_consistency());
    assert_eq!(graph.node_count(), 0);
    assert_eq!(graph.edge_count(), 0);
    assert!(graph.find_cycles().is_empty());
    assert!(graph.cycle_edge_paths().is_empty());
}

#[test]
fn parallel_edges_are_kept() {
    let graph = sample();
    assert_eq!(graph.edge_count(), 6);
    let edges: Vec<(&str, &str, &str)> = graph
        .edges()
        .into_iter()
        .map(|(from, to, edge)| (from.as_str(), to.as_str(), *edge))
        .collect();
    assert_eq!(
        edges,
        vec![
            ("/p/a.js", "/p/b.js", "a-b"),
            ("/p/b.js", "/p/c.js", "b-c"),
            ("/p/c.js", "/p/a.js", "c-a"),
            ("/p/c.js", "/p/d.js", "c-d"),
            ("/p/a.js", "/p/b.js", "a-b again"),
            ("/p/d.js", "/p/d.js", "d-d"),
        ]
    );
    assert_eq!(graph.path_graph().edge_count(), 6);
    assert_eq!(graph.path_graph().node_count(), 4);
}

#[test]
fn both_parallel_edges_of_a_cycle_are_reported() {
    let graph = sample();
    let report: Vec<(&str, &str)> = graph
        .cycle_edge_paths()
        .into_iter()
        .map(|(from, to)| (from.as_str(), to.as_str()))
        .collect();
    assert_eq!(
        report,
        vec![
            ("/p/a.js", "/p/b.js"),
            ("/p/b.js", "/p/c.js"),
            ("/p/c.js", "/p/a.js"),
            ("/p/a.js", "/p/b.js"),
            ("/p/d.js", "/p/d.js"),
        ]
    );
}

#[test]
fn cycles_are_named_by_their_paths() {
    let graph = sample();
    let mut cycles: Vec<Vec<&str>> = graph
        .find_cycles()
        .into_iter()
        .map(|cycle| {
            let names: Vec<&str> = cycle.into_iter().map(|p| p.as_str()).collect();
            let least = (0..names.len()).min_by_key(|i| names[*i]).unwrap();
            let mut rotated = names[least..].to_vec();
            rotated.extend_from_slice(&names[..least]);
            rotated
        })
        .collect();
    cycles.sort();
    assert_eq!(
        cycles,
        vec![vec!["/p/a.js", "/p/b.js", "/p/c.js"], vec!["/p/d.js"]]
    );
}

#[test]
fn id_set_is_a_set() {
    let mut set = IdSet::new();
    assert!(set.insert(3));
    assert!(set.insert(5));
    assert!(!set.insert(3));
    assert_eq!(set.len(), 2);
    assert!(set.contains(5));
    assert!(!set.contains(4));
    assert!(set.remove(3));
    assert!(!set.remove(3));
    assert_eq!(set.to_vec(), vec![5]);
    set.insert(9);
    let mut drained = set.drain();
    drained.sort();
    assert_eq!(drained, vec![5, 9]);
    assert_eq!(set.len(), 0);
}

#[test]
fn path_index_is_a_map() {
    let mut index = PathIndex::new();
    assert_eq!(index.insert("a".to_string(), 1), None);
    assert_eq!(index.insert("b".to_string(), 2), None);
    assert_eq!(index.insert("a".to_string(), 3), Some(1));
    assert_eq!(index.get("a"), Some(3));
    assert_eq!(index.get("c"), None);
    assert_eq!(index.len(), 2);
}

#[test]
fn id_map_is_a_map() {
    let mut map = IdMap::new();
    assert_eq!(map.get(1), None);
    assert_eq!(map.insert(1, 10), None);
    assert_eq!(map.insert(1, 11), Some(10));
    assert_eq!(map.get(1), Some(11));
}

#[test]
fn block_map_changes_sets_in_place() {
    let mut map = BlockMap::new();
    assert!(map.get_mut(4).is_none());
    let mut set = IdSet::new();
    set.insert(1);
    map.insert(4, set);
    assert!(map.get_mut(4).unwrap().insert(2));
    assert!(!map.get_mut(4).unwrap().insert(1));
    let mut held = map.get_mut(4).unwrap().drain();
    held.sort();
    assert_eq!(held, vec![1, 2]);
    assert_eq!(map.get_mut(4).unwrap().len(), 0);
    map.insert(4, IdSet::new());
    assert_eq!(map.get_mut(4).unwrap().len(), 0);
}

#[test]
fn reversed_turns_a_vector_round() {
    assert_eq!(reversed(vec![1, 2, 3]), vec![3, 2, 1]);
    assert_eq!(reversed(Vec::<u8>::new()), Vec::<u8>::new());
}

#[test]
fn the_default_graph_is_empty() {
    let graph: DependencyGraph<u8> = Default::default();
    assert_eq!(graph.node_count(), 0);
    assert_eq!(graph.edge_count(), 0);
    assert!(graph.assert_consistency());
}

#[test]
fn path_index_hands_out_every_entry_once() {
    let mut index = PathIndex::new();
    assert!(index.entries().is_empty());
    index.insert("/p/a.js".to_string(), 0);
    index.insert("/p/b.js".to_string(), 1);
    index.insert("/p/c.js".to_string(), 2);
    index.insert("/p/b.js".to_string(), 7);
    let mut entries = index.entries();
    entries.sort();
    assert_eq!(
        entries,
        vec![
            ("/p/a.js".to_string(), 0),
            ("/p/b.js".to_string(), 7),
            ("/p/c.js".to_string(), 2),
        ]
    );
}

#[test]
fn graph_stays_consistent_as_it_grows() {
    let mut graph: DependencyGraph<u8> = DependencyGraph::new();
    assert!(graph.assert_consistency());
    let (a, _) = graph.get_path_index_or_insert("/p/a.js");
    assert!(graph.assert_consistency());
    let (b, _) = graph.get_path_index_or_insert("/p/b.js");
    let (again, fresh) = graph.get_path_index_or_insert("/p/a.js");
    assert_eq!((again, fresh), (a, false));
    graph.add_edge(a, b, 1);
    graph.add_edge(b, a, 2);
    assert!(graph.assert_consistency());
    assert_eq!(graph.node_count(), 2);
}
