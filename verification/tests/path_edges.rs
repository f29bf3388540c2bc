use decycle::algorithms::path_edges::TraversalSpace;
use petgraph::graph::Graph;

fn endpoints(graph: &Graph<(), ()>, edge: u32) -> (usize, usize) {
    let (a, b) = graph
        .edge_endpoints(petgraph::graph::EdgeIndex::new(edge as usize))
        .unwrap();
    (a.index(), b.index())
}

#[test]
fn test_find_backtrack_edges_disconnected() {
    let graph = Graph::<(), ()>::from_edges([(0, 1), (1, 2), (3, 4)]);
    let mut space = TraversalSpace::new(&graph);
    assert!(space.find_backtrack_edges(0, 3).is_none());
}

#[test]
fn test_find_backtrack_edges_basic() {
    let graph = Graph::<(), ()>::from_edges([(0, 1), (1, 2), (2, 1), (2, 4), (4, 5)]);
    let mut space = TraversalSpace::new(&graph);
    let edges = space.find_backtrack_edges(0, 4).unwrap();
    let mut edges = edges.into_iter();
    assert_eq!(endpoints(&graph, edges.next().unwrap()), (2, 4));
    assert_eq!(endpoints(&graph, edges.next().unwrap()), (1, 2));
    assert_eq!(endpoints(&graph, edges.next().unwrap()), (0, 1));
    assert!(edges.next().is_none());
}

#[test]
fn test_find_edges_in_cycles_basic() {
    let graph = Graph::<(), ()>::from_edges([
        (0, 1),
        (1, 2),
        (2, 1),
        (2, 4),
        (4, 1),
        (4, 5),
        (5, 6),
        (6, 5),
    ]);
    let mut space = TraversalSpace::new(&graph);
    let edges = space.find_edges_in_cycles();
    let mut found: Vec<(usize, usize)> = edges
        .to_vec()
        .into_iter()
        .map(|edge| endpoints(&graph, edge))
        .collect();
    found.sort();
    assert_eq!(found, vec![(1, 2), (2, 1), (2, 4), (4, 1), (5, 6), (6, 5)]);
}

#[test]
fn empty_graph_has_no_cycle_edges() {
    let graph = Graph::<(), ()>::new();
    let mut space = TraversalSpace::new(&graph);
    assert_eq!(space.find_edges_in_cycles().len(), 0);
}

#[test]
fn self_loop_is_a_cycle_edge() {
    let graph = Graph::<(), ()>::from_edges([(0, 1), (1, 1), (1, 2)]);
    let mut space = TraversalSpace::new(&graph);
    let edges = space.find_edges_in_cycles();
    assert_eq!(edges.to_vec(), vec![1]);
    assert_eq!(space.find_backtrack_edges(1, 1), Some(vec![]));
}

#[test]
fn parallel_edges_on_a_cycle_are_both_found() {
    let graph = Graph::<(), ()>::from_edges([(0, 1), (0, 1), (1, 0), (1, 2)]);
    let mut space = TraversalSpace::new(&graph);
    let mut edges = space.find_edges_in_cycles().to_vec();
    edges.sort();
    assert_eq!(edges, vec![0, 1, 2]);
}

#[test]
fn the_space_can_be_used_again() {
    let graph = Graph::<(), ()>::from_edges([(0, 1), (1, 2), (2, 0), (2, 3)]);
    let mut space = TraversalSpace::new(&graph);
    assert!(space.find_backtrack_edges(3, 0).is_none());
    let back = space.find_backtrack_edges(0, 3).unwrap();
    let walk: Vec<(usize, usize)> = back.iter().map(|e| endpoints(&graph, *e)).collect();
    assert_eq!(walk, vec![(2, 3), (1, 2), (0, 1)]);
    assert!(space.find_backtrack_edges(3, 0).is_none());
    let back = space.find_backtrack_edges(1, 0).unwrap();
    let walk: Vec<(usize, usize)> = back.iter().map(|e| endpoints(&graph, *e)).collect();
    assert_eq!(walk, vec![(2, 0), (1, 2)]);
}

#[test]
fn a_node_that_is_no_node_is_found_from_itself_only() {
    let graph = Graph::<(), ()>::from_edges([(0, 1)]);
    let mut space = TraversalSpace::new(&graph);
    assert_eq!(space.find_backtrack_edges(7, 7), Some(vec![]));
    assert!(space.find_backtrack_edges(0, 7).is_none());
}

#[test]
fn a_search_from_a_node_to_itself_yields_no_edge() {
    let graph = Graph::<(), ()>::from_edges([(0, 0)]);
    let mut space = TraversalSpace::new(&graph);
    let edges = space.find_backtrack_edges(0, 0).unwrap();
    assert!(edges.is_empty());

    let graph = Graph::<(), ()>::from_edges([(0, 1), (1, 0)]);
    let mut space = TraversalSpace::new(&graph);
    assert!(space.find_backtrack_edges(1, 1).unwrap().is_empty());
}

#[test]
fn the_path_found_enters_no_node_twice() {
    let graph = Graph::<(), ()>::from_edges([
        (0, 1),
        (1, 2),
        (2, 0),
        (2, 1),
        (1, 3),
        (3, 1),
        (3, 4),
        (0, 3),
        (4, 2),
    ]);
    let mut space = TraversalSpace::new(&graph);
    for from in 0..5u32 {
        for to in 0..5u32 {
            let edges = space.find_backtrack_edges(from, to).unwrap();
            assert_eq!(edges.is_empty(), from == to);
            assert!(edges.len() < graph.node_count());
            let mut entered = vec![from as usize];
            let mut at = to as usize;
            for edge in &edges {
                let (source, target) = endpoints(&graph, *edge);
                assert_eq!(target, at);
                assert!(!entered.contains(&target));
                entered.push(target);
                at = source;
            }
            assert_eq!(at, from as usize);
        }
    }
}
