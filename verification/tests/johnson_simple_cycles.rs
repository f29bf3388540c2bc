use decycle::algorithms::enumeration::normalize_cycle;
use decycle::algorithms::johnson_simple_cycles::find_simple_cycles;
use petgraph::graph::Graph;

fn collect_simple_cycles(graph: &Graph<(), ()>) -> Vec<Vec<usize>> {
    let mut iter = find_simple_cycles(graph);
    let mut cycles: Vec<Vec<usize>> = Vec::new();
    while let Some(nodes) = iter.next() {
        let mut nodes: Vec<usize> = nodes.into_iter().map(|n| n as usize).collect();
        nodes.sort_unstable();
        cycles.push(nodes);
    }
    cycles.sort_unstable();
    cycles
}

fn count_simple_cycles(graph: &Graph<(), ()>) -> usize {
    let mut iter = find_simple_cycles(graph);
    let mut count = 0;
    while iter.next().is_some() {
        count += 1;
    }
    count
}

fn complete_graph(node_count: u32) -> Graph<(), ()> {
    let mut graph = Graph::<(), ()>::new();
    let nodes: Vec<_> = (0..node_count).map(|_| graph.add_node(())).collect();
    for a in &nodes {
        for b in &nodes {
            if a != b {
                graph.add_edge(*a, *b, ());
            }
        }
    }
    graph
}

#[test]
fn test_simple_cycles() {
    let mut graph = Graph::<(), ()>::new();
    graph.extend_with_edges([(0, 0), (0, 1), (0, 2), (1, 2), (2, 0), (2, 1), (2, 2)]);
    let expected: Vec<Vec<usize>> = vec![vec![0], vec![0, 1, 2], vec![0, 2], vec![1, 2], vec![2]];
    let actual = collect_simple_cycles(&graph);
    assert_eq!(expected, actual);
}

#[test]
fn test_empty_graph() {
    let empty_graph = Graph::<(), ()>::default();
    assert_eq!(count_simple_cycles(&empty_graph), 0);
}

#[test]
fn test_mesh_graph_2() {
    assert_eq!(count_simple_cycles(&complete_graph(2)), 1);
}

#[test]
fn test_mesh_graph_3() {
    assert_eq!(count_simple_cycles(&complete_graph(3)), 5);
}

#[test]
fn test_mesh_graph_4() {
    assert_eq!(count_simple_cycles(&complete_graph(4)), 20);
}

#[test]
fn test_mesh_graph_5() {
    assert_eq!(count_simple_cycles(&complete_graph(5)), 84);
}

#[test]
fn test_mesh_graph_6() {
    assert_eq!(count_simple_cycles(&complete_graph(6)), 409);
}

#[test]
fn test_mesh_graph_7() {
    assert_eq!(count_simple_cycles(&complete_graph(7)), 2365);
}

#[test]
fn test_mesh_graph_8() {
    assert_eq!(count_simple_cycles(&complete_graph(8)), 16064);
}

fn figure_1(k: u32) -> Graph<(), ()> {
    let mut graph = Graph::<(), ()>::new();
    let mut edge_list = Vec::<(u32, u32)>::new();
    for n in 2..(k + 2) {
        edge_list.push((1, n));
        edge_list.push((n, k + 2));
    }
    edge_list.push((2 * k + 1, 1));
    for n in (k + 2)..(2 * k + 2) {
        edge_list.push((n, 2 * k + 2));
        edge_list.push((n, n + 1));
    }
    edge_list.push((2 * k + 3, k + 2));
    for n in (2 * k + 3)..(3 * k + 3) {
        edge_list.push((2 * k + 2, n));
        edge_list.push((n, 3 * k + 3));
    }
    edge_list.push((3 * k + 3, 2 * k + 2));
    graph.extend_with_edges(edge_list);
    graph
}

#[test]
fn test_figure_1_small() {
    for k in 3..6 {
        assert_eq!(count_simple_cycles(&figure_1(k)), 3 * k as usize);
    }
}

#[test]
fn test_figure_1_large() {
    for k in 6..10 {
        assert_eq!(count_simple_cycles(&figure_1(k)), 3 * k as usize);
    }
}

#[test]
fn self_loop_is_a_cycle() {
    let mut graph = Graph::<(), ()>::new();
    graph.extend_with_edges([(3, 3)]);
    assert_eq!(collect_simple_cycles(&graph), vec![vec![3]]);
}

#[test]
fn cycle_is_returned_in_walking_order() {
    let mut graph = Graph::<(), ()>::new();
    graph.extend_with_edges([(0, 1), (1, 2), (2, 3), (3, 0)]);
    let mut iter = find_simple_cycles(&graph);
    let cycle = iter.next().unwrap();
    assert_eq!(cycle.len(), 4);
    for i in 0..4 {
        let from = cycle[i];
        let to = cycle[(i + 1) % 4];
        assert_eq!((from + 1) % 4, to);
    }
    assert!(iter.next().is_none());
    assert!(iter.next().is_none());
}

fn rotate_to_least(cycle: &[u32]) -> Vec<u32> {
    let least = (0..cycle.len()).min_by_key(|i| cycle[*i]).unwrap();
    let mut rotated = cycle[least..].to_vec();
    rotated.extend_from_slice(&cycle[..least]);
    rotated
}

#[test]
fn every_cycle_is_found_once_up_to_where_it_begins() {
    let graph = complete_graph(4);
    let mut iter = find_simple_cycles(&graph);
    let mut seen: Vec<Vec<u32>> = Vec::new();
    while let Some(cycle) = iter.next() {
        // Each is a simple cycle of the graph.
        let mut nodes = cycle.clone();
        nodes.sort_unstable();
        nodes.dedup();
        assert_eq!(nodes.len(), cycle.len());
        for i in 0..cycle.len() {
            let from = petgraph::graph::NodeIndex::new(cycle[i] as usize);
            let to = petgraph::graph::NodeIndex::new(cycle[(i + 1) % cycle.len()] as usize);
            assert!(graph.find_edge(from, to).is_some());
        }
        seen.push(rotate_to_least(&cycle));
    }
    let count = seen.len();
    seen.sort();
    seen.dedup();
    assert_eq!(seen.len(), count);
    // 6 cycles of two nodes, 8 of three, 6 of four.
    assert_eq!(count, 20);
    assert_eq!(seen.iter().filter(|c| c.len() == 2).count(), 6);
    assert_eq!(seen.iter().filter(|c| c.len() == 3).count(), 8);
    assert_eq!(seen.iter().filter(|c| c.len() == 4).count(), 6);
}

#[test]
fn edges_in_cycles_are_the_edges_of_the_cycles() {
    let graph = Graph::<(), ()>::from_edges([
        (0, 1),
        (1, 2),
        (2, 1),
        (2, 4),
        (4, 1),
        (4, 5),
        (5, 6),
        (6, 5),
        (6, 6),
        (7, 0),
        (3, 3),
        (1, 2),
    ]);
    let mut by_cycles: Vec<(u32, u32)> = Vec::new();
    let mut iter = find_simple_cycles(&graph);
    while let Some(cycle) = iter.next() {
        for i in 0..cycle.len() {
            by_cycles.push((cycle[i], cycle[(i + 1) % cycle.len()]));
        }
    }
    by_cycles.sort_unstable();
    by_cycles.dedup();

    let mut space = decycle::algorithms::path_edges::TraversalSpace::new(&graph);
    let mut by_edges: Vec<(u32, u32)> = space
        .find_edges_in_cycles()
        .to_vec()
        .into_iter()
        .map(|edge| {
            let (a, b) = graph
                .edge_endpoints(petgraph::graph::EdgeIndex::new(edge as usize))
                .unwrap();
            (a.index() as u32, b.index() as u32)
        })
        .collect();
    by_edges.sort_unstable();
    by_edges.dedup();
    assert_eq!(by_cycles, by_edges);
    assert_eq!(
        by_edges,
        vec![(1, 2), (2, 1), (2, 4), (3, 3), (4, 1), (5, 6), (6, 5), (6, 6)]
    );
}

#[test]
fn a_graph_whose_edges_were_removed_is_enumerated_too() {
    let mut graph = Graph::<(), ()>::from_edges([(0, 9), (1, 2), (1, 3), (3, 1), (2, 1)]);
    // Removing the first edge moves the last one into its place.
    graph.remove_edge(petgraph::graph::EdgeIndex::new(0));
    let cycles = collect_simple_cycles(&graph);
    assert_eq!(cycles, vec![vec![1, 2], vec![1, 3]]);
    let mut space = decycle::algorithms::path_edges::TraversalSpace::new(&graph);
    assert_eq!(space.find_edges_in_cycles().len(), 4);
}

#[test]
fn a_cycle_is_normalized_by_beginning_at_its_least_node() {
    assert_eq!(normalize_cycle(&vec![3, 1, 2]), vec![1, 2, 3]);
    assert_eq!(normalize_cycle(&vec![1, 2, 3]), vec![1, 2, 3]);
    assert_eq!(normalize_cycle(&vec![5, 9, 4]), vec![4, 5, 9]);
    assert_eq!(normalize_cycle(&vec![7]), vec![7]);
    assert_eq!(normalize_cycle(&Vec::new()), Vec::<u32>::new());
    assert_eq!(normalize_cycle(&vec![2, 0, 1, 0]), vec![0, 1, 0, 2]);
}
