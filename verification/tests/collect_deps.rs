use decycle::collect_deps::{
    collect_dependencies, Coordinator, CrawlError, DependencyInfo, DiscoverDependency,
};
use std::collections::{HashMap, HashSet};

struct TestDiscoverDependency(
    HashMap<&'static str, (Vec<(&'static str, &'static str)>, Option<&'static str>)>,
);

impl DiscoverDependency for TestDiscoverDependency {
    type Edge = &'static str;
    type Error = &'static str;

    fn discover_dependencies(
        &self,
        path: &str,
    ) -> (Vec<(String, Self::Edge)>, Option<Self::Error>) {
        let (deps, err) = &self.0[path];
        (
            deps.iter()
                .map(|(dep_path, edge)| (dep_path.to_string(), *edge))
                .collect(),
            *err,
        )
    }
}

fn discoverer(first: &'static str) -> TestDiscoverDependency {
    let mut map = HashMap::new();
    map.insert(first, (vec![], None));
    map.insert("a", (vec![("b", "a-b")], Some("a error")));
    map.insert("b", (vec![("c", "b-c"), ("d", "b-d")], None));
    map.insert("c", (vec![], Some("c error")));
    map.insert("d", (vec![("a", "d-a"), ("d", "d-d")], None));
    TestDiscoverDependency(map)
}

#[test]
fn test_collect_dependencies() {
    let test_discover_dep = discoverer("x");
    let result =
        collect_dependencies(vec!["x".to_string(), "a".to_string()], &test_discover_dep).unwrap();

    assert_eq!(*result.error_of("a").unwrap(), "a error");
    assert_eq!(*result.error_of("c").unwrap(), "c error");
    assert_eq!(result.errors_by_path.len(), 2);

    assert!(result.dependency_graph.assert_consistency());

    let actual_paths = result
        .dependency_graph
        .paths()
        .iter()
        .map(|p| p.as_str())
        .collect::<HashSet<_>>();
    assert_eq!(
        actual_paths,
        ["x", "a", "b", "c", "d"].into_iter().collect()
    );

    let actual_edges = result
        .dependency_graph
        .edges()
        .into_iter()
        .map(|(from, to, edge)| (from.as_str(), to.as_str(), *edge))
        .collect::<HashSet<_>>();
    assert_eq!(
        actual_edges,
        [
            ("a", "b", "a-b"),
            ("b", "c", "b-c"),
            ("b", "d", "b-d"),
            ("d", "a", "d-a"),
            ("d", "d", "d-d"),
        ]
        .into_iter()
        .collect()
    )
}

#[test]
fn crawl_with_an_entry_of_the_empty_path() {
    let test_discover_dep = discoverer("");
    let result =
        collect_dependencies(vec!["".to_string(), "a".to_string()], &test_discover_dep).unwrap();
    let paths: HashSet<&str> = result
        .dependency_graph
        .paths()
        .iter()
        .map(|p| p.as_str())
        .collect();
    assert_eq!(paths, ["", "a", "b", "c", "d"].into_iter().collect());
    assert_eq!(result.dependency_graph.edges().len(), 5);
    assert_eq!(*result.error_of("a").unwrap(), "a error");
    assert_eq!(*result.error_of("c").unwrap(), "c error");
    assert!(result.error_of("b").is_none());
    assert_eq!(result.errors_by_path.len(), 2);
}

#[test]
fn edges_keep_the_order_of_the_result() {
    let test_discover_dep = discoverer("x");
    let result = collect_dependencies(vec!["b".to_string()], &test_discover_dep).unwrap();
    let edges: Vec<(String, String, &str)> = result
        .dependency_graph
        .edges()
        .into_iter()
        .map(|(from, to, edge)| (from.clone(), to.clone(), *edge))
        .collect();
    assert_eq!(edges[0], ("b".to_string(), "c".to_string(), "b-c"));
    assert_eq!(edges[1], ("b".to_string(), "d".to_string(), "b-d"));
    // Node indices follow first sighting: b, then its dependencies c and d.
    assert_eq!(result.dependency_graph.index_of("b"), Some(0));
    assert_eq!(result.dependency_graph.index_of("c"), Some(1));
    assert_eq!(result.dependency_graph.index_of("d"), Some(2));
    assert_eq!(result.dependency_graph.index_of("a"), Some(3));
    assert_eq!(result.dependency_graph.index_of("x"), None);
}

#[test]
fn entry_that_fails_to_read_is_a_node_without_edges() {
    let mut map = HashMap::new();
    map.insert("gone", (vec![], Some("cannot read")));
    let result =
        collect_dependencies(vec!["gone".to_string()], &TestDiscoverDependency(map)).unwrap();
    assert_eq!(result.dependency_graph.paths().len(), 1);
    assert_eq!(result.dependency_graph.paths()[0], "gone");
    assert_eq!(result.dependency_graph.edges().len(), 0);
    assert_eq!(*result.error_of("gone").unwrap(), "cannot read");
}

#[test]
fn second_error_for_a_path_ends_the_crawl() {
    let mut map = HashMap::new();
    map.insert("gone", (vec![], Some("cannot read")));
    let result = collect_dependencies(
        vec!["gone".to_string(), "gone".to_string()],
        &TestDiscoverDependency(map),
    );
    assert!(matches!(result, Err(CrawlError::DuplicateError)));
}

#[test]
fn coordinator_counts_outstanding_work() {
    let mut coordinator = Coordinator::<&'static str, &'static str>::new();
    assert_eq!(coordinator.outstanding(), 0);
    coordinator.seed();
    coordinator.seed();
    assert_eq!(coordinator.outstanding(), 2);

    // One result in, two new paths out: 2 - 1 + 2.
    let (new_paths, done) = coordinator.fold(DependencyInfo {
        path: "a".to_string(),
        dependencies: vec![
            ("b".to_string(), "a-b"),
            ("c".to_string(), "a-c"),
            ("b".to_string(), "a-b again"),
        ],
        error: None,
    });
    assert_eq!(new_paths, vec!["b".to_string(), "c".to_string()]);
    assert!(!done);
    assert_eq!(coordinator.outstanding(), 3);
    assert_eq!(coordinator.node_count(), 3);
    assert_eq!(coordinator.edge_count(), 3);

    let (new_paths, done) = coordinator.fold(DependencyInfo {
        path: "b".to_string(),
        dependencies: vec![("a".to_string(), "b-a")],
        error: Some("b error"),
    });
    assert!(new_paths.is_empty());
    assert!(!done);
    assert_eq!(coordinator.outstanding(), 2);
    assert!(coordinator.has_error("b"));
    assert!(!coordinator.has_error("a"));

    let (_, done) = coordinator.fold(DependencyInfo {
        path: "c".to_string(),
        dependencies: vec![],
        error: None,
    });
    assert!(!done);
    let (new_paths, done) = coordinator.fold(DependencyInfo {
        path: "z".to_string(),
        dependencies: vec![],
        error: None,
    });
    assert!(new_paths.is_empty());
    assert!(done);
    assert_eq!(coordinator.outstanding(), 0);

    let outcome = coordinator.finish();
    assert!(outcome.dependency_graph.assert_consistency());
    assert_eq!(outcome.dependency_graph.paths().len(), 4);
    assert_eq!(outcome.dependency_graph.edges().len(), 4);
    assert_eq!(*outcome.error_of("b").unwrap(), "b error");
}

fn fold_in(order: &[&'static str]) -> decycle::collect_deps::DependencyGraphWithErrors<&'static str, &'static str> {
    let discoverer = discoverer("x");
    let mut coordinator = Coordinator::<&'static str, &'static str>::new();
    coordinator.seed();
    let mut sent = vec!["a".to_string()];
    for path in order {
        // Only a path that was handed out and has no result yet is folded in.
        assert!(sent.iter().any(|p| p == path));
        sent.retain(|p| p != path);
        assert!(coordinator.outstanding() > 0);
        let (dependencies, error) = discoverer.discover_dependencies(path);
        let (new_paths, done) = coordinator.fold(DependencyInfo {
            path: path.to_string(),
            dependencies,
            error,
        });
        sent.extend(new_paths);
        assert_eq!(coordinator.outstanding() as usize, sent.len());
        assert_eq!(done, sent.is_empty());
    }
    assert_eq!(coordinator.outstanding(), 0);
    coordinator.finish()
}

fn summary(
    outcome: &decycle::collect_deps::DependencyGraphWithErrors<&'static str, &'static str>,
) -> (Vec<String>, Vec<(String, String, &'static str)>, Vec<(String, &'static str)>) {
    let mut nodes: Vec<String> = outcome.dependency_graph.paths().clone();
    nodes.sort();
    let mut edges: Vec<(String, String, &'static str)> = outcome
        .dependency_graph
        .edges()
        .into_iter()
        .map(|(from, to, edge)| (from.clone(), to.clone(), *edge))
        .collect();
    edges.sort();
    let mut errors: Vec<(String, &'static str)> = outcome.errors_by_path.clone();
    errors.sort();
    (nodes, edges, errors)
}

#[test]
fn the_order_of_the_results_does_not_matter() {
    // From a: b; from b: c and d; then c and d in either order.
    let first = fold_in(&["a", "b", "c", "d"]);
    let second = fold_in(&["a", "b", "d", "c"]);
    assert!(first.dependency_graph.assert_consistency());
    assert!(second.dependency_graph.assert_consistency());
    assert_eq!(summary(&first), summary(&second));
    // The node numbers do differ: they follow first sighting.
    assert_eq!(first.dependency_graph.index_of("c"), second.dependency_graph.index_of("c"));
    assert_eq!(first.errors_by_path[1].0, "c");
    assert_eq!(second.errors_by_path[1].0, "c");

    let in_order = collect_dependencies(vec!["a".to_string()], &discoverer("x")).unwrap();
    assert_eq!(summary(&first), summary(&in_order));
    assert_eq!(
        summary(&in_order).0,
        vec!["a".to_string(), "b".to_string(), "c".to_string(), "d".to_string()]
    );
}

#[test]
fn an_entry_that_another_entry_depends_on_is_discovered_twice() {
    // b is an entry and a dependency of a: when a's result comes first, b is
    // handed out a second time and its edges are added twice.
    let result = collect_dependencies(
        vec!["a".to_string(), "b".to_string()],
        &discoverer("x"),
    )
    .unwrap();
    let edges_from_b = result
        .dependency_graph
        .edges()
        .into_iter()
        .filter(|(from, _, _)| from.as_str() == "b")
        .count();
    assert_eq!(edges_from_b, 4);
    assert_eq!(result.dependency_graph.paths().len(), 4);
}

#[test]
fn a_run_reports_the_cycle_edges_relative_and_in_path_order() {
    let mut map = HashMap::new();
    map.insert("/p/main.js", (vec![("/p/lib/b.js", "one"), ("/p/lib-x.js", "two")], None));
    map.insert("/p/lib/b.js", (vec![("/p/main.js", "three"), ("/p/leaf.js", "four")], None));
    map.insert("/p/lib-x.js", (vec![("/p/main.js", "five")], None));
    map.insert("/p/leaf.js", (vec![], None));
    let discoverer = TestDiscoverDependency(map);

    let report = match decycle::run(vec!["/p/main.js".to_string()], "/p", &discoverer) {
        Ok(report) => report,
        Err(_) => panic!("expected a report"),
    };
    let pairs: Vec<(&str, &str)> = report
        .iter()
        .map(|(from, to)| (from.as_str(), to.as_str()))
        .collect();
    assert_eq!(
        pairs,
        vec![
            ("lib/b.js", "main.js"),
            ("lib-x.js", "main.js"),
            ("main.js", "lib/b.js"),
            ("main.js", "lib-x.js"),
        ]
    );
}

#[test]
fn a_run_without_a_relative_path_gives_no_report() {
    let mut map = HashMap::new();
    map.insert("a", (vec![("b", "a-b")], None));
    map.insert("b", (vec![("a", "b-a")], None));
    let discoverer = TestDiscoverDependency(map);
    match decycle::run(vec!["a".to_string()], "/p", &discoverer) {
        Err(decycle::RunError::NoRelativePath) => {}
        _ => panic!("expected that no relative path can be written"),
    }
}

#[test]
fn a_run_is_given_up_where_the_crawl_is() {
    let mut map = HashMap::new();
    map.insert("a", (vec![("b", "a-b")], None));
    map.insert("b", (vec![], Some("b error")));
    let discoverer = TestDiscoverDependency(map);
    match decycle::run(vec!["a".to_string(), "b".to_string()], "", &discoverer) {
        Err(decycle::RunError::Crawl(CrawlError::DuplicateError)) => {}
        _ => panic!("expected a duplicate error"),
    }
}

#[test]
fn no_path_has_two_errors_in_the_outcome() {
    let test_discover_dep = discoverer("x");
    let result =
        collect_dependencies(vec!["x".to_string(), "a".to_string()], &test_discover_dep).unwrap();
    let mut seen = HashSet::new();
    for (path, _) in &result.errors_by_path {
        assert!(seen.insert(path.clone()));
    }
}
