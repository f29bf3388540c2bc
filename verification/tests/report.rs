use decycle::report::snapshot;

fn borrowed(pairs: &[(String, String)]) -> Vec<(&String, &String)> {
    pairs.iter().map(|(from, to)| (from, to)).collect()
}

fn owned(pairs: &[(&str, &str)]) -> Vec<(String, String)> {
    pairs
        .iter()
        .map(|(from, to)| (from.to_string(), to.to_string()))
        .collect()
}

#[test]
fn snapshot_paths_are_relative_to_the_root() {
    let pairs = owned(&[("/p/src/a.js", "/p/src/b.js"), ("/q/c.js", "/p/d.js")]);
    let out = snapshot(&borrowed(&pairs), "/p").unwrap();
    assert_eq!(
        out,
        owned(&[("../q/c.js", "d.js"), ("src/a.js", "src/b.js")])
    );
}

#[test]
fn snapshot_pairs_are_ordered_component_by_component() {
    let pairs = owned(&[
        ("/p/a-b.js", "/p/z.js"),
        ("/p/a/b.js", "/p/z.js"),
        ("/p/a/b.js", "/p/y.js"),
        ("/p/a-b.js", "/p/z.js"),
    ]);
    let out = snapshot(&borrowed(&pairs), "/p").unwrap();
    assert_eq!(
        out,
        owned(&[
            ("a/b.js", "y.js"),
            ("a/b.js", "z.js"),
            ("a-b.js", "z.js"),
            ("a-b.js", "z.js"),
        ])
    );
}

#[test]
fn snapshot_of_nothing_is_empty() {
    let out = snapshot(&Vec::new(), "/p").unwrap();
    assert!(out.is_empty());
}

#[test]
fn no_snapshot_without_a_relative_path() {
    let pairs = owned(&[("/p/a.js", "/p/b.js"), ("c.js", "/p/a.js")]);
    assert!(snapshot(&borrowed(&pairs), "/p").is_none());
    let pairs = owned(&[("/p/a.js", "/p/b.js")]);
    assert!(snapshot(&borrowed(&pairs), "/p/../q").is_none());
}
