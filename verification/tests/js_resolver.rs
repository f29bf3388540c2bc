use decycle::js_resolver::parse_imports::{Imports, Span};
use decycle::js_resolver::span_list::SpanList;
use decycle::js_resolver::{
    after_read, discovered, group_spans, is_relative_specifier, is_script_path,
    specifiers_to_resolve, unreadable, JsDiscoverDependencyError, Resolution,
};
use oxc_diagnostics::OxcDiagnostic;
use oxc_resolver::ResolveError;
use std::path::PathBuf;

fn at(start: u32) -> Span {
    Span {
        start,
        end: start + 1,
    }
}

fn plain(groups: Vec<(String, SpanList)>) -> Vec<(String, Vec<Span>)> {
    groups
        .into_iter()
        .map(|(path, spans)| (path, spans.to_vec()))
        .collect()
}

#[test]
fn relative_specifiers_start_with_a_dot_component() {
    assert!(is_relative_specifier("./a"));
    assert!(is_relative_specifier("../a"));
    assert!(is_relative_specifier("./"));
    assert!(is_relative_specifier("../"));
    assert!(is_relative_specifier("."));
    assert!(is_relative_specifier(".."));
    assert!(is_relative_specifier(".//a/b.js"));
    assert!(is_relative_specifier("../../x"));
}

#[test]
fn bare_and_absolute_specifiers_are_not_relative() {
    assert!(!is_relative_specifier(""));
    assert!(!is_relative_specifier("a"));
    assert!(!is_relative_specifier("react"));
    assert!(!is_relative_specifier("@scope/pkg"));
    assert!(!is_relative_specifier("/abs/path.js"));
    assert!(!is_relative_specifier(".a"));
    assert!(!is_relative_specifier("..a"));
    assert!(!is_relative_specifier(".../a"));
    assert!(!is_relative_specifier("a/./b"));
    assert!(!is_relative_specifier("\u{e9}./a"));
}

#[test]
fn relative_agrees_with_the_first_path_component() {
    for specifier in [
        "", ".", "..", "./", "../", "./a", "../a", ".a", "..a", "a", "/a", "...", ".//", "..//x",
        "~/a", "a/../b",
    ] {
        let by_path = matches!(
            std::path::Path::new(specifier).components().next(),
            Some(std::path::Component::CurDir | std::path::Component::ParentDir)
        );
        assert_eq!(is_relative_specifier(specifier), by_path, "{specifier:?}");
    }
}

#[test]
fn script_paths_end_in_one_of_four_extensions() {
    assert!(is_script_path("/p/a.js"));
    assert!(is_script_path("/p/a.ts"));
    assert!(is_script_path("/p/a.jsx"));
    assert!(is_script_path("/p/a.tsx"));
    assert!(is_script_path("/p/a.d.ts"));
    assert!(is_script_path("a.js"));
    assert!(is_script_path("/p/..js"));
}

#[test]
fn other_paths_are_no_scripts() {
    assert!(!is_script_path(""));
    assert!(!is_script_path("js"));
    assert!(!is_script_path(".js"));
    assert!(!is_script_path("/p/.js"));
    assert!(!is_script_path("/p/.tsx"));
    assert!(!is_script_path("/p/a.json"));
    assert!(!is_script_path("/p/a.node"));
    assert!(!is_script_path("/p/a.JS"));
    assert!(!is_script_path("/p/a.Ts"));
    assert!(!is_script_path("/p/a.mjs"));
    assert!(!is_script_path("/p/a.cjs"));
    assert!(!is_script_path("/p/a.css"));
    assert!(!is_script_path("/p/a"));
    assert!(!is_script_path("/p/ajs"));
    assert!(!is_script_path("/p.js/a"));
    assert!(!is_script_path("/p/a.jsx.map"));
    assert!(!is_script_path("/p/a.xs"));
    assert!(!is_script_path("/p/a.jx"));
}

#[test]
fn script_agrees_with_the_path_extension() {
    for path in [
        "", "a", "a.js", ".js", "/x/.js", "/x/a.js", "/x/a.ts", "/x/a.tsx", "/x/a.jsx",
        "/x/a.json", "/x/a.b.ts", "/x.ts/a", "/x/..ts", "/x/a.s", "/x/a.x", "x.jsx", "/a.tsxx",
        "/x/\u{e9}.ts",
    ] {
        let by_path = matches!(
            std::path::Path::new(path).extension().and_then(|e| e.to_str()),
            Some("js" | "ts" | "jsx" | "tsx")
        );
        assert_eq!(is_script_path(path), by_path, "{path:?}");
    }
}

#[test]
fn only_relative_specifiers_are_resolved() {
    let imports = Imports {
        specifiers: vec![
            ("react".to_string(), at(0)),
            ("./a".to_string(), at(10)),
            ("/abs".to_string(), at(20)),
            ("../b".to_string(), at(30)),
            ("./a".to_string(), at(40)),
        ],
        non_literal_imports: vec![],
    };
    assert_eq!(
        specifiers_to_resolve(&imports),
        vec![
            ("./a".to_string(), at(10)),
            ("../b".to_string(), at(30)),
            ("./a".to_string(), at(40)),
        ]
    );
}

#[test]
fn spans_are_grouped_by_path_in_order_of_first_sighting() {
    let groups = group_spans(vec![
        ("/p/b.js".to_string(), at(1)),
        ("/p/a.js".to_string(), at(2)),
        ("/p/b.js".to_string(), at(3)),
        ("/p/c.js".to_string(), at(4)),
        ("/p/a.js".to_string(), at(5)),
        ("/p/b.js".to_string(), at(6)),
    ]);
    assert_eq!(
        plain(groups),
        vec![
            ("/p/b.js".to_string(), vec![at(1), at(3), at(6)]),
            ("/p/a.js".to_string(), vec![at(2), at(5)]),
            ("/p/c.js".to_string(), vec![at(4)]),
        ]
    );
    assert!(group_spans(vec![]).is_empty());
}

#[test]
fn a_clean_file_has_dependencies_and_no_error() {
    let (deps, error) = discovered(
        vec![
            Resolution {
                outcome: Ok("/p/a.ts".to_string()),
                span: at(1),
            },
            Resolution {
                outcome: Ok("/p/data.json".to_string()),
                span: at(2),
            },
            Resolution {
                outcome: Ok("/p/a.ts".to_string()),
                span: at(3),
            },
        ],
        vec![],
        vec![],
    );
    assert_eq!(plain(deps), vec![("/p/a.ts".to_string(), vec![at(1), at(3)])]);
    assert!(error.is_none());
}

#[test]
fn failures_are_gathered_into_one_error() {
    let failure = ResolveError::NotFound("./gone".to_string());
    let (deps, error) = discovered(
        vec![
            Resolution {
                outcome: Err(failure.clone()),
                span: at(1),
            },
            Resolution {
                outcome: Ok("/p/b.jsx".to_string()),
                span: at(2),
            },
            Resolution {
                outcome: Err(ResolveError::Ignored(PathBuf::from("/p/x"))),
                span: at(3),
            },
        ],
        vec![OxcDiagnostic::warn("odd")],
        vec![at(9)],
    );
    assert_eq!(plain(deps), vec![("/p/b.jsx".to_string(), vec![at(2)])]);
    match error {
        Some(JsDiscoverDependencyError::ParseOrResolveError {
            parse_errors,
            resolve_errors,
            non_literal_imports,
        }) => {
            assert_eq!(parse_errors, vec![OxcDiagnostic::warn("odd")]);
            assert_eq!(
                resolve_errors,
                vec![
                    (failure, at(1)),
                    (ResolveError::Ignored(PathBuf::from("/p/x")), at(3)),
                ]
            );
            assert_eq!(non_literal_imports, vec![at(9)]);
        }
        _ => panic!("expected a parse-or-resolve error"),
    }
}

#[test]
fn each_kind_of_trouble_alone_makes_an_error() {
    let (_, error) = discovered(vec![], vec![OxcDiagnostic::error("bad")], vec![]);
    assert!(matches!(
        error,
        Some(JsDiscoverDependencyError::ParseOrResolveError { .. })
    ));
    let (_, error) = discovered(vec![], vec![], vec![at(4)]);
    assert!(matches!(
        error,
        Some(JsDiscoverDependencyError::ParseOrResolveError { .. })
    ));
    let (_, error) = discovered(
        vec![Resolution {
            outcome: Err(ResolveError::NotFound("./x".to_string())),
            span: at(0),
        }],
        vec![],
        vec![],
    );
    assert!(matches!(
        error,
        Some(JsDiscoverDependencyError::ParseOrResolveError { .. })
    ));
    let (deps, error) = discovered(vec![], vec![], vec![]);
    assert!(deps.is_empty());
    assert!(error.is_none());
}

#[test]
fn a_file_that_cannot_be_read_has_no_dependencies() {
    let (deps, error) = unreadable(std::io::Error::new(
        std::io::ErrorKind::NotFound,
        "no such file",
    ));
    assert!(deps.is_empty());
    match error {
        Some(JsDiscoverDependencyError::FileReadError(err)) => {
            assert_eq!(err.kind(), std::io::ErrorKind::NotFound);
        }
        _ => panic!("expected a file read error"),
    }
}

#[test]
fn a_failed_read_ends_the_discovery() {
    let read = Err(std::io::Error::new(
        std::io::ErrorKind::PermissionDenied,
        "not allowed",
    ));
    match after_read(read) {
        Err((deps, Some(JsDiscoverDependencyError::FileReadError(err)))) => {
            assert!(deps.is_empty());
            assert_eq!(err.kind(), std::io::ErrorKind::PermissionDenied);
            assert_eq!(err.to_string(), "not allowed");
        }
        _ => panic!("expected the outcome of a failed read"),
    }
}

#[test]
fn a_file_that_was_read_goes_on_to_the_parser() {
    match after_read(Ok("import './a';".to_string())) {
        Ok(source) => assert_eq!(source, "import './a';"),
        Err(_) => panic!("expected the text of the file"),
    }
}

#[test]
fn a_span_list_keeps_its_spans_in_order() {
    let mut list = SpanList::new();
    assert_eq!(list.len(), 0);
    assert!(list.to_vec().is_empty());
    list.push(at(4));
    assert_eq!(list.len(), 1);
    assert_eq!(list.to_vec(), vec![at(4)]);
    list.push(at(2));
    list.push(at(9));
    assert_eq!(list.len(), 3);
    assert_eq!(list.to_vec(), vec![at(4), at(2), at(9)]);
}
