use decycle::dep::get_deps;
use decycle::js_resolver::parse_imports::{
    parse_imports, ImportSite, Imports, Operand, Parsed, Span,
};
use oxc_allocator::Allocator;
use oxc_ast::ast::{
    Argument, CallExpression, ExportAllDeclaration, ExportNamedDeclaration, Expression,
    ImportDeclaration, ImportExpression, TSImportEqualsDeclaration, TSModuleReference,
};
use oxc_ast_visit::walk::{
    walk_call_expression, walk_export_all_declaration, walk_export_named_declaration,
    walk_import_declaration, walk_import_expression, walk_program,
    walk_ts_import_equals_declaration,
};
use oxc_ast_visit::Visit;
use oxc_parser::Parser;
use oxc_span::{GetSpan, SourceType};

fn span(s: oxc_span::Span) -> Span {
    Span {
        start: s.start,
        end: s.end,
    }
}

struct Sites {
    sites: Vec<ImportSite>,
}

impl<'a> Visit<'a> for Sites {
    fn visit_export_all_declaration(&mut self, decl: &ExportAllDeclaration<'a>) {
        self.sites.push(ImportSite::ExportAllDeclaration {
            type_only: decl.export_kind.is_type(),
            source: decl.source.value.as_str().to_string(),
            span: span(decl.source.span),
        });
        walk_export_all_declaration(self, decl);
    }

    fn visit_export_named_declaration(&mut self, decl: &ExportNamedDeclaration<'a>) {
        self.sites.push(ImportSite::ExportNamedDeclaration {
            type_only: decl.export_kind.is_type(),
            source: decl
                .source
                .as_ref()
                .map(|s| (s.value.as_str().to_string(), span(s.span))),
        });
        walk_export_named_declaration(self, decl);
    }

    fn visit_import_declaration(&mut self, decl: &ImportDeclaration<'a>) {
        self.sites.push(ImportSite::ImportDeclaration {
            type_only: decl.import_kind.is_type(),
            source: decl.source.value.as_str().to_string(),
            span: span(decl.source.span),
        });
        walk_import_declaration(self, decl)
    }

    fn visit_ts_import_equals_declaration(&mut self, decl: &TSImportEqualsDeclaration<'a>) {
        let external = match &decl.module_reference {
            TSModuleReference::ExternalModuleReference(reference) => Some((
                reference.expression.value.as_str().to_string(),
                span(reference.expression.span),
            )),
            _ => None,
        };
        self.sites.push(ImportSite::ImportEqualsDeclaration {
            type_only: decl.import_kind.is_type(),
            external,
        });
        walk_ts_import_equals_declaration(self, decl)
    }

    fn visit_import_expression(&mut self, expr: &ImportExpression<'a>) {
        let source = match &expr.source {
            Expression::StringLiteral(literal) => Operand::Literal {
                value: literal.value.as_str().to_string(),
                span: span(literal.span),
            },
            other => Operand::Other {
                span: span(other.span()),
            },
        };
        self.sites.push(ImportSite::ImportExpression { source });
        walk_import_expression(self, expr)
    }

    fn visit_call_expression(&mut self, expr: &CallExpression<'a>) {
        let callee = match &expr.callee {
            Expression::Identifier(id) => Some(id.name.as_str().to_string()),
            _ => None,
        };
        let first = expr.arguments.first().map(|arg| match arg {
            Argument::StringLiteral(literal) => Operand::Literal {
                value: literal.value.as_str().to_string(),
                span: span(literal.span),
            },
            other => Operand::Other {
                span: span(other.span()),
            },
        });
        self.sites.push(ImportSite::CallExpression {
            callee,
            arguments: expr.arguments.len(),
            first,
        });
        walk_call_expression(self, expr)
    }
}

fn parse(source_type: SourceType, source: &str) -> Parsed {
    let allocator = Allocator::default();
    let parsed = Parser::new(&allocator, source, source_type).parse();
    let mut visitor = Sites { sites: Vec::new() };
    walk_program(&mut visitor, &parsed.program);
    Parsed {
        panicked: parsed.panicked,
        sites: visitor.sites,
        errors: parsed.diagnostics.into_vec(),
    }
}

fn source_text<'a>(span: &Span, source: &'a str) -> &'a str {
    &source[span.start as usize..span.end as usize]
}

const SOURCE: &str = "import 'foo';
import a from 'a';
import type b from 'b';
import c = require('c');
import type bar = require('bar');
const d = import('d');
const e = import('e' + d);
const f = require('f');
const g = require('g' + f);
";

#[test]
fn parse_imports_test_get_deps() {
    let src = SOURCE;
    // The source holds TypeScript's type-only imports, so it is parsed as a
    // TypeScript module.
    let source_type = SourceType::default()
        .with_module(true)
        .with_typescript(true);
    let imports: Imports = parse_imports(parse(source_type, src)).0;
    assert_eq!(
        imports
            .specifiers
            .iter()
            .map(|(s, _)| s.as_str())
            .collect::<Vec<_>>(),
        vec!["foo", "a", "c", "d", "f"]
    );
    assert_eq!(
        imports
            .non_literal_imports
            .iter()
            .map(|span| source_text(span, src))
            .collect::<Vec<&str>>(),
        vec!["'e' + d", "'g' + f"]
    )
}

#[test]
fn dep_test_get_deps() {
    let src = SOURCE;
    let source_type = SourceType::default()
        .with_typescript(true)
        .with_jsx(true)
        .with_module(true);
    let (deps, dynamic_import_spans) = get_deps(parse(source_type, src)).unwrap();
    assert_eq!(deps, vec!["foo", "a", "c", "d", "f"]);
    assert_eq!(
        dynamic_import_spans
            .iter()
            .map(|span| source_text(span, src))
            .collect::<Vec<&str>>(),
        vec!["'e' + d", "'g' + f"]
    )
}

#[test]
fn specifier_spans_cover_the_literals() {
    let src = "import a from './a';\nexport * from \"../b\";\n";
    let imports = parse_imports(parse(SourceType::default().with_module(true), src)).0;
    let texts: Vec<&str> = imports
        .specifiers
        .iter()
        .map(|(_, span)| source_text(span, src))
        .collect();
    assert_eq!(texts, vec!["'./a'", "\"../b\""]);
}

#[test]
fn exports_count_for_imports_but_not_for_deps() {
    let src = "export * from 'all';
export { x } from 'named';
export type * from 'type-all';
export type { T } from 'type-named';
export const y = 1;
import z from 'z';
";
    let source_type = SourceType::default()
        .with_typescript(true)
        .with_module(true);
    let imports = parse_imports(parse(source_type, src)).0;
    assert_eq!(
        imports
            .specifiers
            .iter()
            .map(|(s, _)| s.as_str())
            .collect::<Vec<_>>(),
        vec!["all", "named", "z"]
    );
    assert!(imports.non_literal_imports.is_empty());
    let (deps, dynamic) = get_deps(parse(source_type, src)).unwrap();
    assert_eq!(deps, vec!["z"]);
    assert!(dynamic.is_empty());
}

#[test]
fn nested_imports_are_found() {
    let src = "function f() { if (x) { return require('inner'); } }
const g = async () => { await import('lazy'); };
class C { m() { require(name); } }
";
    let imports = parse_imports(parse(SourceType::default().with_module(true), src)).0;
    assert_eq!(
        imports
            .specifiers
            .iter()
            .map(|(s, _)| s.as_str())
            .collect::<Vec<_>>(),
        vec!["inner", "lazy"]
    );
    assert_eq!(
        imports
            .non_literal_imports
            .iter()
            .map(|span| source_text(span, src))
            .collect::<Vec<&str>>(),
        vec!["name"]
    );
}

#[test]
fn only_calls_of_require_with_one_argument_count() {
    let sites = vec![
        ImportSite::CallExpression {
            callee: Some("require".to_string()),
            arguments: 2,
            first: Some(Operand::Literal {
                value: "two".to_string(),
                span: Span { start: 0, end: 5 },
            }),
        },
        ImportSite::CallExpression {
            callee: Some("required".to_string()),
            arguments: 1,
            first: Some(Operand::Literal {
                value: "other".to_string(),
                span: Span { start: 6, end: 9 },
            }),
        },
        ImportSite::CallExpression {
            callee: None,
            arguments: 1,
            first: Some(Operand::Literal {
                value: "member".to_string(),
                span: Span { start: 10, end: 12 },
            }),
        },
        ImportSite::CallExpression {
            callee: Some("require".to_string()),
            arguments: 0,
            first: None,
        },
        ImportSite::CallExpression {
            callee: Some("require".to_string()),
            arguments: 1,
            first: Some(Operand::Literal {
                value: "one".to_string(),
                span: Span { start: 20, end: 25 },
            }),
        },
        ImportSite::CallExpression {
            callee: Some("require".to_string()),
            arguments: 1,
            first: Some(Operand::Other {
                span: Span { start: 30, end: 33 },
            }),
        },
    ];
    let (imports, errors) = parse_imports(Parsed {
        panicked: false,
        sites,
        errors: Vec::new(),
    });
    assert!(errors.is_empty());
    assert_eq!(
        imports.specifiers,
        vec![("one".to_string(), Span { start: 20, end: 25 })]
    );
    assert_eq!(imports.non_literal_imports, vec![Span { start: 30, end: 33 }]);
}

#[test]
fn a_parse_that_gave_up_has_no_imports() {
    let sites = vec![ImportSite::ImportDeclaration {
        type_only: false,
        source: "a".to_string(),
        span: Span { start: 0, end: 3 },
    }];
    let errors = vec![oxc_diagnostics::OxcDiagnostic::error("unexpected token")];
    let (imports, diagnostics) = parse_imports(Parsed {
        panicked: true,
        sites,
        errors: errors.clone(),
    });
    assert!(imports.specifiers.is_empty());
    assert!(imports.non_literal_imports.is_empty());
    assert_eq!(diagnostics, errors);

    let sites = vec![ImportSite::ImportDeclaration {
        type_only: false,
        source: "a".to_string(),
        span: Span { start: 0, end: 3 },
    }];
    assert_eq!(
        get_deps(Parsed {
            panicked: true,
            sites,
            errors: errors.clone(),
        }),
        Err(errors)
    );
}

#[test]
fn diagnostics_come_with_the_imports() {
    let sites = vec![ImportSite::ImportDeclaration {
        type_only: false,
        source: "a".to_string(),
        span: Span { start: 0, end: 3 },
    }];
    let errors = vec![oxc_diagnostics::OxcDiagnostic::warn("odd")];
    let (imports, diagnostics) = parse_imports(Parsed {
        panicked: false,
        sites,
        errors: errors.clone(),
    });
    assert_eq!(imports.specifiers.len(), 1);
    assert_eq!(diagnostics, errors);
}
