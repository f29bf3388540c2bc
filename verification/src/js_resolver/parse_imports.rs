//! Import extraction: which of the import-like constructs of a module name
//! a dependency.
//!
//! Parsing is left to the caller, who hands over the import-like constructs
//! of the syntax tree in the order a walk of the tree meets them. What counts
//! as a specifier and what as an import that cannot be followed is decided
//! here.
use vstd::prelude::*;

verus! {

/// Makes the parser's diagnostics known to the verifier, as values that are
/// handed on unread.
#[verifier::external_type_specification]
#[verifier::external_body]
pub struct ExOxcDiagnostic(oxc_diagnostics::OxcDiagnostic);

/// A range of byte offsets into the source text of one file.
#[derive(Clone, Copy, Debug, PartialEq, Eq, Structural, Hash, PartialOrd, Ord)]
pub struct Span {
    pub start: u32,
    pub end: u32,
}

/// The operand of an `import(..)` expression or of a call of `require`.
#[derive(Debug)]
pub enum Operand {
    /// A string literal, with its value and where it stands.
    Literal { value: String, span: Span },
    /// Any other expression, with where it stands.
    Other { span: Span },
}

/// An import-like construct of a module.
#[allow(inconsistent_fields)]
#[derive(Debug)]
pub enum ImportSite {
    /// `import X from 'S'`, `import 'S'`, `import * as X from 'S'`, or the
    /// same with `import type`.
    ImportDeclaration { type_only: bool, source: String, span: Span },
    /// `export * from 'S'` or `export type * from 'S'`.
    ExportAllDeclaration { type_only: bool, source: String, span: Span },
    /// `export {..}`, with its source where it has a `from 'S'`; or the same
    /// with `export type`.
    ExportNamedDeclaration { type_only: bool, source: Option<(String, Span)> },
    /// `import X = ..`, with the specifier where the right-hand side is
    /// `require('S')`; or the same with `import type`.
    ImportEqualsDeclaration { type_only: bool, external: Option<(String, Span)> },
    /// `import(..)`.
    ImportExpression { source: Operand },
    /// A call: the name of the callee where the callee is an identifier, the
    /// number of arguments, and the first argument if there is one.
    CallExpression { callee: Option<String>, arguments: usize, first: Option<Operand> },
}

/// What a parse of one file gave: whether the parser gave up, the
/// import-like constructs in the order a walk of the tree meets them, and
/// the parser's diagnostics.
pub struct Parsed {
    pub panicked: bool,
    pub sites: Vec<ImportSite>,
    pub errors: Vec<oxc_diagnostics::OxcDiagnostic>,
}

/// The imports of one file.
pub struct Imports {
    /// The specifiers of the value imports, each with where it stands.
    pub specifiers: Vec<(String, Span)>,
    /// Where the operands of imports stand that are no string literals.
    pub non_literal_imports: Vec<Span>,
}

/// What one import-like construct contributes.
pub enum Extracted {
    Specifier(Seq<char>, Span),
    NonLiteral(Span),
    Nothing,
}

/// What an operand contributes: a literal its value, anything else the place
/// where it stands.
pub open spec fn operand_extract(operand: Operand) -> Extracted {
    match operand {
        Operand::Literal { value, span } => Extracted::Specifier(value@, span),
        Operand::Other { span } => Extracted::NonLiteral(span),
    }
}

/// The name by which a call of `require` is known. Only the name counts:
/// what the identifier is bound to is not looked at.
pub open spec fn require_name() -> Seq<char> {
    seq!['r', 'e', 'q', 'u', 'i', 'r', 'e']
}

/// The rules of extraction. Type-only imports and exports contribute
/// nothing. A value import or re-export contributes its specifier. An
/// `import(..)` and a call of `require` with exactly one argument contribute
/// what their operand contributes. Every other call contributes nothing.
pub open spec fn extract(site: ImportSite) -> Extracted {
    match site {
        ImportSite::ImportDeclaration { type_only, source, span } => if type_only {
            Extracted::Nothing
        } else {
            Extracted::Specifier(source@, span)
        },
        ImportSite::ExportAllDeclaration { type_only, source, span } => if type_only {
            Extracted::Nothing
        } else {
            Extracted::Specifier(source@, span)
        },
        ImportSite::ExportNamedDeclaration { type_only, source } => match source {
            Some(from) => if type_only {
                Extracted::Nothing
            } else {
                Extracted::Specifier(from.0@, from.1)
            },
            None => Extracted::Nothing,
        },
        ImportSite::ImportEqualsDeclaration { type_only, external } => match external {
            Some(from) => if type_only {
                Extracted::Nothing
            } else {
                Extracted::Specifier(from.0@, from.1)
            },
            None => Extracted::Nothing,
        },
        ImportSite::ImportExpression { source } => operand_extract(source),
        ImportSite::CallExpression { callee, arguments, first } => match (callee, first) {
            (Some(name), Some(operand)) => if arguments == 1 && name@ == require_name() {
                operand_extract(operand)
            } else {
                Extracted::Nothing
            },
            _ => Extracted::Nothing,
        },
    }
}

/// The specifiers that the constructs contribute, in their order.
pub open spec fn specifiers_of(sites: Seq<ImportSite>) -> Seq<(Seq<char>, Span)>
    decreases sites.len(),
{
    if sites.len() == 0 {
        Seq::empty()
    } else {
        match extract(sites.last()) {
            Extracted::Specifier(value, span) => specifiers_of(sites.drop_last()).push(
                (value, span),
            ),
            _ => specifiers_of(sites.drop_last()),
        }
    }
}

/// The places of the operands that are no literals, in the order of the
/// constructs.
pub open spec fn non_literals_of(sites: Seq<ImportSite>) -> Seq<Span>
    decreases sites.len(),
{
    if sites.len() == 0 {
        Seq::empty()
    } else {
        match extract(sites.last()) {
            Extracted::NonLiteral(span) => non_literals_of(sites.drop_last()).push(span),
            _ => non_literals_of(sites.drop_last()),
        }
    }
}

impl Imports {
    /// The specifiers as plain values.
    pub open spec fn specifiers_view(self) -> Seq<(Seq<char>, Span)> {
        Seq::new(self.specifiers@.len(), |i: int| (self.specifiers@[i].0@, self.specifiers@[i].1))
    }

    /// No imports at all.
    pub fn new() -> (r: Self)
        ensures
            r.specifiers@.len() == 0,
            r.non_literal_imports@.len() == 0,
    {
        Imports { specifiers: Vec::new(), non_literal_imports: Vec::new() }
    }
}

/// What follows from one construct, ready to be stored.
pub(crate) enum Found {
    Specifier(String, Span),
    NonLiteral(Span),
    Nothing,
}

impl Found {
    /// What was found, as plain values.
    pub(crate) open spec fn model(self) -> Extracted {
        match self {
            Found::Specifier(value, span) => Extracted::Specifier(value@, span),
            Found::NonLiteral(span) => Extracted::NonLiteral(span),
            Found::Nothing => Extracted::Nothing,
        }
    }
}

/// What an operand contributes, ready to be stored.
fn inspect_operand(operand: &Operand) -> (r: Found)
    ensures
        r.model() == operand_extract(*operand),
{
    match operand {
        Operand::Literal { value, span } => Found::Specifier(value.clone(), *span),
        Operand::Other { span } => Found::NonLiteral(*span),
    }
}

/// Applies the rules of extraction to one construct.
pub(crate) fn inspect(site: &ImportSite) -> (r: Found)
    ensures
        r.model() == extract(*site),
{
    match site {
        ImportSite::ImportDeclaration { type_only, source, span } => {
            if *type_only {
                Found::Nothing
            } else {
                Found::Specifier(source.clone(), *span)
            }
        },
        ImportSite::ExportAllDeclaration { type_only, source, span } => {
            if *type_only {
                Found::Nothing
            } else {
                Found::Specifier(source.clone(), *span)
            }
        },
        ImportSite::ExportNamedDeclaration { type_only, source } => {
            match source {
                Some(from) => {
                    if *type_only {
                        Found::Nothing
                    } else {
                        Found::Specifier(from.0.clone(), from.1)
                    }
                },
                None => Found::Nothing,
            }
        },
        ImportSite::ImportEqualsDeclaration { type_only, external } => {
            match external {
                Some(from) => {
                    if *type_only {
                        Found::Nothing
                    } else {
                        Found::Specifier(from.0.clone(), from.1)
                    }
                },
                None => Found::Nothing,
            }
        },
        ImportSite::ImportExpression { source } => inspect_operand(source),
        ImportSite::CallExpression { callee, arguments, first } => {
            match callee {
                Some(name) => {
                    match first {
                        Some(operand) => {
                            let require = "require".to_owned();
                            proof {
                                reveal_strlit("require");
                                assert(require@ =~= require_name());
                            }
                            if *arguments == 1 && *name == require {
                                inspect_operand(operand)
                            } else {
                                Found::Nothing
                            }
                        },
                        None => Found::Nothing,
                    }
                },
                None => Found::Nothing,
            }
        },
    }
}

/// Extracts the imports of one file from what its parse gave. When the
/// parser gave up there are no imports; in either case the diagnostics are
/// handed on as they came.
#[verifier::rlimit(50)]
pub fn parse_imports(parsed: Parsed) -> (r: (Imports, Vec<oxc_diagnostics::OxcDiagnostic>))
    ensures
        r.1 == parsed.errors,
        parsed.panicked ==> r.0.specifiers@.len() == 0 && r.0.non_literal_imports@.len() == 0,
        !parsed.panicked ==> r.0.specifiers_view() == specifiers_of(parsed.sites@)
            && r.0.non_literal_imports@ == non_literals_of(parsed.sites@),
{
    let Parsed { panicked, sites, errors } = parsed;
    if panicked {
        return (Imports::new(), errors);
    }
    let mut imports = Imports::new();
    let mut i: usize = 0;
    proof {
        assert(sites@.take(0) =~= Seq::<ImportSite>::empty());
        assert(imports.specifiers_view() =~= Seq::empty());
    }
    while i < sites.len()
        invariant
            0 <= i <= sites@.len(),
            imports.specifiers_view() == specifiers_of(sites@.take(i as int)),
            imports.non_literal_imports@ == non_literals_of(sites@.take(i as int)),
        decreases sites@.len() - i,
    {
        let ghost before = imports.specifiers_view();
        proof {
            assert(sites@.take(i + 1).drop_last() =~= sites@.take(i as int));
            assert(sites@.take(i + 1).last() == sites@[i as int]);
        }
        match inspect(&sites[i]) {
            Found::Specifier(value, span) => {
                imports.specifiers.push((value, span));
                proof {
                    assert(imports.specifiers_view() =~= before.push((value@, span)));
                }
            },
            Found::NonLiteral(span) => {
                imports.non_literal_imports.push(span);
            },
            Found::Nothing => {},
        }
        i += 1;
    }
    proof {
        assert(sites@.take(sites@.len() as int) =~= sites@);
    }
    (imports, errors)
}

} // verus!
