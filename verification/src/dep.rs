//! The plain form of import extraction: the specifiers of the imports of a
//! module, without their places and without re-exports.
use crate::js_resolver::parse_imports::{extract, inspect, Extracted, Found, ImportSite, Parsed, Span};
use vstd::prelude::*;

verus! {

/// Whether the construct is a re-export.
pub open spec fn is_export(site: ImportSite) -> bool {
    match site {
        ImportSite::ExportAllDeclaration { .. } => true,
        ImportSite::ExportNamedDeclaration { .. } => true,
        _ => false,
    }
}

/// The specifiers that the imports among the constructs contribute, in
/// their order.
pub open spec fn deps_of(sites: Seq<ImportSite>) -> Seq<Seq<char>>
    decreases sites.len(),
{
    if sites.len() == 0 {
        Seq::empty()
    } else {
        match extract(sites.last()) {
            Extracted::Specifier(value, span) => if is_export(sites.last()) {
                deps_of(sites.drop_last())
            } else {
                deps_of(sites.drop_last()).push(value)
            },
            _ => deps_of(sites.drop_last()),
        }
    }
}

/// The places of the operands of imports that are no literals, in the order
/// of the constructs.
pub open spec fn dynamic_imports_of(sites: Seq<ImportSite>) -> Seq<Span>
    decreases sites.len(),
{
    if sites.len() == 0 {
        Seq::empty()
    } else {
        match extract(sites.last()) {
            Extracted::NonLiteral(span) => dynamic_imports_of(sites.drop_last()).push(span),
            _ => dynamic_imports_of(sites.drop_last()),
        }
    }
}

/// The strings as plain values.
pub open spec fn strings_view(v: Seq<String>) -> Seq<Seq<char>> {
    Seq::new(v.len(), |i: int| v[i]@)
}

/// Whether the construct is a re-export.
fn is_export_site(site: &ImportSite) -> (r: bool)
    ensures
        r == is_export(*site),
{
    match site {
        ImportSite::ExportAllDeclaration { .. } => true,
        ImportSite::ExportNamedDeclaration { .. } => true,
        _ => false,
    }
}

/// The specifiers of the value imports of a module, and where the operands
/// of its imports stand that are no literals. Re-exports are left out. When
/// the parser gave up, its diagnostics are the error.
#[verifier::rlimit(50)]
pub fn get_deps(parsed: Parsed) -> (r: Result<
    (Vec<String>, Vec<Span>),
    Vec<oxc_diagnostics::OxcDiagnostic>,
>)
    ensures
        parsed.panicked ==> r == Err::<(Vec<String>, Vec<Span>), _>(parsed.errors),
        !parsed.panicked ==> r.is_ok() && strings_view(r.unwrap().0@) == deps_of(parsed.sites@)
            && r.unwrap().1@ == dynamic_imports_of(parsed.sites@),
{
    let Parsed { panicked, sites, errors } = parsed;
    if panicked {
        return Err(errors);
    }
    let mut deps: Vec<String> = Vec::new();
    let mut dynamic_imports: Vec<Span> = Vec::new();
    let mut i: usize = 0;
    proof {
        assert(sites@.take(0) =~= Seq::<ImportSite>::empty());
        assert(strings_view(deps@) =~= Seq::empty());
    }
    while i < sites.len()
        invariant
            0 <= i <= sites@.len(),
            strings_view(deps@) == deps_of(sites@.take(i as int)),
            dynamic_imports@ == dynamic_imports_of(sites@.take(i as int)),
        decreases sites@.len() - i,
    {
        let ghost before = strings_view(deps@);
        proof {
            assert(sites@.take(i + 1).drop_last() =~= sites@.take(i as int));
            assert(sites@.take(i + 1).last() == sites@[i as int]);
        }
        match inspect(&sites[i]) {
            Found::Specifier(value, _) => {
                if !is_export_site(&sites[i]) {
                    deps.push(value);
                    proof {
                        assert(strings_view(deps@) =~= before.push(value@));
                    }
                }
            },
            Found::NonLiteral(span) => {
                dynamic_imports.push(span);
            },
            Found::Nothing => {},
        }
        i += 1;
    }
    proof {
        assert(sites@.take(sites@.len() as int) =~= sites@);
    }
    Ok((deps, dynamic_imports))
}

} // verus!
