//! Dependency discovery for JavaScript and TypeScript files.
//!
//! Discovering what a file depends on takes reading it, parsing it and
//! resolving its specifiers, which are the caller's part. What lies between
//! is decided here: which specifiers are resolved at all
//! (`specifiers_to_resolve`), which resolved files count as dependencies and
//! what is reported as an error (`discovered`).
pub mod parse_imports;
pub mod span_list;

use crate::collect_deps::insert_paths;
use crate::hash::PathIndex;
use crate::js_resolver::parse_imports::{Imports, Span};
use crate::js_resolver::span_list::SpanList;
use crate::sequence::reversed;
use vstd::prelude::*;
use vstd::string::StrSliceExecFns;

verus! {

/// Makes the error of a failed read known to the verifier, as a value that
/// is handed on unread.
#[verifier::external_type_specification]
#[verifier::external_body]
pub struct ExIoError(std::io::Error);

/// Makes the resolver's error known to the verifier, as a value that is
/// handed on unread.
#[verifier::external_type_specification]
#[verifier::external_body]
pub struct ExResolveError(oxc_resolver::ResolveError);

/// What went wrong with one file. Neither kind stops a crawl.
pub enum JsDiscoverDependencyError {
    /// The file could not be read.
    FileReadError(std::io::Error),
    /// The file was read, but not everything in it could be followed.
    ParseOrResolveError {
        parse_errors: Vec<oxc_diagnostics::OxcDiagnostic>,
        resolve_errors: Vec<(oxc_resolver::ResolveError, Span)>,
        non_literal_imports: Vec<Span>,
    },
}

/// The first component of the specifier, read as a path, is `.` or `..`.
pub open spec fn is_relative(s: Seq<char>) -> bool {
    ||| s.len() == 1 && s[0] == '.'
    ||| s.len() == 2 && s[0] == '.' && s[1] == '.'
    ||| s.len() >= 2 && s[0] == '.' && s[1] == '/'
    ||| s.len() >= 3 && s[0] == '.' && s[1] == '.' && s[2] == '/'
}

/// The path ends in `.js`, `.ts`, `.jsx` or `.tsx`, in these very letters,
/// and its file name has at least one character before that dot.
pub open spec fn has_script_extension(p: Seq<char>) -> bool {
    let n = p.len() as int;
    ||| n >= 4 && p[n - 4] != '/' && p[n - 3] == '.' && (p[n - 2] == 'j' || p[n - 2] == 't')
        && p[n - 1] == 's'
    ||| n >= 5 && p[n - 5] != '/' && p[n - 4] == '.' && (p[n - 3] == 'j' || p[n - 3] == 't')
        && p[n - 2] == 's' && p[n - 1] == 'x'
}

/// Whether a specifier is relative and so to be resolved. Bare and absolute
/// specifiers are not followed.
pub fn is_relative_specifier(specifier: &str) -> (r: bool)
    ensures
        r == is_relative(specifier@),
{
    let n = specifier.unicode_len();
    if n == 0 {
        return false;
    }
    if specifier.get_char(0) != '.' {
        return false;
    }
    if n == 1 {
        return true;
    }
    let second = specifier.get_char(1);
    if second == '/' {
        return true;
    }
    if second != '.' {
        return false;
    }
    if n == 2 {
        return true;
    }
    specifier.get_char(2) == '/'
}

/// Whether a resolved file is a script by its extension.
pub fn is_script_path(path: &str) -> (r: bool)
    ensures
        r == has_script_extension(path@),
{
    let n = path.unicode_len();
    if n < 4 {
        return false;
    }
    let last = path.get_char(n - 1);
    let c2 = path.get_char(n - 2);
    let c3 = path.get_char(n - 3);
    let c4 = path.get_char(n - 4);
    if last == 's' {
        c4 != '/' && c3 == '.' && (c2 == 'j' || c2 == 't')
    } else if last == 'x' {
        if n < 5 {
            return false;
        }
        let c5 = path.get_char(n - 5);
        c5 != '/' && c4 == '.' && (c3 == 'j' || c3 == 't') && c2 == 's'
    } else {
        false
    }
}

/// The relative ones among the specifiers, in their order.
pub open spec fn relative_of(specifiers: Seq<(Seq<char>, Span)>) -> Seq<(Seq<char>, Span)>
    decreases specifiers.len(),
{
    if specifiers.len() == 0 {
        Seq::empty()
    } else if is_relative(specifiers.last().0) {
        relative_of(specifiers.drop_last()).push(specifiers.last())
    } else {
        relative_of(specifiers.drop_last())
    }
}

/// Pairs of a string and a span as plain values.
pub open spec fn pairs_view(v: Seq<(String, Span)>) -> Seq<(Seq<char>, Span)> {
    Seq::new(v.len(), |i: int| (v[i].0@, v[i].1))
}

/// The specifiers of `imports` that are to be resolved: the relative ones,
/// in their order, each with where it stands.
#[verifier::rlimit(50)]
pub fn specifiers_to_resolve(imports: &Imports) -> (r: Vec<(String, Span)>)
    ensures
        pairs_view(r@) == relative_of(imports.specifiers_view()),
{
    let mut out: Vec<(String, Span)> = Vec::new();
    let ghost all = imports.specifiers_view();
    let mut i: usize = 0;
    proof {
        assert(all.take(0) =~= Seq::empty());
        assert(pairs_view(out@) =~= Seq::empty());
    }
    while i < imports.specifiers.len()
        invariant
            0 <= i <= imports.specifiers@.len(),
            all == imports.specifiers_view(),
            pairs_view(out@) == relative_of(all.take(i as int)),
        decreases imports.specifiers@.len() - i,
    {
        let ghost before = pairs_view(out@);
        proof {
            assert(all.take(i + 1).drop_last() =~= all.take(i as int));
            assert(all.take(i + 1).last() == all[i as int]);
        }
        let span = imports.specifiers[i].1;
        if is_relative_specifier(imports.specifiers[i].0.as_str()) {
            out.push((imports.specifiers[i].0.clone(), span));
            proof {
                assert(pairs_view(out@) =~= before.push(all[i as int]));
            }
        }
        i += 1;
    }
    proof {
        assert(all.take(all.len() as int) =~= all);
    }
    out
}

/// What resolving one specifier gave, with where the specifier stands.
pub struct Resolution {
    pub outcome: Result<String, oxc_resolver::ResolveError>,
    pub span: Span,
}

/// The resolved files that count as dependencies, each with where its
/// specifier stands, in the order of the resolutions: those that resolved
/// to a script.
pub open spec fn accepted_of(resolutions: Seq<Resolution>) -> Seq<(Seq<char>, Span)>
    decreases resolutions.len(),
{
    if resolutions.len() == 0 {
        Seq::empty()
    } else {
        let rest = accepted_of(resolutions.drop_last());
        match resolutions.last().outcome {
            Ok(path) => if has_script_extension(path@) {
                rest.push((path@, resolutions.last().span))
            } else {
                rest
            },
            Err(_) => rest,
        }
    }
}

/// The failures among the resolutions, each with where its specifier
/// stands, in the order of the resolutions.
pub open spec fn failures_of(resolutions: Seq<Resolution>) -> Seq<
    (oxc_resolver::ResolveError, Span),
>
    decreases resolutions.len(),
{
    if resolutions.len() == 0 {
        Seq::empty()
    } else {
        let rest = failures_of(resolutions.drop_last());
        match resolutions.last().outcome {
            Ok(_) => rest,
            Err(e) => rest.push((e, resolutions.last().span)),
        }
    }
}

/// The spans that go with `path`, in their order.
pub open spec fn spans_of(accepted: Seq<(Seq<char>, Span)>, path: Seq<char>) -> Seq<Span>
    decreases accepted.len(),
{
    if accepted.len() == 0 {
        Seq::empty()
    } else if accepted.last().0 == path {
        spans_of(accepted.drop_last(), path).push(accepted.last().1)
    } else {
        spans_of(accepted.drop_last(), path)
    }
}

/// The paths of the pairs, in their order.
pub open spec fn paths_of(accepted: Seq<(Seq<char>, Span)>) -> Seq<Seq<char>> {
    Seq::new(accepted.len(), |i: int| accepted[i].0)
}

/// `groups` holds one entry for each different path of `accepted`, in the
/// order in which the paths first occur, each with all the spans of that
/// path in their order.
pub open spec fn is_grouping(
    accepted: Seq<(Seq<char>, Span)>,
    groups: Seq<(String, SpanList)>,
) -> bool {
    let distinct = insert_paths(Seq::empty(), paths_of(accepted));
    &&& groups.len() == distinct.len()
    &&& forall|k: int|
        0 <= k < groups.len() ==> (#[trigger] groups[k]).0@ == distinct[k] && groups[k].1@
            == spans_of(accepted, distinct[k])
}

/// A path that does not occur has no spans.
proof fn lemma_spans_of_absent(accepted: Seq<(Seq<char>, Span)>, path: Seq<char>)
    requires
        forall|i: int| 0 <= i < accepted.len() ==> (#[trigger] accepted[i]).0 != path,
    ensures
        spans_of(accepted, path) == Seq::<Span>::empty(),
    decreases accepted.len(),
{
    if accepted.len() > 0 {
        assert(accepted[accepted.len() - 1].0 != path);
        assert forall|i: int| 0 <= i < accepted.drop_last().len() implies (
        #[trigger] accepted.drop_last()[i]).0 != path by {
            assert(accepted.drop_last()[i] == accepted[i]);
        }
        lemma_spans_of_absent(accepted.drop_last(), path);
    }
}

/// A path that occurs has at least one span.
proof fn lemma_spans_of_present(accepted: Seq<(Seq<char>, Span)>, path: Seq<char>)
    requires
        paths_of(accepted).contains(path),
    ensures
        spans_of(accepted, path).len() > 0,
    decreases accepted.len(),
{
    let paths = paths_of(accepted);
    let i = choose|i: int| 0 <= i < paths.len() && paths[i] == path;
    assert(accepted[i].0 == path);
    if accepted.last().0 != path {
        assert(i < accepted.len() - 1);
        assert(paths_of(accepted.drop_last())[i] == path);
        lemma_spans_of_present(accepted.drop_last(), path);
    }
}

/// Every entry of a grouping holds at least one span.
pub proof fn lemma_grouping_nonempty(
    accepted: Seq<(Seq<char>, Span)>,
    groups: Seq<(String, SpanList)>,
)
    requires
        is_grouping(accepted, groups),
    ensures
        forall|k: int| 0 <= k < groups.len() ==> (#[trigger] groups[k]).1@.len() > 0,
{
    let distinct = insert_paths(Seq::empty(), paths_of(accepted));
    crate::crawl_laws::lemma_insert_paths_members(Seq::empty(), paths_of(accepted));
    assert forall|k: int| 0 <= k < groups.len() implies (#[trigger] groups[k]).1@.len() > 0 by {
        assert(distinct.contains(distinct[k]));
        lemma_spans_of_present(accepted, distinct[k]);
    }
}

/// Gathers, for each different path, the spans that go with it.
#[verifier::rlimit(50)]
pub fn group_spans(accepted: Vec<(String, Span)>) -> (r: Vec<(String, SpanList)>)
    requires
        accepted@.len() <= u32::MAX,
    ensures
        is_grouping(pairs_view(accepted@), r@),
        forall|k: int| 0 <= k < r@.len() ==> (#[trigger] r@[k]).1@.len() > 0,
{
    let ghost all = pairs_view(accepted@);
    let mut spans_by_dep: Vec<(String, SpanList)> = Vec::new();
    let mut position = PathIndex::new();
    let mut i: usize = 0;
    proof {
        assert(all.take(0) =~= Seq::empty());
        assert(paths_of(all.take(0)) =~= Seq::empty());
    }
    while i < accepted.len()
        invariant
            0 <= i <= accepted@.len() <= u32::MAX,
            all == pairs_view(accepted@),
            is_grouping(all.take(i as int), spans_by_dep@),
            forall|k: int|
                0 <= k < spans_by_dep@.len() ==> position@.contains_key(
                    (#[trigger] spans_by_dep@[k]).0@,
                ) && position@[spans_by_dep@[k].0@] == k,
            forall|p: Seq<char>| #[trigger]
                position@.contains_key(p) ==> position@[p] < spans_by_dep@.len()
                    && spans_by_dep@[position@[p] as int].0@ == p,
            spans_by_dep@.len() <= i,
        decreases accepted@.len() - i,
    {
        let ghost seen = all.take(i as int);
        let ghost next = all.take(i + 1);
        let ghost old_groups = spans_by_dep@;
        let ghost old_position = position@;
        let ghost distinct = insert_paths(Seq::empty(), paths_of(seen));
        let span = accepted[i].1;
        let ghost path = accepted@[i as int].0@;
        proof {
            assert(next.drop_last() =~= seen);
            assert(next.last() == all[i as int]);
            assert(all[i as int] == (path, span));
            assert(paths_of(next).drop_last() =~= paths_of(seen));
            assert(paths_of(next).last() == path);
            crate::collect_deps::lemma_insert_paths_extends(Seq::empty(), paths_of(seen));
            if distinct.contains(path) {
                let k = choose|k: int| 0 <= k < distinct.len() && distinct[k] == path;
                assert(old_groups[k].0@ == path);
            }
            if old_position.contains_key(path) {
                assert(distinct[old_position[path] as int] == path);
            }
            assert forall|q: Seq<char>| #[trigger]
                spans_of(next, q) == (if q == path {
                    spans_of(seen, q).push(span)
                } else {
                    spans_of(seen, q)
                }) by {}
        }
        match position.get(accepted[i].0.as_str()) {
            Some(k) => {
                spans_by_dep[k as usize].1.push(span);
                proof {
                    let groups = spans_by_dep@;
                    assert(insert_paths(Seq::empty(), paths_of(next)) == distinct);
                    assert forall|j: int| 0 <= j < groups.len() implies (#[trigger] groups[j]).0@
                        == distinct[j] && groups[j].1@ == spans_of(next, distinct[j]) by {
                        if j != k {
                            assert(groups[j] == old_groups[j]);
                            assert(old_groups[j].0@ != path);
                        }
                    }
                    assert forall|j: int| 0 <= j < groups.len() implies position@.contains_key(
                        (#[trigger] groups[j]).0@,
                    ) && position@[groups[j].0@] == j by {
                        assert(groups[j].0@ == old_groups[j].0@);
                    }
                }
            },
            None => {
                let mut spans = SpanList::new();
                spans.push(span);
                position.insert(accepted[i].0.clone(), spans_by_dep.len() as u32);
                spans_by_dep.push((accepted[i].0.clone(), spans));
                proof {
                    let groups = spans_by_dep@;
                    assert(insert_paths(Seq::empty(), paths_of(next)) == distinct.push(path));
                    assert forall|j: int| 0 <= j < seen.len() implies (#[trigger] seen[j]).0
                        != path by {
                        assert(paths_of(seen)[j] == seen[j].0);
                        assert(distinct.contains(paths_of(seen)[j]));
                    }
                    lemma_spans_of_absent(seen, path);
                    assert(spans@ =~= Seq::<Span>::empty().push(span));
                    assert forall|j: int| 0 <= j < groups.len() implies (#[trigger] groups[j]).0@
                        == distinct.push(path)[j] && groups[j].1@ == spans_of(
                        next,
                        distinct.push(path)[j],
                    ) by {
                        if j < old_groups.len() {
                            assert(groups[j] == old_groups[j]);
                            assert(old_position.contains_key(old_groups[j].0@));
                        }
                    }
                    assert forall|j: int| 0 <= j < groups.len() implies position@.contains_key(
                        (#[trigger] groups[j]).0@,
                    ) && position@[groups[j].0@] == j by {
                        if j < old_groups.len() {
                            assert(groups[j] == old_groups[j]);
                            assert(old_position.contains_key(old_groups[j].0@));
                        }
                    }
                    assert forall|p: Seq<char>| #[trigger]
                        position@.contains_key(p) implies position@[p] < groups.len()
                        && groups[position@[p] as int].0@ == p by {
                        if p != path {
                            assert(old_position.contains_key(p));
                            assert(groups[old_position[p] as int] == old_groups[old_position[p] as int]);
                        }
                    }
                }
            },
        }
        i += 1;
    }
    proof {
        assert(all.take(all.len() as int) =~= all);
        lemma_grouping_nonempty(all, spans_by_dep@);
    }
    spans_by_dep
}

/// The outcome of discovering a file that was read and parsed.
///
/// Every resolution that led to a script is a dependency; a file that was
/// reached from several places is one dependency with all those places, so
/// every dependency has at least one place. An
/// error is reported exactly when the parser had something to say, a
/// specifier could not be resolved, or an import could not be followed
/// because its operand is no literal; it then holds all of these.
#[verifier::rlimit(50)]
pub fn discovered(
    resolutions: Vec<Resolution>,
    parse_errors: Vec<oxc_diagnostics::OxcDiagnostic>,
    non_literal_imports: Vec<Span>,
) -> (r: (Vec<(String, SpanList)>, Option<JsDiscoverDependencyError>))
    requires
        resolutions@.len() <= u32::MAX,
    ensures
        is_grouping(accepted_of(resolutions@), r.0@),
        forall|k: int| 0 <= k < r.0@.len() ==> (#[trigger] r.0@[k]).1@.len() > 0,
        r.1.is_none() <==> parse_errors@.len() == 0 && failures_of(resolutions@).len() == 0
            && non_literal_imports@.len() == 0,
        match r.1 {
            Some(JsDiscoverDependencyError::ParseOrResolveError {
                parse_errors: p,
                resolve_errors: f,
                non_literal_imports: n,
            }) => p == parse_errors && f@ == failures_of(resolutions@) && n == non_literal_imports,
            Some(JsDiscoverDependencyError::FileReadError(_)) => false,
            None => true,
        },
{
    let ghost all = resolutions@;
    let count = resolutions.len();
    let mut rest = reversed(resolutions);
    let mut accepted: Vec<(String, Span)> = Vec::new();
    let mut resolve_errors: Vec<(oxc_resolver::ResolveError, Span)> = Vec::new();
    let mut done: usize = 0;
    proof {
        assert(all.take(0) =~= Seq::empty());
        assert(pairs_view(accepted@) =~= Seq::empty());
    }
    while rest.len() > 0
        invariant
            0 <= done <= count <= u32::MAX,
            all.len() == count,
            rest@.len() + done == count,
            forall|i: int| 0 <= i < rest@.len() ==> #[trigger] rest@[i] == all[count - 1 - i],
            pairs_view(accepted@) == accepted_of(all.take(done as int)),
            resolve_errors@ == failures_of(all.take(done as int)),
            accepted@.len() <= done,
        decreases rest@.len(),
    {
        let Resolution { outcome, span } = rest.pop().unwrap();
        let ghost before = pairs_view(accepted@);
        proof {
            assert(all.take(done + 1).drop_last() =~= all.take(done as int));
            assert(all.take(done + 1).last() == all[done as int]);
        }
        match outcome {
            Ok(resolved_path) => {
                if is_script_path(resolved_path.as_str()) {
                    accepted.push((resolved_path, span));
                    proof {
                        assert(pairs_view(accepted@) =~= before.push((resolved_path@, span)));
                    }
                }
            },
            Err(err) => {
                resolve_errors.push((err, span));
            },
        }
        done += 1;
    }
    proof {
        assert(all.take(count as int) =~= all);
    }
    let error = if parse_errors.len() == 0 && resolve_errors.len() == 0
        && non_literal_imports.len() == 0 {
        None
    } else {
        Some(
            JsDiscoverDependencyError::ParseOrResolveError {
                parse_errors,
                resolve_errors,
                non_literal_imports,
            },
        )
    };
    (group_spans(accepted), error)
}

/// What follows the attempt to read a file. When the file was read, its
/// text, which goes on to the parser. When it was not, the outcome of the
/// discovery: no dependencies and the failure, handed on as it came, as the
/// error; neither the parser nor the resolver is asked then.
pub fn after_read(read: Result<String, std::io::Error>) -> (r: Result<
    String,
    (Vec<(String, SpanList)>, Option<JsDiscoverDependencyError>),
>)
    ensures
        match read {
            Ok(source) => r == Ok::<
                String,
                (Vec<(String, SpanList)>, Option<JsDiscoverDependencyError>),
            >(source),
            Err(err) => r matches Err(outcome) && outcome.0@.len() == 0 && outcome.1 == Some(
                JsDiscoverDependencyError::FileReadError(err),
            ),
        },
{
    match read {
        Ok(source) => Ok(source),
        Err(err) => Err(unreadable(err)),
    }
}

/// The outcome of discovering a file that could not be read: no
/// dependencies, and the failure as the error.
pub fn unreadable(err: std::io::Error) -> (r: (
    Vec<(String, SpanList)>,
    Option<JsDiscoverDependencyError>,
))
    ensures
        r.0@.len() == 0,
        r.1 == Some(JsDiscoverDependencyError::FileReadError(err)),
{
    (Vec::new(), Some(JsDiscoverDependencyError::FileReadError(err)))
}

} // verus!
