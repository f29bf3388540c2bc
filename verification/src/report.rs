//! The report of a run: the import edges that lie on a cycle, each as a pair
//! of paths relative to the project root, in the order of the paths.
use crate::dep_graph::borrowed_pairs_view;
use crate::path_pairs_view;
use vstd::prelude::*;

verus! {

/// `path` as it is written relative to the directory `base`, where it can be
/// written so.
pub uninterp spec fn relative_form(path: Seq<char>, base: Seq<char>) -> Option<Seq<char>>;

/// The pairs in the order of their paths, which are compared component by
/// component, the first path of a pair before the second.
pub uninterp spec fn in_path_order(pairs: Seq<(Seq<char>, Seq<char>)>) -> Seq<(Seq<char>, Seq<char>)>;

/// `pathdiff::diff_paths`: the relative path that leads from `base` to
/// `path`, as text. It is a function of the two paths alone: the file system
/// is not asked. There is none when `base` is absolute and `path` is not, or
/// when `base` steps up where `path` does not.
#[verifier::external_body]
fn relative_to(path: &str, base: &str) -> (r: Option<String>)
    ensures
        r.is_some() == relative_form(path@, base@).is_some(),
        r.is_some() ==> r.unwrap()@ == relative_form(path@, base@).unwrap(),
{
    match pathdiff::diff_paths(path, base) {
        Some(relative) => relative.into_os_string().into_string().ok(),
        None => None,
    }
}

/// `slice::sort_unstable` on the pairs taken as pairs of
/// `camino::Utf8Path`: the same pairs, each as often as before, in the order
/// of their paths.
#[verifier::external_body]
fn sort_by_path(pairs: Vec<(String, String)>) -> (r: Vec<(String, String)>)
    ensures
        path_pairs_view(r@) == in_path_order(path_pairs_view(pairs@)),
        path_pairs_view(r@).to_multiset() == path_pairs_view(pairs@).to_multiset(),
{
    let mut keyed: Vec<(&camino::Utf8Path, &camino::Utf8Path)> =
        pairs.iter().map(|p| (camino::Utf8Path::new(&p.0), camino::Utf8Path::new(&p.1))).collect();
    keyed.sort_unstable();
    keyed.into_iter().map(|(from, to)| (from.as_str().to_owned(), to.as_str().to_owned())).collect()
}

/// Every path of every pair can be written relative to `base`.
pub open spec fn all_relative(pairs: Seq<(Seq<char>, Seq<char>)>, base: Seq<char>) -> bool {
    forall|i: int|
        0 <= i < pairs.len() ==> relative_form((#[trigger] pairs[i]).0, base).is_some()
            && relative_form(pairs[i].1, base).is_some()
}

/// The pairs with each path written relative to `base`.
pub open spec fn relative_pairs(pairs: Seq<(Seq<char>, Seq<char>)>, base: Seq<char>) -> Seq<
    (Seq<char>, Seq<char>),
> {
    Seq::new(
        pairs.len(),
        |i: int|
            (relative_form(pairs[i].0, base).unwrap(), relative_form(pairs[i].1, base).unwrap()),
    )
}

/// What is written out for `pairs`: the pairs relative to `base`, in the
/// order of their paths; nothing when a path cannot be written relative to
/// `base`.
pub open spec fn snapshot_of(pairs: Seq<(Seq<char>, Seq<char>)>, base: Seq<char>) -> Option<
    Seq<(Seq<char>, Seq<char>)>,
> {
    if all_relative(pairs, base) {
        Some(in_path_order(relative_pairs(pairs, base)))
    } else {
        None
    }
}

/// The pairs as they are written out: each path relative to `cwd`, the
/// pairs in the order of their paths, each pair as often as it came in.
/// Returns `None` when one of the paths cannot be written relative to `cwd`.
pub fn snapshot(pairs: &Vec<(&String, &String)>, cwd: &str) -> (r: Option<Vec<(String, String)>>)
    ensures
        match r {
            Some(out) => snapshot_of(borrowed_pairs_view(pairs@), cwd@) == Some(path_pairs_view(out@))
                && path_pairs_view(out@).to_multiset() == relative_pairs(
                borrowed_pairs_view(pairs@),
                cwd@,
            ).to_multiset(),
            None => snapshot_of(borrowed_pairs_view(pairs@), cwd@).is_none(),
        },
{
    let ghost given = borrowed_pairs_view(pairs@);
    let mut relative: Vec<(String, String)> = Vec::with_capacity(pairs.len());
    let mut i: usize = 0;
    while i < pairs.len()
        invariant
            0 <= i <= pairs@.len(),
            given == borrowed_pairs_view(pairs@),
            relative@.len() == i,
            forall|k: int|
                0 <= k < i ==> relative_form((#[trigger] given[k]).0, cwd@).is_some()
                    && relative_form(given[k].1, cwd@).is_some(),
            forall|k: int|
                0 <= k < i ==> (#[trigger] relative@[k]).0@ == relative_form(given[k].0, cwd@).unwrap()
                    && relative@[k].1@ == relative_form(given[k].1, cwd@).unwrap(),
        decreases pairs@.len() - i,
    {
        let (from, to) = pairs[i];
        proof {
            assert(given[i as int] == (from@, to@));
        }
        let from_relative = match relative_to(from.as_str(), cwd) {
            Some(path) => path,
            None => {
                return None;
            },
        };
        let to_relative = match relative_to(to.as_str(), cwd) {
            Some(path) => path,
            None => {
                return None;
            },
        };
        relative.push((from_relative, to_relative));
        i += 1;
    }
    proof {
        assert(path_pairs_view(relative@) =~= relative_pairs(given, cwd@));
    }
    Some(sort_by_path(relative))
}

} // verus!
