//! What every crawl builds, in whatever order the results come in.
//!
//! A crawl with workers folds results in as they arrive, so two crawls of the
//! same files may number the nodes and order the edges differently. This
//! file shows that they agree on everything else: with a discoverer that
//! gives one answer for each file, every complete crawl ends with the files
//! that can be reached from the entries as its nodes, with the edges that the
//! answers for those files name, and with the errors of those answers.
use crate::collect_deps::{
    answers_in_order, crawl_after, insert_path, insert_paths, is_crawl_in_order, lemma_answer_at,
    lemma_insert_paths_extends, lemma_sent_paths_len, sent_paths, CrawlModel, DiscoverDependency,
    ResultModel,
};
use vstd::prelude::*;

verus! {

/// The one answer for each path.
pub type Answer<Edge, Error> = spec_fn(Seq<char>) -> ResultModel<Edge, Error>;

/// Every answer is about the path it was asked for and gives each
/// dependency one weight.
pub open spec fn answers_ok<Edge, Error>(answer: Answer<Edge, Error>) -> bool {
    forall|p: Seq<char>|
        (#[trigger] answer(p)).path == p && answer(p).dep_paths.len() == answer(p).dep_weights.len()
}

/// A chain of dependencies that starts at an entry.
pub open spec fn is_chain<Edge, Error>(
    answer: Answer<Edge, Error>,
    entries: Seq<Seq<char>>,
    chain: Seq<Seq<char>>,
) -> bool {
    &&& chain.len() > 0
    &&& entries.contains(chain[0])
    &&& forall|i: int|
        0 <= i < chain.len() - 1 ==> answer(#[trigger] chain[i]).dep_paths.contains(chain[i + 1])
}

/// `p` is an entry or a dependency, however indirect, of one.
pub open spec fn reachable<Edge, Error>(
    answer: Answer<Edge, Error>,
    entries: Seq<Seq<char>>,
    p: Seq<char>,
) -> bool {
    exists|chain: Seq<Seq<char>>| #[trigger] is_chain(answer, entries, chain) && chain.last() == p
}

/// `p` is reached from an entry other than `e`: it is such an entry or a
/// dependency, however indirect, of one.
pub open spec fn reached_beside<Edge, Error>(
    answer: Answer<Edge, Error>,
    entries: Seq<Seq<char>>,
    e: Seq<char>,
    p: Seq<char>,
) -> bool {
    exists|chain: Seq<Seq<char>>| #[trigger]
        is_chain(answer, entries, chain) && chain[0] != e && chain.last() == p
}

/// No entry occurs twice, and no entry is a dependency of a file that is
/// reached from another entry. Then no path is handed out twice. A file
/// reached from one entry alone may depend on that entry.
pub open spec fn entries_apart<Edge, Error>(
    answer: Answer<Edge, Error>,
    entries: Seq<Seq<char>>,
) -> bool {
    &&& entries.no_duplicates()
    &&& forall|e: Seq<char>, p: Seq<char>|
        entries.contains(e) && #[trigger] reached_beside(answer, entries, e, p) ==> !answer(
            p,
        ).dep_paths.contains(e)
}

/// `results` is what some crawl from `entries` may fold in, in this order:
/// each result is the answer for a path that was handed out before and has
/// no result yet.
pub open spec fn is_schedule<Edge, Error>(
    answer: Answer<Edge, Error>,
    entries: Seq<Seq<char>>,
    results: Seq<ResultModel<Edge, Error>>,
) -> bool {
    forall|k: int|
        0 <= k < results.len() ==> {
            &&& #[trigger] results[k] == answer(results[k].path)
            &&& sent_paths(entries, results.take(k)).contains(results[k].path)
            &&& forall|j: int| 0 <= j < k ==> results[j].path != results[k].path
        }
}

/// Nothing is outstanding after `results`.
pub open spec fn is_complete<Edge, Error>(
    entries: Seq<Seq<char>>,
    results: Seq<ResultModel<Edge, Error>>,
) -> bool {
    crawl_after(entries.len(), results).outstanding() == 0
}

/// What is in the paths after inserting is what was there and what was
/// inserted; and what lies behind the old paths was inserted and was not
/// there.
#[verifier::rlimit(50)]
pub proof fn lemma_insert_paths_members(paths: Seq<Seq<char>>, qs: Seq<Seq<char>>)
    ensures
        forall|x: Seq<char>| #[trigger]
            insert_paths(paths, qs).contains(x) <==> paths.contains(x) || qs.contains(x),
        forall|i: int|
            paths.len() <= i < insert_paths(paths, qs).len() ==> qs.contains(
                #[trigger] insert_paths(paths, qs)[i],
            ) && !paths.contains(insert_paths(paths, qs)[i]),
    decreases qs.len(),
{
    let after = insert_paths(paths, qs);
    lemma_insert_paths_extends(paths, qs);
    if qs.len() == 0 {
    } else {
        let front = qs.drop_last();
        let before = insert_paths(paths, front);
        lemma_insert_paths_members(paths, front);
        lemma_insert_paths_extends(paths, front);
        assert forall|x: Seq<char>| #[trigger]
            after.contains(x) <==> paths.contains(x) || qs.contains(x) by {
            if after.contains(x) {
                let i = choose|i: int| 0 <= i < after.len() && after[i] == x;
                if i < before.len() {
                    assert(before[i] == x);
                    assert(before.contains(x));
                    if front.contains(x) {
                        let j = choose|j: int| 0 <= j < front.len() && front[j] == x;
                        assert(qs[j] == x);
                    }
                } else {
                    assert(x == qs.last());
                    assert(qs[qs.len() - 1] == x);
                }
            }
            if paths.contains(x) {
                let i = choose|i: int| 0 <= i < paths.len() && paths[i] == x;
                assert(after.take(paths.len() as int)[i] == x);
                assert(after[i] == x);
            }
            if qs.contains(x) {
                let j = choose|j: int| 0 <= j < qs.len() && qs[j] == x;
                assert(after.contains(qs[j]));
            }
        }
        assert forall|i: int| paths.len() <= i < after.len() implies qs.contains(
            #[trigger] after[i],
        ) && !paths.contains(after[i]) by {
            if i < before.len() {
                assert(after[i] == before[i]);
                let j = choose|j: int| 0 <= j < front.len() && front[j] == before[i];
                assert(qs[j] == before[i]);
            } else {
                assert(after[i] == qs.last());
                assert(qs[qs.len() - 1] == after[i]);
                assert(!before.contains(qs.last()));
                if paths.contains(qs.last()) {
                    assert(before.contains(qs.last()));
                }
            }
        }
    }
}

/// A file that a reachable file depends on can be reached.
pub proof fn lemma_reachable_step<Edge, Error>(
    answer: Answer<Edge, Error>,
    entries: Seq<Seq<char>>,
    p: Seq<char>,
    q: Seq<char>,
)
    requires
        reachable(answer, entries, p),
        answer(p).dep_paths.contains(q),
    ensures
        reachable(answer, entries, q),
{
    let chain = choose|chain: Seq<Seq<char>>| #[trigger]
        is_chain(answer, entries, chain) && chain.last() == p;
    let longer = chain.push(q);
    assert forall|i: int| 0 <= i < longer.len() - 1 implies answer(
        #[trigger] longer[i],
    ).dep_paths.contains(longer[i + 1]) by {
        if i < chain.len() - 1 {
            assert(longer[i] == chain[i] && longer[i + 1] == chain[i + 1]);
        } else {
            assert(longer[i] == chain.last());
        }
    }
    assert(longer[0] == chain[0]);
    assert(is_chain(answer, entries, longer));
}

/// A file that a file reached from another entry than `e` depends on is
/// reached from that entry too.
pub proof fn lemma_reached_beside_step<Edge, Error>(
    answer: Answer<Edge, Error>,
    entries: Seq<Seq<char>>,
    e: Seq<char>,
    p: Seq<char>,
    q: Seq<char>,
)
    requires
        reached_beside(answer, entries, e, p),
        answer(p).dep_paths.contains(q),
    ensures
        reached_beside(answer, entries, e, q),
{
    let chain = choose|chain: Seq<Seq<char>>| #[trigger]
        is_chain(answer, entries, chain) && chain[0] != e && chain.last() == p;
    let longer = chain.push(q);
    assert forall|i: int| 0 <= i < longer.len() - 1 implies answer(
        #[trigger] longer[i],
    ).dep_paths.contains(longer[i + 1]) by {
        if i < chain.len() - 1 {
            assert(longer[i] == chain[i] && longer[i + 1] == chain[i + 1]);
        } else {
            assert(longer[i] == chain.last());
        }
    }
    assert(longer[0] == chain[0]);
    assert(is_chain(answer, entries, longer));
    assert(longer.last() == q);
}

/// An entry is reached from every entry but itself.
pub proof fn lemma_reached_beside_entry<Edge, Error>(
    answer: Answer<Edge, Error>,
    entries: Seq<Seq<char>>,
    e: Seq<char>,
    p: Seq<char>,
)
    requires
        entries.contains(p),
        p != e,
    ensures
        reached_beside(answer, entries, e, p),
{
    let chain = seq![p];
    assert(chain[0] == p);
    assert(is_chain(answer, entries, chain));
    assert(chain.last() == p);
}

/// Every entry can be reached.
pub proof fn lemma_reachable_entry<Edge, Error>(
    answer: Answer<Edge, Error>,
    entries: Seq<Seq<char>>,
    p: Seq<char>,
)
    requires
        entries.contains(p),
    ensures
        reachable(answer, entries, p),
{
    let chain = seq![p];
    assert(is_chain(answer, entries, chain));
    assert(chain.last() == p);
}

/// What is in the paths after inserting `x` is what was there and `x`.
pub proof fn lemma_insert_path_members(paths: Seq<Seq<char>>, x: Seq<char>)
    ensures
        forall|y: Seq<char>| #[trigger]
            insert_path(paths, x).contains(y) <==> paths.contains(y) || y == x,
        paths.no_duplicates() ==> insert_path(paths, x).no_duplicates(),
{
    let with_source = insert_path(paths, x);
    assert forall|y: Seq<char>| #[trigger] with_source.contains(y) <==> paths.contains(y) || y == x by {
        if paths.contains(y) {
            let i = choose|i: int| 0 <= i < paths.len() && paths[i] == y;
            assert(with_source[i] == y);
        }
        if with_source.contains(y) {
            let i = choose|i: int| 0 <= i < with_source.len() && with_source[i] == y;
            if i < paths.len() {
                assert(paths[i] == y);
            }
        }
        if y == x && !paths.contains(x) {
            assert(with_source[paths.len() as int] == y);
        }
    }
    if paths.no_duplicates() && !paths.contains(x) {
        assert forall|a: int, b: int| 0 <= a < with_source.len() && 0 <= b < with_source.len() && a != b implies with_source[a]
            != with_source[b] by {
            if a < paths.len() && b < paths.len() {
            } else if a < paths.len() {
                assert(paths[a] == with_source[a]);
            } else {
                assert(paths[b] == with_source[b]);
            }
        }
    }
}

/// What inserting `qs` adds behind `paths`.
pub open spec fn added(paths: Seq<Seq<char>>, qs: Seq<Seq<char>>) -> Seq<Seq<char>> {
    insert_paths(paths, qs).skip(paths.len() as int)
}

/// What inserting adds are those of the inserted that were not there, none
/// twice.
#[verifier::rlimit(50)]
pub proof fn lemma_added_members(paths: Seq<Seq<char>>, qs: Seq<Seq<char>>)
    ensures
        forall|y: Seq<char>| #[trigger]
            added(paths, qs).contains(y) <==> qs.contains(y) && !paths.contains(y),
        paths.no_duplicates() ==> added(paths, qs).no_duplicates(),
        insert_paths(paths, qs) == paths + added(paths, qs),
{
    let with_deps = insert_paths(paths, qs);
    let fresh = added(paths, qs);
    lemma_insert_paths_extends(paths, qs);
    lemma_insert_paths_members(paths, qs);
    assert(with_deps =~= paths + fresh) by {
        assert forall|i: int| 0 <= i < with_deps.len() implies with_deps[i] == (paths + fresh)[i] by {
            if i < paths.len() {
                assert(with_deps.take(paths.len() as int)[i] == paths[i]);
            }
        }
    }
    assert forall|y: Seq<char>| #[trigger]
        fresh.contains(y) <==> qs.contains(y) && !paths.contains(y) by {
        if fresh.contains(y) {
            let i = choose|i: int| 0 <= i < fresh.len() && fresh[i] == y;
            assert(with_deps[paths.len() + i] == y);
        }
        if qs.contains(y) && !paths.contains(y) {
            assert(with_deps.contains(y));
            let i = choose|i: int| 0 <= i < with_deps.len() && with_deps[i] == y;
            if i < paths.len() {
                assert(with_deps.take(paths.len() as int)[i] == paths[i]);
            } else {
                assert(fresh[i - paths.len()] == y);
            }
        }
    }
    if paths.no_duplicates() {
        assert forall|a: int, b: int|
            0 <= a < fresh.len() && 0 <= b < fresh.len() && a != b implies fresh[a]
            != fresh[b] by {
            assert(with_deps[paths.len() + a] != with_deps[paths.len() + b]);
        }
    }
}

/// What is in two sequences put together is what is in either; nothing is
/// there twice when nothing is twice in either and nothing is in both.
pub proof fn lemma_concat_members(a: Seq<Seq<char>>, b: Seq<Seq<char>>)
    ensures
        forall|y: Seq<char>| #[trigger] (a + b).contains(y) <==> a.contains(y) || b.contains(y),
        a.no_duplicates() && b.no_duplicates() && (forall|y: Seq<char>|
            a.contains(y) ==> !b.contains(y)) ==> (a + b).no_duplicates(),
{
    let c = a + b;
    assert forall|y: Seq<char>| #[trigger] c.contains(y) <==> a.contains(y) || b.contains(y) by {
        if c.contains(y) {
            let i = choose|i: int| 0 <= i < c.len() && c[i] == y;
            if i < a.len() {
                assert(a[i] == y);
            } else {
                assert(b[i - a.len()] == y);
            }
        }
        if a.contains(y) {
            let i = choose|i: int| 0 <= i < a.len() && a[i] == y;
            assert(c[i] == y);
        }
        if b.contains(y) {
            let i = choose|i: int| 0 <= i < b.len() && b[i] == y;
            assert(c[a.len() + i] == y);
        }
    }
    if a.no_duplicates() && b.no_duplicates() && (forall|y: Seq<char>|
        a.contains(y) ==> !b.contains(y)) {
        assert forall|i: int, j: int| 0 <= i < c.len() && 0 <= j < c.len() && i != j implies c[i]
            != c[j] by {
            if i < a.len() && j < a.len() {
            } else if i >= a.len() && j >= a.len() {
                assert(b[i - a.len()] != b[j - a.len()]);
            } else if i < a.len() {
                assert(a.contains(a[i]));
                assert(b.contains(b[j - a.len()]));
            } else {
                assert(a.contains(a[j]));
                assert(b.contains(b[i - a.len()]));
            }
        }
    }
}

/// What holds of the paths handed out (`sent`), the nodes (`paths`) and the
/// results folded in by a schedule: no path was handed out twice; only
/// reachable paths were handed out, all entries among them; every node was
/// handed out and everything handed out is a node or an entry; every
/// result's path is a node, and what it depends on was handed out; and
/// whatever was handed out while an entry is no node yet is that entry or
/// is reached from another one.
pub open spec fn crawl_inv<Edge, Error>(
    answer: Answer<Edge, Error>,
    entries: Seq<Seq<char>>,
    sent: Seq<Seq<char>>,
    paths: Seq<Seq<char>>,
    results: Seq<ResultModel<Edge, Error>>,
) -> bool {
    &&& sent.no_duplicates()
    &&& paths.no_duplicates()
    &&& forall|x: Seq<char>| #[trigger] sent.contains(x) ==> reachable(answer, entries, x)
    &&& forall|x: Seq<char>| #[trigger] entries.contains(x) ==> sent.contains(x)
    &&& forall|x: Seq<char>| #[trigger] paths.contains(x) ==> sent.contains(x)
    &&& forall|x: Seq<char>| #[trigger] sent.contains(x) ==> entries.contains(x) || paths.contains(x)
    &&& forall|k: int| 0 <= k < results.len() ==> paths.contains((#[trigger] results[k]).path)
    &&& forall|k: int, q: Seq<char>|
        0 <= k < results.len() && #[trigger] results[k].dep_paths.contains(q) ==> sent.contains(q)
    &&& forall|x: Seq<char>, e: Seq<char>|
        sent.contains(x) && entries.contains(e) ==> x == e || paths.contains(e)
            || #[trigger] reached_beside(answer, entries, e, x)
}

/// Folding one more answer in, for a path that was handed out, keeps
/// `crawl_inv`.
#[verifier::rlimit(50)]
pub proof fn lemma_crawl_inv_step<Edge, Error>(
    answer: Answer<Edge, Error>,
    entries: Seq<Seq<char>>,
    sent: Seq<Seq<char>>,
    paths: Seq<Seq<char>>,
    results: Seq<ResultModel<Edge, Error>>,
    r: ResultModel<Edge, Error>,
)
    requires
        entries_apart(answer, entries),
        crawl_inv(answer, entries, sent, paths, results),
        r == answer(r.path),
        sent.contains(r.path),
    ensures
        crawl_inv(
            answer,
            entries,
            sent + added(insert_path(paths, r.path), r.dep_paths),
            insert_paths(insert_path(paths, r.path), r.dep_paths),
            results.push(r),
        ),
{
    let with_source = insert_path(paths, r.path);
    let with_deps = insert_paths(with_source, r.dep_paths);
    let fresh = added(with_source, r.dep_paths);
    let sent2 = sent + fresh;
    let results2 = results.push(r);
    lemma_insert_path_members(paths, r.path);
    lemma_added_members(with_source, r.dep_paths);
    lemma_insert_paths_members(with_source, r.dep_paths);
    lemma_insert_paths_extends(with_source, r.dep_paths);
    lemma_concat_members(sent, fresh);
    assert(reachable(answer, entries, r.path));
    assert forall|y: Seq<char>| sent.contains(y) implies !fresh.contains(y) by {
        if fresh.contains(y) {
            assert(r.dep_paths.contains(y) && !with_source.contains(y));
            assert(answer(r.path).dep_paths.contains(y));
            if entries.contains(y) {
                assert(r.path == y || paths.contains(y) || reached_beside(
                    answer,
                    entries,
                    y,
                    r.path,
                ));
            }
            assert(!entries.contains(y));
            assert(!paths.contains(y));
        }
    }
    assert(sent2.no_duplicates());
    assert forall|x: Seq<char>, e: Seq<char>|
        sent2.contains(x) && entries.contains(e) implies x == e || with_deps.contains(e)
        || #[trigger] reached_beside(answer, entries, e, x) by {
        if sent.contains(x) {
            assert(x == e || paths.contains(e) || reached_beside(answer, entries, e, x));
            if paths.contains(e) {
                assert(with_source.contains(e));
            }
        } else {
            assert(fresh.contains(x));
            assert(answer(r.path).dep_paths.contains(x));
            assert(r.path == e || paths.contains(e) || reached_beside(answer, entries, e, r.path));
            if r.path == e || paths.contains(e) {
                assert(with_source.contains(e));
            } else {
                lemma_reached_beside_step(answer, entries, e, r.path, x);
            }
        }
    }
    assert forall|x: Seq<char>| #[trigger] sent2.contains(x) implies reachable(
        answer,
        entries,
        x,
    ) by {
        if !sent.contains(x) {
            assert(fresh.contains(x));
            lemma_reachable_step(answer, entries, r.path, x);
        }
    }
    assert forall|x: Seq<char>| #[trigger] with_deps.contains(x) implies sent2.contains(x) by {
        if with_source.contains(x) {
            assert(sent.contains(x));
        } else {
            assert(fresh.contains(x));
        }
    }
    assert forall|x: Seq<char>| #[trigger] sent2.contains(x) implies entries.contains(x)
        || with_deps.contains(x) by {
        if sent.contains(x) {
            if paths.contains(x) {
                assert(with_source.contains(x));
            }
        } else {
            assert(fresh.contains(x));
        }
    }
    assert forall|k: int| 0 <= k < results2.len() implies with_deps.contains(
        (#[trigger] results2[k]).path,
    ) by {
        if k < results.len() {
            assert(results2[k] == results[k]);
            assert(paths.contains(results[k].path));
            assert(with_source.contains(results[k].path));
        } else {
            assert(with_source.contains(r.path));
        }
    }
    assert forall|k: int, q: Seq<char>|
        0 <= k < results2.len() && #[trigger] results2[k].dep_paths.contains(
            q,
        ) implies sent2.contains(q) by {
        if k < results.len() {
            assert(results2[k] == results[k]);
            assert(results[k].dep_paths.contains(q));
            assert(sent.contains(q));
        } else {
            assert(with_deps.contains(q));
        }
    }
}

/// A leading part of a schedule is a schedule.
pub proof fn lemma_schedule_prefix<Edge, Error>(
    answer: Answer<Edge, Error>,
    entries: Seq<Seq<char>>,
    results: Seq<ResultModel<Edge, Error>>,
    n: int,
)
    requires
        is_schedule(answer, entries, results),
        0 <= n <= results.len(),
    ensures
        is_schedule(answer, entries, results.take(n)),
{
    let prev = results.take(n);
    assert forall|i: int| 0 <= i < prev.len() implies {
        &&& #[trigger] prev[i] == answer(prev[i].path)
        &&& sent_paths(entries, prev.take(i)).contains(prev[i].path)
        &&& forall|j: int| 0 <= j < i ==> prev[j].path != prev[i].path
    } by {
        assert(prev[i] == results[i]);
        assert(prev.take(i) =~= results.take(i));
        assert forall|j: int| 0 <= j < i implies prev[j].path != prev[i].path by {
            assert(prev[j] == results[j]);
        }
    }
}

/// What holds after the results of a schedule.
pub open spec fn schedule_inv<Edge, Error>(
    answer: Answer<Edge, Error>,
    entries: Seq<Seq<char>>,
    results: Seq<ResultModel<Edge, Error>>,
) -> bool {
    crawl_inv(
        answer,
        entries,
        sent_paths(entries, results),
        crawl_after(entries.len(), results).paths,
        results,
    )
}

/// A schedule keeps `schedule_inv`.
#[verifier::rlimit(50)]
pub proof fn lemma_schedule_inv<Edge, Error>(
    answer: Answer<Edge, Error>,
    entries: Seq<Seq<char>>,
    results: Seq<ResultModel<Edge, Error>>,
)
    requires
        entries_apart(answer, entries),
        is_schedule(answer, entries, results),
    ensures
        schedule_inv(answer, entries, results),
    decreases results.len(),
{
    if results.len() == 0 {
        let sent = sent_paths(entries, results);
        assert forall|x: Seq<char>| #[trigger] sent.contains(x) implies reachable(
            answer,
            entries,
            x,
        ) by {
            lemma_reachable_entry(answer, entries, x);
        }
        assert forall|x: Seq<char>, e: Seq<char>|
            sent.contains(x) && entries.contains(e) && x != e implies #[trigger] reached_beside(
            answer,
            entries,
            e,
            x,
        ) by {
            lemma_reached_beside_entry(answer, entries, e, x);
        }
    } else {
        let prev = results.drop_last();
        let r = results.last();
        let k = results.len() - 1;
        assert(results[k] == r);
        assert(results.take(k) =~= prev);
        lemma_schedule_prefix(answer, entries, results, k);
        lemma_schedule_inv(answer, entries, prev);
        lemma_crawl_inv_step(
            answer,
            entries,
            sent_paths(entries, prev),
            crawl_after(entries.len(), prev).paths,
            prev,
            r,
        );
        assert(prev.push(r) =~= results);
    }
}

/// The paths of the results, in their order.
pub open spec fn folded_paths<Edge, Error>(results: Seq<ResultModel<Edge, Error>>) -> Seq<
    Seq<char>,
> {
    Seq::new(results.len(), |k: int| results[k].path)
}

/// No two results of a schedule are for the same path.
pub proof fn lemma_folded_distinct<Edge, Error>(
    answer: Answer<Edge, Error>,
    entries: Seq<Seq<char>>,
    results: Seq<ResultModel<Edge, Error>>,
)
    requires
        is_schedule(answer, entries, results),
    ensures
        folded_paths(results).no_duplicates(),
{
    let folded = folded_paths(results);
    assert forall|a: int, b: int|
        0 <= a < folded.len() && 0 <= b < folded.len() && a != b implies folded[a]
        != folded[b] by {
        if a < b {
            assert(results[b] == answer(results[b].path));
            assert(results[a].path != results[b].path);
        } else {
            assert(results[a] == answer(results[a].path));
            assert(results[b].path != results[a].path);
        }
    }
}

/// Different paths, all among as many other different paths, are all of
/// them.
proof fn lemma_same_members(folded: Seq<Seq<char>>, sent: Seq<Seq<char>>)
    requires
        folded.no_duplicates(),
        sent.no_duplicates(),
        folded.len() == sent.len(),
        forall|k: int| 0 <= k < folded.len() ==> sent.contains(#[trigger] folded[k]),
    ensures
        forall|x: Seq<char>| #[trigger] sent.contains(x) <==> folded.contains(x),
{
    assert(folded.to_set().subset_of(sent.to_set())) by {
        assert forall|x: Seq<char>| folded.to_set().contains(x) implies sent.to_set().contains(
            x,
        ) by {
            let k = choose|k: int| 0 <= k < folded.len() && folded[k] == x;
            assert(sent.contains(folded[k]));
        }
    }
    folded.unique_seq_to_set();
    sent.unique_seq_to_set();
    vstd::set_lib::lemma_subset_equality(folded.to_set(), sent.to_set());
    assert forall|x: Seq<char>| #[trigger] sent.contains(x) <==> folded.contains(x) by {
        assert(sent.to_set().contains(x) <==> folded.to_set().contains(x));
    }
}

/// When a schedule is complete, the paths that were handed out are the
/// paths of the results.
#[verifier::rlimit(50)]
pub proof fn lemma_complete_all_folded<Edge, Error>(
    answer: Answer<Edge, Error>,
    entries: Seq<Seq<char>>,
    results: Seq<ResultModel<Edge, Error>>,
)
    requires
        entries_apart(answer, entries),
        is_schedule(answer, entries, results),
        is_complete(entries, results),
    ensures
        forall|x: Seq<char>| #[trigger]
            sent_paths(entries, results).contains(x) <==> folded_paths(results).contains(x),
{
    let sent = sent_paths(entries, results);
    let folded = folded_paths(results);
    let paths = crawl_after(entries.len(), results).paths;
    assert(sent.no_duplicates() && forall|k: int|
        0 <= k < folded.len() ==> sent.contains(#[trigger] folded[k])) by {
        lemma_schedule_inv(answer, entries, results);
        assert forall|k: int| 0 <= k < folded.len() implies sent.contains(
            #[trigger] folded[k],
        ) by {
            assert(paths.contains(results[k].path));
        }
    }
    assert(sent.len() == results.len()) by {
        lemma_sent_paths_len(entries, results);
    }
    lemma_folded_distinct(answer, entries, results);
    lemma_same_members(folded, sent);
}

/// Every path of a chain has a result in a complete schedule.
proof fn lemma_chain_folded<Edge, Error>(
    answer: Answer<Edge, Error>,
    entries: Seq<Seq<char>>,
    results: Seq<ResultModel<Edge, Error>>,
    chain: Seq<Seq<char>>,
    i: int,
)
    requires
        entries_apart(answer, entries),
        is_schedule(answer, entries, results),
        is_complete(entries, results),
        is_chain(answer, entries, chain),
        0 <= i < chain.len(),
    ensures
        folded_paths(results).contains(chain[i]),
    decreases i,
{
    lemma_schedule_inv(answer, entries, results);
    lemma_complete_all_folded(answer, entries, results);
    let sent = sent_paths(entries, results);
    if i == 0 {
        assert(sent.contains(chain[0]));
    } else {
        lemma_chain_folded(answer, entries, results, chain, i - 1);
        let folded = folded_paths(results);
        let k = choose|k: int| 0 <= k < folded.len() && folded[k] == chain[i - 1];
        assert(results[k] == answer(results[k].path));
        assert(answer(chain[i - 1]).dep_paths.contains(chain[i - 1 + 1]));
        assert(results[k].dep_paths.contains(chain[i]));
        assert(sent.contains(chain[i]));
    }
}

/// The nodes of a complete crawl are the files that can be reached from the
/// entries, and each of them has exactly one result.
#[verifier::rlimit(50)]
pub proof fn lemma_complete_crawl_nodes<Edge, Error>(
    answer: Answer<Edge, Error>,
    entries: Seq<Seq<char>>,
    results: Seq<ResultModel<Edge, Error>>,
)
    requires
        entries_apart(answer, entries),
        is_schedule(answer, entries, results),
        is_complete(entries, results),
    ensures
        forall|p: Seq<char>|
            reachable(answer, entries, p) <==> #[trigger] crawl_after(
                entries.len(),
                results,
            ).paths.contains(p),
        forall|p: Seq<char>|
            reachable(answer, entries, p) <==> #[trigger] folded_paths(results).contains(p),
        folded_paths(results).no_duplicates(),
        crawl_after(entries.len(), results).paths.no_duplicates(),
{
    let paths = crawl_after(entries.len(), results).paths;
    let folded = folded_paths(results);
    let sent = sent_paths(entries, results);
    lemma_schedule_inv(answer, entries, results);
    lemma_complete_all_folded(answer, entries, results);
    assert forall|p: Seq<char>| reachable(answer, entries, p) <==> #[trigger] folded.contains(
        p,
    ) by {
        if reachable(answer, entries, p) {
            let chain = choose|chain: Seq<Seq<char>>| #[trigger]
                is_chain(answer, entries, chain) && chain.last() == p;
            lemma_chain_folded(answer, entries, results, chain, chain.len() - 1);
        }
        if folded.contains(p) {
            assert(sent.contains(p));
        }
    }
    assert forall|p: Seq<char>| reachable(answer, entries, p) <==> #[trigger] paths.contains(
        p,
    ) by {
        if folded.contains(p) {
            let k = choose|k: int| 0 <= k < folded.len() && folded[k] == p;
            assert(paths.contains(results[k].path));
        }
        if paths.contains(p) {
            assert(sent.contains(p));
        }
    }
    lemma_folded_distinct(answer, entries, results);
}

/// The edges of a state, each as the path it leaves, the path it enters
/// and what it carries, by edge index.
pub open spec fn edge_triples<Edge, Error>(m: CrawlModel<Edge, Error>) -> Seq<
    (Seq<char>, Seq<char>, Edge),
> {
    Seq::new(
        m.endpoints.len(),
        |e: int| (m.paths[m.endpoints[e].0], m.paths[m.endpoints[e].1], m.weights[e]),
    )
}

/// The edges that a result names.
pub open spec fn result_triples<Edge, Error>(r: ResultModel<Edge, Error>) -> Seq<
    (Seq<char>, Seq<char>, Edge),
> {
    Seq::new(r.dep_paths.len(), |j: int| (r.path, r.dep_paths[j], r.dep_weights[j]))
}

/// The edges that the results name, result after result.
pub open spec fn all_triples<Edge, Error>(results: Seq<ResultModel<Edge, Error>>) -> Seq<
    (Seq<char>, Seq<char>, Edge),
>
    decreases results.len(),
{
    if results.len() == 0 {
        Seq::empty()
    } else {
        all_triples(results.drop_last()) + result_triples(results.last())
    }
}

/// Every edge joins two nodes and carries one weight.
pub open spec fn model_ok<Edge, Error>(m: CrawlModel<Edge, Error>) -> bool {
    &&& m.weights.len() == m.endpoints.len()
    &&& forall|e: int|
        0 <= e < m.endpoints.len() ==> 0 <= (#[trigger] m.endpoints[e]).0 < m.paths.len() && 0
            <= m.endpoints[e].1 < m.paths.len()
}

/// Folding a result in adds the edges that the result names and leaves the
/// others as they are.
#[verifier::rlimit(50)]
pub proof fn lemma_fold_triples<Edge, Error>(m: CrawlModel<Edge, Error>, r: ResultModel<Edge, Error>)
    requires
        model_ok(m),
        r.dep_paths.len() == r.dep_weights.len(),
    ensures
        model_ok(m.fold(r)),
        edge_triples(m.fold(r)) == edge_triples(m) + result_triples(r),
{
    let with_source = m.paths_with_source(r);
    let with_deps = insert_paths(with_source, r.dep_paths);
    let m2 = m.fold(r);
    lemma_insert_paths_extends(with_source, r.dep_paths);
    lemma_insert_paths_members(with_source, r.dep_paths);
    lemma_insert_path_members(m.paths, r.path);
    assert(with_deps.contains(r.path));
    assert forall|i: int| 0 <= i < m.paths.len() implies with_deps[i] == m.paths[i] by {
        assert(with_deps.take(with_source.len() as int)[i] == with_source[i]);
    }
    let src = with_deps.index_of(r.path);
    assert(0 <= src < with_deps.len() && with_deps[src] == r.path);
    assert forall|j: int| 0 <= j < r.dep_paths.len() implies 0 <= with_deps.index_of(
        #[trigger] r.dep_paths[j],
    ) < with_deps.len() && with_deps[with_deps.index_of(r.dep_paths[j])] == r.dep_paths[j] by {
        assert(r.dep_paths.contains(r.dep_paths[j]));
        assert(with_deps.contains(r.dep_paths[j]));
    }
    assert forall|e: int| 0 <= e < m2.endpoints.len() implies 0 <= (#[trigger] m2.endpoints[e]).0
        < m2.paths.len() && 0 <= m2.endpoints[e].1 < m2.paths.len() by {
        if e < m.endpoints.len() {
            assert(m2.endpoints[e] == m.endpoints[e]);
        } else {
            let j = e - m.endpoints.len();
            assert(m2.endpoints[e] == (src, with_deps.index_of(r.dep_paths[j])));
        }
    }
    let t2 = edge_triples(m2);
    let want = edge_triples(m) + result_triples(r);
    assert(t2.len() == want.len());
    assert forall|e: int| 0 <= e < t2.len() implies t2[e] == want[e] by {
        if e < m.endpoints.len() {
            assert(m2.endpoints[e] == m.endpoints[e]);
            assert(m2.weights[e] == m.weights[e]);
        } else {
            let j = e - m.endpoints.len();
            assert(m2.endpoints[e] == (src, with_deps.index_of(r.dep_paths[j])));
            assert(m2.weights[e] == r.dep_weights[j]);
        }
    }
    assert(t2 =~= want);
}

/// The edges of a crawl are the edges that its results name, result after
/// result.
pub proof fn lemma_crawl_triples<Edge, Error>(
    entries: nat,
    results: Seq<ResultModel<Edge, Error>>,
)
    requires
        forall|k: int|
            0 <= k < results.len() ==> (#[trigger] results[k]).dep_paths.len()
                == results[k].dep_weights.len(),
    ensures
        model_ok(crawl_after(entries, results)),
        edge_triples(crawl_after(entries, results)) == all_triples(results),
    decreases results.len(),
{
    if results.len() == 0 {
        assert(edge_triples(crawl_after(entries, results)) =~= all_triples(results));
    } else {
        let prev = results.drop_last();
        assert forall|k: int| 0 <= k < prev.len() implies (#[trigger] prev[k]).dep_paths.len()
            == prev[k].dep_weights.len() by {
            assert(prev[k] == results[k]);
        }
        lemma_crawl_triples(entries, prev);
        assert(results.last() == results[results.len() - 1]);
        lemma_fold_triples(crawl_after(entries, prev), results.last());
    }
}

/// Taking one result out takes out the edges that it names.
proof fn lemma_triples_remove<Edge, Error>(results: Seq<ResultModel<Edge, Error>>, i: int)
    requires
        0 <= i < results.len(),
    ensures
        all_triples(results).to_multiset() == all_triples(results.remove(i)).to_multiset().add(
            result_triples(results[i]).to_multiset(),
        ),
    decreases results.len(),
{
    let prev = results.drop_last();
    let last = results.last();
    vstd::seq_lib::lemma_multiset_commutative(all_triples(prev), result_triples(last));
    if i == results.len() - 1 {
        assert(results.remove(i) =~= prev);
    } else {
        let rest = results.remove(i);
        assert(rest.drop_last() =~= prev.remove(i));
        assert(rest.last() == last);
        assert(prev[i] == results[i]);
        lemma_triples_remove(prev, i);
        vstd::seq_lib::lemma_multiset_commutative(
            all_triples(rest.drop_last()),
            result_triples(last),
        );
        assert(all_triples(results).to_multiset() =~= all_triples(rest).to_multiset().add(
            result_triples(results[i]).to_multiset(),
        ));
    }
}

/// The same results in another order name the same edges, each as often.
#[verifier::rlimit(50)]
pub proof fn lemma_triples_rearranged<Edge, Error>(
    answer: Answer<Edge, Error>,
    a: Seq<ResultModel<Edge, Error>>,
    b: Seq<ResultModel<Edge, Error>>,
)
    requires
        folded_paths(a).no_duplicates(),
        folded_paths(b).no_duplicates(),
        forall|p: Seq<char>| #[trigger] folded_paths(a).contains(p) <==> folded_paths(b).contains(p),
        forall|k: int| 0 <= k < a.len() ==> #[trigger] a[k] == answer(a[k].path),
        forall|k: int| 0 <= k < b.len() ==> #[trigger] b[k] == answer(b[k].path),
    ensures
        all_triples(a).to_multiset() == all_triples(b).to_multiset(),
    decreases a.len(),
{
    let pa = folded_paths(a);
    let pb = folded_paths(b);
    if a.len() == 0 {
        if b.len() > 0 {
            assert(pb[0] == b[0].path);
            assert(pb.contains(b[0].path));
            assert(pa.contains(b[0].path));
        }
    } else {
        let x = a.last();
        let n = a.len() - 1;
        assert(pa[n] == x.path);
        assert(pa.contains(x.path));
        assert(pb.contains(x.path));
        let i = choose|i: int| 0 <= i < pb.len() && pb[i] == x.path;
        assert(b[i] == answer(b[i].path));
        assert(a[n] == answer(a[n].path));
        assert(b[i] == x);
        let a2 = a.drop_last();
        let b2 = b.remove(i);
        let pa2 = folded_paths(a2);
        let pb2 = folded_paths(b2);
        assert(pa2 =~= pa.drop_last());
        assert(pb2 =~= pb.remove(i));
        assert(pa2.no_duplicates()) by {
            assert forall|s: int, t: int|
                0 <= s < pa2.len() && 0 <= t < pa2.len() && s != t implies pa2[s] != pa2[t] by {
                assert(pa[s] != pa[t]);
            }
        }
        assert(pb2.no_duplicates()) by {
            assert forall|s: int, t: int|
                0 <= s < pb2.len() && 0 <= t < pb2.len() && s != t implies pb2[s] != pb2[t] by {
                let s1 = if s < i {
                    s
                } else {
                    s + 1
                };
                let t1 = if t < i {
                    t
                } else {
                    t + 1
                };
                assert(pb2[s] == pb[s1] && pb2[t] == pb[t1]);
                assert(pb[s1] != pb[t1]);
            }
        }
        assert forall|p: Seq<char>| #[trigger] pa2.contains(p) <==> pa.contains(p) && p
            != x.path by {
            if pa2.contains(p) {
                let s = choose|s: int| 0 <= s < pa2.len() && pa2[s] == p;
                assert(pa[s] == p);
                assert(pa[s] != pa[n]);
            }
            if pa.contains(p) && p != x.path {
                let s = choose|s: int| 0 <= s < pa.len() && pa[s] == p;
                assert(pa2[s] == p);
            }
        }
        assert forall|p: Seq<char>| #[trigger] pb2.contains(p) <==> pb.contains(p) && p
            != x.path by {
            if pb2.contains(p) {
                let s = choose|s: int| 0 <= s < pb2.len() && pb2[s] == p;
                let s1 = if s < i {
                    s
                } else {
                    s + 1
                };
                assert(pb[s1] == p);
                assert(pb[s1] != pb[i]);
            }
            if pb.contains(p) && p != x.path {
                let s = choose|s: int| 0 <= s < pb.len() && pb[s] == p;
                let s2 = if s < i {
                    s
                } else {
                    s - 1
                };
                assert(pb2[s2] == p);
            }
        }
        assert forall|k: int| 0 <= k < a2.len() implies #[trigger] a2[k] == answer(a2[k].path) by {
            assert(a2[k] == a[k]);
        }
        assert forall|k: int| 0 <= k < b2.len() implies #[trigger] b2[k] == answer(b2[k].path) by {
            let k1 = if k < i {
                k
            } else {
                k + 1
            };
            assert(b2[k] == b[k1]);
        }
        lemma_triples_rearranged(answer, a2, b2);
        lemma_triples_remove(b, i);
        vstd::seq_lib::lemma_multiset_commutative(all_triples(a2), result_triples(x));
    }
}

/// The errors that the results bring, result after result.
pub open spec fn all_errors<Edge, Error>(results: Seq<ResultModel<Edge, Error>>) -> Seq<
    (Seq<char>, Error),
>
    decreases results.len(),
{
    if results.len() == 0 {
        Seq::empty()
    } else {
        match results.last().error {
            Some(e) => all_errors(results.drop_last()).push((results.last().path, e)),
            None => all_errors(results.drop_last()),
        }
    }
}

/// The errors of a crawl are the errors that its results bring: an error is
/// recorded for a path exactly when a result for that path brings it.
#[verifier::rlimit(50)]
pub proof fn lemma_crawl_errors<Edge, Error>(entries: nat, results: Seq<ResultModel<Edge, Error>>)
    ensures
        crawl_after(entries, results).errors == all_errors(results),
        forall|p: Seq<char>, e: Error| #[trigger]
            all_errors(results).contains((p, e)) <==> exists|k: int|
                0 <= k < results.len() && (#[trigger] results[k]).path == p && results[k].error
                    == Some(e),
    decreases results.len(),
{
    let errors = all_errors(results);
    if results.len() == 0 {
    } else {
        let prev = results.drop_last();
        let last = results.last();
        let n = results.len() - 1;
        lemma_crawl_errors(entries, prev);
        let before = all_errors(prev);
        assert forall|p: Seq<char>, e: Error| #[trigger]
            errors.contains((p, e)) <==> exists|k: int|
                0 <= k < results.len() && (#[trigger] results[k]).path == p && results[k].error
                    == Some(e) by {
            if errors.contains((p, e)) {
                let i = choose|i: int| 0 <= i < errors.len() && errors[i] == (p, e);
                if i < before.len() {
                    assert(before[i] == (p, e));
                    assert(before.contains((p, e)));
                    let k = choose|k: int|
                        0 <= k < prev.len() && (#[trigger] prev[k]).path == p && prev[k].error
                            == Some(e);
                    assert(results[k].path == p && results[k].error == Some(e));
                } else {
                    assert(results[n].path == p && results[n].error == Some(e));
                }
            }
            if exists|k: int|
                0 <= k < results.len() && (#[trigger] results[k]).path == p && results[k].error
                    == Some(e) {
                let k = choose|k: int|
                    0 <= k < results.len() && (#[trigger] results[k]).path == p
                        && results[k].error == Some(e);
                if k < n {
                    assert(prev[k].path == p && prev[k].error == Some(e));
                    assert(before.contains((p, e)));
                    let i = choose|i: int| 0 <= i < before.len() && before[i] == (p, e);
                    assert(errors[i] == (p, e));
                } else {
                    assert(errors[errors.len() - 1] == (p, e));
                }
            }
        }
    }
}

/// Idempotence: two complete crawls of the same entries, with a discoverer
/// that gives one answer for each file, end with the same nodes, the same
/// edges, each as often, and the same errors, in whatever order their
/// results came in. The nodes are the files that can be reached from the
/// entries.
#[verifier::rlimit(50)]
pub proof fn lemma_crawl_idempotent<Edge, Error>(
    answer: Answer<Edge, Error>,
    entries: Seq<Seq<char>>,
    first: Seq<ResultModel<Edge, Error>>,
    second: Seq<ResultModel<Edge, Error>>,
)
    requires
        answers_ok(answer),
        entries_apart(answer, entries),
        is_schedule(answer, entries, first),
        is_complete(entries, first),
        is_schedule(answer, entries, second),
        is_complete(entries, second),
    ensures
        crawl_after(entries.len(), first).paths.to_set() == crawl_after(
            entries.len(),
            second,
        ).paths.to_set(),
        forall|p: Seq<char>|
            reachable(answer, entries, p) <==> #[trigger] crawl_after(
                entries.len(),
                first,
            ).paths.contains(p),
        edge_triples(crawl_after(entries.len(), first)).to_multiset() == edge_triples(
            crawl_after(entries.len(), second),
        ).to_multiset(),
        crawl_after(entries.len(), first).errors.to_set() == crawl_after(
            entries.len(),
            second,
        ).errors.to_set(),
{
    let m1 = crawl_after(entries.len(), first);
    let m2 = crawl_after(entries.len(), second);
    lemma_complete_crawl_nodes(answer, entries, first);
    lemma_complete_crawl_nodes(answer, entries, second);
    assert(m1.paths.to_set() =~= m2.paths.to_set()) by {
        assert forall|p: Seq<char>| m1.paths.to_set().contains(p) <==> m2.paths.to_set().contains(
            p,
        ) by {
            assert(m1.paths.contains(p) <==> reachable(answer, entries, p));
            assert(m2.paths.contains(p) <==> reachable(answer, entries, p));
        }
    }
    assert forall|k: int| 0 <= k < first.len() implies (#[trigger] first[k]).dep_paths.len()
        == first[k].dep_weights.len() by {
        assert(first[k] == answer(first[k].path));
    }
    assert forall|k: int| 0 <= k < second.len() implies (#[trigger] second[k]).dep_paths.len()
        == second[k].dep_weights.len() by {
        assert(second[k] == answer(second[k].path));
    }
    lemma_crawl_triples(entries.len(), first);
    lemma_crawl_triples(entries.len(), second);
    assert forall|p: Seq<char>| #[trigger]
        folded_paths(first).contains(p) <==> folded_paths(second).contains(p) by {
        assert(folded_paths(first).contains(p) <==> reachable(answer, entries, p));
        assert(folded_paths(second).contains(p) <==> reachable(answer, entries, p));
    }
    lemma_triples_rearranged(answer, first, second);
    lemma_crawl_errors(entries.len(), first);
    lemma_crawl_errors(entries.len(), second);
    assert(m1.errors.to_set() =~= m2.errors.to_set()) by {
        assert forall|x: (Seq<char>, Error)| m1.errors.contains(x) implies m2.errors.contains(
            x,
        ) by {
            lemma_same_errors(answer, first, second, x.0, x.1);
        }
        assert forall|x: (Seq<char>, Error)| m2.errors.contains(x) implies m1.errors.contains(
            x,
        ) by {
            lemma_same_errors(answer, second, first, x.0, x.1);
        }
    }
}

/// An error that a result of `a` brings is brought by a result of `b`, when
/// both have results for the same paths.
proof fn lemma_same_errors<Edge, Error>(
    answer: Answer<Edge, Error>,
    a: Seq<ResultModel<Edge, Error>>,
    b: Seq<ResultModel<Edge, Error>>,
    p: Seq<char>,
    e: Error,
)
    requires
        forall|q: Seq<char>| #[trigger] folded_paths(a).contains(q) <==> folded_paths(b).contains(q),
        forall|k: int| 0 <= k < a.len() ==> #[trigger] a[k] == answer(a[k].path),
        forall|k: int| 0 <= k < b.len() ==> #[trigger] b[k] == answer(b[k].path),
        all_errors(a).contains((p, e)),
    ensures
        all_errors(b).contains((p, e)),
{
    lemma_crawl_errors(0, a);
    lemma_crawl_errors(0, b);
    let k = choose|k: int| 0 <= k < a.len() && (#[trigger] a[k]).path == p && a[k].error == Some(e);
    assert(folded_paths(a)[k] == p);
    assert(folded_paths(a).contains(p));
    assert(folded_paths(b).contains(p));
    let j = choose|j: int| 0 <= j < folded_paths(b).len() && folded_paths(b)[j] == p;
    assert(b[j] == answer(b[j].path));
    assert(a[k] == answer(a[k].path));
    assert(b[j].path == p && b[j].error == Some(e));
}

/// What was handed out stays where it is when more results are folded in.
pub proof fn lemma_sent_grows<Edge, Error>(
    entries: Seq<Seq<char>>,
    results: Seq<ResultModel<Edge, Error>>,
    j: int,
    n: int,
)
    requires
        0 <= j <= n <= results.len(),
    ensures
        sent_paths(entries, results.take(j)).len() <= sent_paths(entries, results.take(n)).len(),
        forall|i: int|
            0 <= i < sent_paths(entries, results.take(j)).len() ==> sent_paths(
                entries,
                results.take(n),
            )[i] == #[trigger] sent_paths(entries, results.take(j))[i],
    decreases n - j,
{
    if j < n {
        lemma_sent_grows(entries, results, j, n - 1);
        assert(results.take(n).drop_last() =~= results.take(n - 1));
    }
}

/// Outstanding conservation along a crawl in order: before each result is
/// folded in, work is outstanding; when the last one is folded in, none is.
/// So the count of outstanding work reaches zero once, at the end.
#[verifier::rlimit(50)]
pub proof fn lemma_outstanding_reaches_zero_once<D: DiscoverDependency>(
    discoverer: &D,
    entries: Seq<Seq<char>>,
    results: Seq<ResultModel<D::Edge, D::Error>>,
    k: int,
)
    requires
        is_crawl_in_order(discoverer, entries, results),
        0 <= k <= results.len(),
    ensures
        crawl_after(entries.len(), results.take(k)).outstanding() == crawl_after(
            entries.len(),
            results.take(k),
        ).sent - k,
        k < results.len() ==> crawl_after(entries.len(), results.take(k)).outstanding() > 0,
        k == results.len() ==> crawl_after(entries.len(), results.take(k)).outstanding() == 0,
{
    let part = results.take(k);
    let sent = sent_paths(entries, part);
    let state = crawl_after(entries.len(), part);
    assert(sent.len() == state.sent && state.folded == k) by {
        lemma_sent_paths_len(entries, part);
    }
    if k == results.len() {
        assert(part =~= results);
        assert(sent.len() == results.len());
    } else {
        lemma_answer_at(discoverer, entries, results, k);
    }
}

/// A crawl in order with a discoverer that gives one answer for each file
/// is a complete schedule.
pub proof fn lemma_in_order_is_schedule<D: DiscoverDependency>(
    discoverer: &D,
    answer: Answer<D::Edge, D::Error>,
    entries: Seq<Seq<char>>,
    results: Seq<ResultModel<D::Edge, D::Error>>,
)
    requires
        entries_apart(answer, entries),
        forall|r: ResultModel<D::Edge, D::Error>| #[trigger]
            discoverer.discovers(r) ==> r == answer(r.path),
        is_crawl_in_order(discoverer, entries, results),
    ensures
        is_schedule(answer, entries, results),
        is_complete(entries, results),
{
    lemma_sent_paths_len(entries, results);
    lemma_in_order_prefix(discoverer, answer, entries, results, results.len() as int);
    assert(results.take(results.len() as int) =~= results);
}

/// The first `n` results of a crawl in order are a schedule.
#[verifier::rlimit(50)]
proof fn lemma_in_order_prefix<D: DiscoverDependency>(
    discoverer: &D,
    answer: Answer<D::Edge, D::Error>,
    entries: Seq<Seq<char>>,
    results: Seq<ResultModel<D::Edge, D::Error>>,
    n: int,
)
    requires
        entries_apart(answer, entries),
        forall|r: ResultModel<D::Edge, D::Error>| #[trigger]
            discoverer.discovers(r) ==> r == answer(r.path),
        answers_in_order(discoverer, entries, results),
        0 <= n <= results.len(),
    ensures
        is_schedule(answer, entries, results.take(n)),
    decreases n,
{
    let part = results.take(n);
    if n > 0 {
        lemma_in_order_prefix(discoverer, answer, entries, results, n - 1);
        let before = results.take(n - 1);
        let sent = sent_paths(entries, before);
        assert(sent.no_duplicates()) by {
            lemma_schedule_inv(answer, entries, before);
        }
        assert forall|k: int| 0 <= k < part.len() implies {
            &&& #[trigger] part[k] == answer(part[k].path)
            &&& sent_paths(entries, part.take(k)).contains(part[k].path)
            &&& forall|j: int| 0 <= j < k ==> part[j].path != part[k].path
        } by {
            assert(part[k] == results[k]);
            assert(part.take(k) =~= results.take(k));
            lemma_answer_at(discoverer, entries, results, k);
            let here = sent_paths(entries, results.take(k));
            assert(here[k] == results[k].path);
            assert forall|j: int| 0 <= j < k implies part[j].path != part[k].path by {
                assert(part[j] == results[j]);
                lemma_answer_at(discoverer, entries, results, j);
                let there = sent_paths(entries, results.take(j));
                assert(there[j] == results[j].path);
                lemma_sent_grows(entries, results, j, n - 1);
                lemma_sent_grows(entries, results, k, n - 1);
                assert(sent[j] == there[j]);
                assert(sent[k] == here[k]);
            }
        }
    }
}

/// Outstanding conservation along any schedule: before each result is
/// folded in, work is outstanding, namely at least the path that the result
/// is for; and the outstanding work is what was handed out less what was
/// folded in.
#[verifier::rlimit(50)]
pub proof fn lemma_schedule_outstanding<Edge, Error>(
    answer: Answer<Edge, Error>,
    entries: Seq<Seq<char>>,
    results: Seq<ResultModel<Edge, Error>>,
    k: int,
)
    requires
        entries_apart(answer, entries),
        is_schedule(answer, entries, results),
        0 <= k < results.len(),
    ensures
        crawl_after(entries.len(), results.take(k)).outstanding() == sent_paths(
            entries,
            results.take(k),
        ).len() - k,
        crawl_after(entries.len(), results.take(k)).outstanding() > 0,
{
    let part = results.take(k);
    let sent = sent_paths(entries, part);
    let folded = folded_paths(part);
    lemma_sent_paths_len(entries, part);
    lemma_schedule_prefix(answer, entries, results, k);
    lemma_folded_distinct(answer, entries, part);
    let more = folded.push(results[k].path);
    assert(more.no_duplicates()) by {
        assert forall|a: int, b: int| 0 <= a < more.len() && 0 <= b < more.len() && a != b implies more[a]
            != more[b] by {
            if a < k && b < k {
                assert(folded[a] != folded[b]);
            } else if a < k {
                assert(part[a] == results[a]);
                assert(results[k] == answer(results[k].path));
                assert(results[a].path != results[k].path);
            } else {
                assert(part[b] == results[b]);
                assert(results[k] == answer(results[k].path));
                assert(results[b].path != results[k].path);
            }
        }
    }
    assert(sent.no_duplicates() && forall|i: int|
        0 <= i < more.len() ==> sent.contains(#[trigger] more[i])) by {
        lemma_schedule_inv(answer, entries, part);
        let paths = crawl_after(entries.len(), part).paths;
        assert forall|i: int| 0 <= i < more.len() implies sent.contains(#[trigger] more[i]) by {
            if i < k {
                assert(paths.contains(part[i].path));
            } else {
                assert(results[k] == answer(results[k].path));
            }
        }
    }
    more.unique_seq_to_set();
    sent.unique_seq_to_set();
    assert(more.to_set().subset_of(sent.to_set())) by {
        assert forall|x: Seq<char>| more.to_set().contains(x) implies sent.to_set().contains(x) by {
            let i = choose|i: int| 0 <= i < more.len() && more[i] == x;
            assert(sent.contains(more[i]));
        }
    }
    vstd::set_lib::lemma_len_subset(more.to_set(), sent.to_set());
}

} // verus!
