//! The crawl coordinator: folds what was discovered about one file after
//! another into the dependency graph and says which paths to look at next.
//!
//! Reading files and running workers is left to the caller. The caller seeds
//! the coordinator once for each entry path it hands to its workers, gives
//! each result to `fold`, hands the paths that `fold` returns to its workers,
//! and stops when `fold` reports that nothing is outstanding.
use crate::dep_graph::DependencyGraph;
use crate::sequence::reversed;
use vstd::prelude::*;

verus! {

/// Finds out what one file depends on.
pub trait DiscoverDependency {
    /// What an edge of the graph carries.
    type Edge;

    /// What is recorded for a file that could not be read or understood.
    type Error;

    /// What this discoverer may report of a file. It gives a name to the
    /// answers of `discover_dependencies`, so that what a crawl builds can
    /// be stated in terms of them. A discoverer that says nothing of its
    /// answers leaves it as it is: anything may be reported.
    open spec fn discovers(&self, result: ResultModel<Self::Edge, Self::Error>) -> bool {
        true
    }

    /// The files that `path` depends on, each with what its edge carries,
    /// and an error when something went wrong with `path`.
    fn discover_dependencies(&self, path: &str) -> (r: (
        Vec<(String, Self::Edge)>,
        Option<Self::Error>,
    ))
        ensures
            self.discovers(result_model(path@, r.0@, r.1)),
    ;
}

/// A result as plain values, from its parts.
pub open spec fn result_model<Edge, Error>(
    path: Seq<char>,
    dependencies: Seq<(String, Edge)>,
    error: Option<Error>,
) -> ResultModel<Edge, Error> {
    ResultModel {
        path,
        dep_paths: Seq::new(dependencies.len(), |i: int| dependencies[i].0@),
        dep_weights: Seq::new(dependencies.len(), |i: int| dependencies[i].1),
        error,
    }
}

/// Why a crawl was given up.
#[derive(Debug, PartialEq, Eq, Clone, Copy)]
pub enum CrawlError {
    /// The graph would hold more nodes or edges than 32-bit indices can
    /// number.
    TooLarge,
    /// A second error came for a path that has one recorded already.
    DuplicateError,
}

/// What was discovered about one file.
pub struct DependencyInfo<Edge, Error> {
    pub path: String,
    pub dependencies: Vec<(String, Edge)>,
    pub error: Option<Error>,
}

/// The outcome of a crawl.
pub struct DependencyGraphWithErrors<Edge, Error> {
    pub dependency_graph: DependencyGraph<Edge>,
    pub errors_by_path: Vec<(String, Error)>,
}

/// The state of a crawl between two results.
pub struct Coordinator<Edge, Error> {
    dependency_graph: DependencyGraph<Edge>,
    errors_by_path: Vec<(String, Error)>,
    remaining: u32,
    sent: Ghost<nat>,
    folded: Ghost<nat>,
}

/// A result as plain values.
pub struct ResultModel<Edge, Error> {
    pub path: Seq<char>,
    pub dep_paths: Seq<Seq<char>>,
    pub dep_weights: Seq<Edge>,
    pub error: Option<Error>,
}

/// The state of a crawl as plain values.
pub struct CrawlModel<Edge, Error> {
    /// The paths of the nodes, by node index.
    pub paths: Seq<Seq<char>>,
    /// The endpoints of the edges, by edge index.
    pub endpoints: Seq<(int, int)>,
    /// What the edges carry, by edge index.
    pub weights: Seq<Edge>,
    /// The errors recorded, in the order they came.
    pub errors: Seq<(Seq<char>, Error)>,
    /// How many paths were handed out for discovery.
    pub sent: nat,
    /// How many results were folded in.
    pub folded: nat,
}

/// No path has two records among `errors`.
pub open spec fn errors_apart<Error>(errors: Seq<(Seq<char>, Error)>) -> bool {
    forall|i: int, j: int|
        0 <= i < j < errors.len() ==> (#[trigger] errors[i]).0 != (#[trigger] errors[j]).0
}

/// `paths` with `q` appended unless it is there already.
pub open spec fn insert_path(paths: Seq<Seq<char>>, q: Seq<char>) -> Seq<Seq<char>> {
    if paths.contains(q) {
        paths
    } else {
        paths.push(q)
    }
}

/// `paths` after inserting each of `qs` in turn.
pub open spec fn insert_paths(paths: Seq<Seq<char>>, qs: Seq<Seq<char>>) -> Seq<Seq<char>>
    decreases qs.len(),
{
    if qs.len() == 0 {
        paths
    } else {
        insert_path(insert_paths(paths, qs.drop_last()), qs.last())
    }
}

impl<Edge, Error> CrawlModel<Edge, Error> {
    /// The state before anything was sent.
    pub open spec fn start() -> Self {
        CrawlModel {
            paths: Seq::empty(),
            endpoints: Seq::empty(),
            weights: Seq::empty(),
            errors: Seq::empty(),
            sent: 0,
            folded: 0,
        }
    }

    /// Paths sent for discovery whose results have not been folded in.
    pub open spec fn outstanding(self) -> int {
        self.sent - self.folded
    }

    /// The state after one more path was sent for discovery.
    pub open spec fn seed(self) -> Self {
        CrawlModel { sent: self.sent + 1, ..self }
    }

    /// The paths when the result's own path has its node.
    pub open spec fn paths_with_source(self, r: ResultModel<Edge, Error>) -> Seq<Seq<char>> {
        insert_path(self.paths, r.path)
    }

    /// The state after folding `r` in: the file and each of its dependencies
    /// has a node, the first sighting of a path making the node; one edge for
    /// each dependency is appended, in the order of the result; the error, if
    /// any, is recorded; each dependency seen for the first time counts as
    /// sent, and the result counts as folded.
    pub open spec fn fold(self, r: ResultModel<Edge, Error>) -> Self {
        let with_source = self.paths_with_source(r);
        let with_deps = insert_paths(with_source, r.dep_paths);
        CrawlModel {
            paths: with_deps,
            endpoints: self.endpoints + Seq::new(
                r.dep_paths.len(),
                |i: int| (with_deps.index_of(r.path), with_deps.index_of(r.dep_paths[i])),
            ),
            weights: self.weights + r.dep_weights,
            errors: match r.error {
                Some(e) => self.errors.push((r.path, e)),
                None => self.errors,
            },
            sent: (self.sent + (with_deps.len() - with_source.len())) as nat,
            folded: self.folded + 1,
        }
    }

    /// The dependencies of `r` that had no node before, in the order of the
    /// result: the paths to discover next.
    pub open spec fn fresh(self, r: ResultModel<Edge, Error>) -> Seq<Seq<char>> {
        insert_paths(self.paths_with_source(r), r.dep_paths).skip(
            self.paths_with_source(r).len() as int,
        )
    }

    /// Whether an error is recorded for `path`.
    pub open spec fn has_error(self, path: Seq<char>) -> bool {
        exists|i: int| 0 <= i < self.errors.len() && (#[trigger] self.errors[i]).0 == path
    }
}

/// Inserting never shortens the paths nor moves one that is there.
#[verifier::rlimit(50)]
pub proof fn lemma_insert_paths_extends(paths: Seq<Seq<char>>, qs: Seq<Seq<char>>)
    ensures
        paths.len() <= insert_paths(paths, qs).len() <= paths.len() + qs.len(),
        insert_paths(paths, qs).take(paths.len() as int) == paths,
        forall|i: int| 0 <= i < qs.len() ==> insert_paths(paths, qs).contains(#[trigger] qs[i]),
        paths.no_duplicates() ==> insert_paths(paths, qs).no_duplicates(),
    decreases qs.len(),
{
    if qs.len() == 0 {
        assert(paths.take(paths.len() as int) =~= paths);
    } else {
        let before = insert_paths(paths, qs.drop_last());
        let after = insert_paths(paths, qs);
        lemma_insert_paths_extends(paths, qs.drop_last());
        assert(after.take(paths.len() as int) =~= before.take(paths.len() as int));
        assert forall|i: int| 0 <= i < qs.len() implies after.contains(#[trigger] qs[i]) by {
            if i < qs.len() - 1 {
                assert(qs.drop_last()[i] == qs[i]);
                let k = choose|k: int| 0 <= k < before.len() && before[k] == qs[i];
                assert(after[k] == qs[i]);
            } else {
                if before.contains(qs[i]) {
                } else {
                    assert(after[before.len() as int] == qs[i]);
                }
            }
        }
        if paths.no_duplicates() && !before.contains(qs.last()) {
            assert forall|a: int, b: int|
                0 <= a < after.len() && 0 <= b < after.len() && a != b implies after[a]
                != after[b] by {
                if a < before.len() && b < before.len() {
                } else if a < before.len() {
                    assert(before[a] == after[a]);
                } else {
                    assert(before[b] == after[b]);
                }
            }
        }
    }
}

impl<Edge, Error> DependencyInfo<Edge, Error> {
    /// The result as plain values.
    pub open spec fn model(self) -> ResultModel<Edge, Error> {
        result_model(self.path@, self.dependencies@, self.error)
    }
}

/// The state after seeding `entries` paths and folding `results` in, one
/// after the other.
pub open spec fn crawl_after<Edge, Error>(
    entries: nat,
    results: Seq<ResultModel<Edge, Error>>,
) -> CrawlModel<Edge, Error>
    decreases results.len(),
{
    if results.len() == 0 {
        CrawlModel { sent: entries, ..CrawlModel::start() }
    } else {
        crawl_after(entries, results.drop_last()).fold(results.last())
    }
}

/// The paths handed out for discovery when `results` have been folded in,
/// in the order they were handed out: the entries, then what each result
/// brought that was new.
pub open spec fn sent_paths<Edge, Error>(
    entries: Seq<Seq<char>>,
    results: Seq<ResultModel<Edge, Error>>,
) -> Seq<Seq<char>>
    decreases results.len(),
{
    if results.len() == 0 {
        entries
    } else {
        sent_paths(entries, results.drop_last()) + crawl_after(
            entries.len(),
            results.drop_last(),
        ).fresh(results.last())
    }
}

/// `results` is what a crawl from `entries` folds in when the paths are
/// discovered one at a time in the order they were handed out: the result
/// number `i` is an answer of the discoverer for the path handed out as
/// number `i`, and when the last result is folded in no path is left.
pub open spec fn is_crawl_in_order<D: DiscoverDependency>(
    discoverer: &D,
    entries: Seq<Seq<char>>,
    results: Seq<ResultModel<D::Edge, D::Error>>,
) -> bool {
    &&& answers_in_order(discoverer, entries, results)
    &&& sent_paths(entries, results).len() == results.len()
}

impl<Edge, Error> DependencyGraphWithErrors<Edge, Error> {
    /// The errors as plain values, in the order they were recorded.
    pub open spec fn errors(self) -> Seq<(Seq<char>, Error)> {
        Seq::new(
            self.errors_by_path@.len(),
            |i: int| (self.errors_by_path@[i].0@, self.errors_by_path@[i].1),
        )
    }

    /// The error recorded for `path`, if there is one.
    pub fn error_of(&self, path: &str) -> (r: Option<&Error>)
        ensures
            r.is_some() <==> exists|i: int|
                0 <= i < self.errors().len() && (#[trigger] self.errors()[i]).0 == path@,
            r.is_some() ==> exists|i: int|
                0 <= i < self.errors().len() && (#[trigger] self.errors()[i]) == (path@, *r.unwrap()),
    {
        let wanted = path.to_owned();
        let mut i: usize = 0;
        while i < self.errors_by_path.len()
            invariant
                0 <= i <= self.errors_by_path@.len(),
                wanted@ == path@,
                forall|k: int| 0 <= k < i ==> (#[trigger] self.errors()[k]).0 != path@,
            decreases self.errors_by_path@.len() - i,
        {
            if self.errors_by_path[i].0 == wanted {
                assert(self.errors()[i as int] == (path@, self.errors_by_path@[i as int].1));
                return Some(&self.errors_by_path[i].1);
            }
            assert(self.errors()[i as int].0 == self.errors_by_path@[i as int].0@);
            i += 1;
        }
        None
    }
}

impl<Edge, Error> Coordinator<Edge, Error> {
    /// The graph built so far.
    pub closed spec fn graph(&self) -> DependencyGraph<Edge> {
        self.dependency_graph
    }

    /// The state as plain values.
    pub closed spec fn model(&self) -> CrawlModel<Edge, Error> {
        CrawlModel {
            paths: self.dependency_graph.paths_view(),
            endpoints: self.dependency_graph.endpoints(),
            weights: self.dependency_graph.weights(),
            errors: Seq::new(
                self.errors_by_path@.len(),
                |i: int| (self.errors_by_path@[i].0@, self.errors_by_path@[i].1),
            ),
            sent: self.sent@,
            folded: self.folded@,
        }
    }

    /// The graph is consistent, no path has two errors recorded, and the
    /// counter of outstanding work is what was sent less what was folded.
    pub closed spec fn wf(&self) -> bool {
        &&& self.dependency_graph.wf()
        &&& self.remaining == self.sent@ - self.folded@
        &&& errors_apart(self.model().errors)
    }

    /// Outstanding conservation: in every state the coordinator reaches, the
    /// outstanding work is the number of paths sent for discovery less the
    /// number of results folded in, and it is never negative.
    pub proof fn lemma_outstanding_conservation(&self)
        requires
            self.wf(),
        ensures
            self.model().outstanding() == self.model().sent - self.model().folded,
            0 <= self.model().outstanding() <= u32::MAX,
            self.model().paths == self.graph().paths_view(),
            self.model().endpoints == self.graph().endpoints(),
            self.model().weights == self.graph().weights(),
            errors_apart(self.model().errors),
            self.graph().wf(),
    {
    }

    /// A coordinator for a crawl in which nothing has been sent yet.
    pub fn new() -> (c: Self)
        ensures
            c.wf(),
            c.model() == CrawlModel::<Edge, Error>::start(),
    {
        let c = Coordinator {
            dependency_graph: DependencyGraph::new(),
            errors_by_path: Vec::new(),
            remaining: 0,
            sent: Ghost(0),
            folded: Ghost(0),
        };
        assert(c.model().errors =~= Seq::empty());
        c
    }

    /// Counts one entry path as sent for discovery.
    pub fn seed(&mut self)
        requires
            old(self).wf(),
            old(self).model().outstanding() < u32::MAX,
        ensures
            final(self).wf(),
            final(self).model() == old(self).model().seed(),
    {
        self.remaining = self.remaining + 1;
        self.sent = Ghost((self.sent@ + 1) as nat);
    }

    /// How many paths were sent for discovery and have no result folded in
    /// yet.
    pub fn outstanding(&self) -> (n: u32)
        requires
            self.wf(),
        ensures
            n == self.model().outstanding(),
    {
        self.remaining
    }

    /// How many nodes the graph has.
    pub fn node_count(&self) -> (n: usize)
        requires
            self.wf(),
        ensures
            n == self.model().paths.len(),
    {
        self.dependency_graph.node_count()
    }

    /// How many edges the graph has.
    pub fn edge_count(&self) -> (n: usize)
        requires
            self.wf(),
        ensures
            n == self.model().endpoints.len(),
    {
        self.dependency_graph.edge_count()
    }

    /// Whether an error is recorded for `path`.
    pub fn has_error(&self, path: &str) -> (r: bool)
        ensures
            r == self.model().has_error(path@),
    {
        let ghost errors = self.model().errors;
        let wanted = path.to_owned();
        let mut i: usize = 0;
        while i < self.errors_by_path.len()
            invariant
                0 <= i <= self.errors_by_path@.len(),
                wanted@ == path@,
                errors == self.model().errors,
                forall|k: int| 0 <= k < i ==> (#[trigger] errors[k]).0 != path@,
            decreases self.errors_by_path@.len() - i,
        {
            if self.errors_by_path[i].0 == wanted {
                assert(errors[i as int].0 == path@);
                return true;
            }
            assert(errors[i as int].0 == self.errors_by_path@[i as int].0@);
            i += 1;
        }
        false
    }

    /// Folds one result in. Returns the paths to discover next, which are the
    /// dependencies seen for the first time, and whether the crawl is done:
    /// nothing is outstanding any more.
    #[verifier::rlimit(50)]
    pub fn fold(&mut self, info: DependencyInfo<Edge, Error>) -> (r: (Vec<String>, bool))
        requires
            old(self).wf(),
            old(self).model().outstanding() > 0,
            info.error.is_some() ==> !old(self).model().has_error(info.path@),
            old(self).model().paths.len() + 1 + info.dependencies@.len() <= u32::MAX,
            old(self).model().endpoints.len() + info.dependencies@.len() <= u32::MAX,
            old(self).model().outstanding() + info.dependencies@.len() <= u32::MAX,
        ensures
            final(self).wf(),
            final(self).model() == old(self).model().fold(info.model()),
            r.0@.len() == old(self).model().fresh(info.model()).len(),
            forall|i: int|
                0 <= i < r.0@.len() ==> (#[trigger] r.0@[i])@ == old(self).model().fresh(
                    info.model(),
                )[i],
            r.1 == (final(self).model().outstanding() == 0),
    {
        let ghost before = self.model();
        let ghost result = info.model();
        let DependencyInfo { path, dependencies, error } = info;
        self.remaining = self.remaining - 1;
        self.folded = Ghost(self.folded@ + 1);
        let (from_index, _) = self.dependency_graph.get_path_index_or_insert(path.as_str());
        let ghost with_source = self.dependency_graph.paths_view();
        let mut new_paths: Vec<String> = Vec::new();
        let count = dependencies.len();
        proof {
            old(self).dependency_graph.lemma_index_of_path(path@);
            assert(with_source == before.paths_with_source(result));
            assert(result.dep_paths.take(0) =~= Seq::<Seq<char>>::empty());
            assert(with_source.skip(with_source.len() as int) =~= Seq::<Seq<char>>::empty());
            assert(self.dependency_graph.endpoints() =~= before.endpoints + Seq::new(
                0,
                |i: int| (0int, 0int),
            ));
            assert(self.dependency_graph.weights() =~= before.weights + result.dep_weights.take(0));
        }
        let mut rest = reversed(dependencies);
        let mut done: usize = 0;
        while rest.len() > 0
            invariant
                0 <= done <= count,
                rest@.len() + done == count,
                result.dep_paths.len() == count,
                result.dep_weights.len() == count,
                forall|i: int|
                    0 <= i < rest@.len() ==> (#[trigger] rest@[i]).0@ == result.dep_paths[count - 1
                        - i] && rest@[i].1 == result.dep_weights[count - 1 - i],
                self.dependency_graph.wf(),
                before.paths.len() + 1 + count <= u32::MAX,
                before.endpoints.len() + count <= u32::MAX,
                before.outstanding() + count <= u32::MAX,
                before.outstanding() > 0,
                with_source == before.paths_with_source(result),
                with_source.len() <= before.paths.len() + 1,
                self.dependency_graph.index().contains_key(path@),
                self.dependency_graph.index()[path@] == from_index,
                self.dependency_graph.paths_view() == insert_paths(with_source, result.dep_paths.take(done as int)),
                self.dependency_graph.endpoints().len() == before.endpoints.len() + done,
                self.dependency_graph.endpoints().take(before.endpoints.len() as int)
                    == before.endpoints,
                forall|i: int|
                    0 <= i < done ==> self.dependency_graph.index().contains_key(
                        #[trigger] result.dep_paths[i],
                    ) && self.dependency_graph.endpoints()[before.endpoints.len() + i] == (
                        from_index as int,
                        self.dependency_graph.index()[result.dep_paths[i]] as int,
                    ),
                self.dependency_graph.weights() == before.weights + result.dep_weights.take(
                    done as int,
                ),
                new_paths@.len() == self.dependency_graph.paths_view().len() - with_source.len(),
                forall|i: int|
                    0 <= i < new_paths@.len() ==> (#[trigger] new_paths@[i])@
                        == self.dependency_graph.paths_view()[with_source.len() + i],
                self.remaining == before.outstanding() - 1 + new_paths@.len(),
                self.sent@ == before.sent + new_paths@.len(),
                self.folded@ == before.folded + 1,
                self.errors_by_path == old(self).errors_by_path,
            decreases rest@.len(),
        {
            let (dep_path, edge) = rest.pop().unwrap();
            let ghost graph_before = self.dependency_graph;
            let ghost taken = result.dep_paths.take(done as int);
            proof {
                assert(dep_path@ == result.dep_paths[done as int]);
                assert(edge == result.dep_weights[done as int]);
                lemma_insert_paths_extends(with_source, taken);
                graph_before.lemma_index_of_path(dep_path@);
                assert(result.dep_paths.take(done + 1).drop_last() =~= taken);
                assert(result.dep_paths.take(done + 1).last() == dep_path@);
            }
            let (to_index, newly_inserted) = self.dependency_graph.get_path_index_or_insert(
                dep_path.as_str(),
            );
            let ghost graph_mid = self.dependency_graph;
            proof {
                graph_mid.lemma_consistency();
                assert(graph_mid.index().contains_key(path@));
                assert(graph_mid.index().contains_key(dep_path@));
                lemma_insert_paths_extends(with_source, result.dep_paths.take(done + 1));
            }
            self.dependency_graph.add_edge(from_index, to_index, edge);
            proof {
                let g = self.dependency_graph;
                assert(g.paths_view() == insert_paths(with_source, result.dep_paths.take(done + 1)));
                assert(g.endpoints().take(before.endpoints.len() as int) =~= before.endpoints);
                assert forall|i: int| 0 <= i < done + 1 implies g.index().contains_key(
                    #[trigger] result.dep_paths[i],
                ) && g.endpoints()[before.endpoints.len() + i] == (
                    from_index as int,
                    g.index()[result.dep_paths[i]] as int,
                ) by {
                    if i < done {
                        assert(graph_before.index().contains_key(result.dep_paths[i]));
                        assert(graph_before.endpoints()[before.endpoints.len() + i]
                            == g.endpoints()[before.endpoints.len() + i]);
                    }
                }
                assert(g.weights() =~= before.weights + result.dep_weights.take(done + 1));
            }
            if newly_inserted {
                self.remaining = self.remaining + 1;
                self.sent = Ghost(self.sent@ + 1);
                new_paths.push(dep_path);
            }
            done += 1;
        }
        match error {
            Some(e) => {
                self.errors_by_path.push((path, e));
            },
            None => {},
        }
        proof {
            let g = self.dependency_graph;
            let after = before.fold(result);
            let with_deps = insert_paths(with_source, result.dep_paths);
            assert(result.dep_paths.take(count as int) =~= result.dep_paths);
            assert(result.dep_weights.take(count as int) =~= result.dep_weights);
            assert(g.paths_view() == with_deps);
            lemma_insert_paths_extends(with_source, result.dep_paths);
            g.lemma_index_of_path(path@);
            assert(g.endpoints() =~= after.endpoints) by {
                assert forall|e: int| 0 <= e < g.endpoints().len() implies g.endpoints()[e]
                    == after.endpoints[e] by {
                    if e < before.endpoints.len() {
                        assert(g.endpoints().take(before.endpoints.len() as int)[e]
                            == g.endpoints()[e]);
                    } else {
                        let i = e - before.endpoints.len();
                        assert(g.index().contains_key(result.dep_paths[i]));
                        g.lemma_index_of_path(result.dep_paths[i]);
                    }
                }
            }
            assert(self.model().errors =~= after.errors);
            assert(errors_apart(after.errors)) by {
                assert forall|i: int, j: int| 0 <= i < j < after.errors.len() implies (
                #[trigger] after.errors[i]).0 != (#[trigger] after.errors[j]).0 by {
                    if j < before.errors.len() {
                        assert(after.errors[i] == before.errors[i]);
                        assert(after.errors[j] == before.errors[j]);
                    } else {
                        assert(after.errors[i] == before.errors[i]);
                        assert(!before.has_error(result.path));
                    }
                }
            }
            assert(self.model().sent == after.sent);
            assert(self.model() == after);
            assert(new_paths@.len() == before.fresh(result).len());
        }
        let finished = self.remaining == 0;
        (new_paths, finished)
    }

    /// Ends the crawl and hands out the graph and the errors.
    pub fn finish(self) -> (r: DependencyGraphWithErrors<Edge, Error>)
        requires
            self.wf(),
        ensures
            r.dependency_graph == self.graph(),
            r.dependency_graph.wf(),
            r.dependency_graph.paths_view() == self.model().paths,
            r.dependency_graph.endpoints() == self.model().endpoints,
            r.dependency_graph.weights() == self.model().weights,
            r.errors() == self.model().errors,
            errors_apart(r.errors()),
    {
        DependencyGraphWithErrors {
            dependency_graph: self.dependency_graph,
            errors_by_path: self.errors_by_path,
        }
    }
}

/// The paths sent are as many as the state counts.
pub proof fn lemma_sent_paths_len<Edge, Error>(
    entries: Seq<Seq<char>>,
    results: Seq<ResultModel<Edge, Error>>,
)
    ensures
        sent_paths(entries, results).len() == crawl_after(entries.len(), results).sent,
        crawl_after(entries.len(), results).folded == results.len(),
    decreases results.len(),
{
    if results.len() > 0 {
        lemma_sent_paths_len(entries, results.drop_last());
        let before = crawl_after(entries.len(), results.drop_last());
        lemma_insert_paths_extends(before.paths_with_source(results.last()), results.last().dep_paths);
    }
}

/// The strings as plain values.
pub open spec fn paths_view(v: Seq<String>) -> Seq<Seq<char>> {
    Seq::new(v.len(), |i: int| v[i]@)
}

/// Each result is an answer of the discoverer for the path that was handed
/// out at its place.
#[verifier::opaque]
pub open spec fn answers_in_order<D: DiscoverDependency>(
    discoverer: &D,
    entries: Seq<Seq<char>>,
    results: Seq<ResultModel<D::Edge, D::Error>>,
) -> bool {
    forall|i: int|
        0 <= i < results.len() ==> discoverer.discovers(#[trigger] results[i]) && i < sent_paths(
            entries,
            results.take(i),
        ).len() && results[i].path == sent_paths(entries, results.take(i))[i]
}

/// What `answers_in_order` says of the result at place `k`.
pub proof fn lemma_answer_at<D: DiscoverDependency>(
    discoverer: &D,
    entries: Seq<Seq<char>>,
    results: Seq<ResultModel<D::Edge, D::Error>>,
    k: int,
)
    requires
        answers_in_order(discoverer, entries, results),
        0 <= k < results.len(),
    ensures
        discoverer.discovers(results[k]),
        k < sent_paths(entries, results.take(k)).len(),
        results[k].path == sent_paths(entries, results.take(k))[k],
{
    reveal(answers_in_order);
}

/// No results are in order.
pub proof fn lemma_no_answers_in_order<D: DiscoverDependency>(
    discoverer: &D,
    entries: Seq<Seq<char>>,
)
    ensures
        answers_in_order(discoverer, entries, Seq::<ResultModel<D::Edge, D::Error>>::empty()),
{
    reveal(answers_in_order);
}

/// One more answer, for the next path handed out, keeps the results in
/// order.
proof fn lemma_in_order_push<D: DiscoverDependency>(
    discoverer: &D,
    entries: Seq<Seq<char>>,
    results: Seq<ResultModel<D::Edge, D::Error>>,
    result: ResultModel<D::Edge, D::Error>,
)
    requires
        answers_in_order(discoverer, entries, results),
        discoverer.discovers(result),
        results.len() < sent_paths(entries, results).len(),
        result.path == sent_paths(entries, results)[results.len() as int],
    ensures
        answers_in_order(discoverer, entries, results.push(result)),
{
    reveal(answers_in_order);
    let more = results.push(result);
    assert forall|i: int| 0 <= i < more.len() implies discoverer.discovers(#[trigger] more[i]) && i
        < sent_paths(entries, more.take(i)).len() && more[i].path == sent_paths(
        entries,
        more.take(i),
    )[i] by {
        if i < results.len() {
            assert(more.take(i) =~= results.take(i));
            assert(more[i] == results[i]);
        } else {
            assert(more.take(i) =~= results);
        }
    }
}

/// Appends `new_paths` to the queue, in their order.
#[verifier::rlimit(50)]
fn enqueue(queue: &mut Vec<String>, new_paths: Vec<String>)
    ensures
        paths_view(final(queue)@) == paths_view(old(queue)@) + paths_view(new_paths@),
        final(queue)@.len() == old(queue)@.len() + new_paths@.len(),
        forall|i: int| 0 <= i < old(queue)@.len() ==> final(queue)@[i] == old(queue)@[i],
{
    let ghost queue_before = queue@;
    let ghost fresh = paths_view(new_paths@);
    let mut incoming = reversed(new_paths);
    let ghost total = incoming@.len();
    while incoming.len() > 0
        invariant
            total == fresh.len(),
            incoming@.len() <= total,
            queue@.len() == queue_before.len() + (total - incoming@.len()),
            forall|i: int| 0 <= i < queue_before.len() ==> queue@[i] == queue_before[i],
            forall|i: int|
                0 <= i < total - incoming@.len() ==> (#[trigger] queue@[queue_before.len() + i])@
                    == fresh[i],
            forall|i: int|
                0 <= i < incoming@.len() ==> (#[trigger] incoming@[i])@ == fresh[total - 1 - i],
        decreases incoming@.len(),
    {
        let next = incoming.pop().unwrap();
        queue.push(next);
    }
    proof {
        let now = paths_view(queue@);
        let was = paths_view(queue_before);
        assert forall|i: int| 0 <= i < now.len() implies now[i] == (was + fresh)[i] by {
            if i < queue_before.len() {
                assert(queue@[i] == queue_before[i]);
            } else {
                let k = i - queue_before.len();
                assert(queue@[queue_before.len() + k]@ == fresh[k]);
            }
        }
        assert(now =~= was + fresh);
    }
}

/// Folding `answer` in keeps the nodes, the edges and the outstanding work
/// within what 32-bit numbers can count.
pub open spec fn fits<Edge, Error>(m: CrawlModel<Edge, Error>, answer: ResultModel<Edge, Error>) -> bool {
    &&& m.paths.len() + 1 + answer.dep_paths.len() <= u32::MAX
    &&& m.endpoints.len() + answer.dep_paths.len() <= u32::MAX
    &&& m.outstanding() + answer.dep_paths.len() <= u32::MAX
}

/// After `results`, folded in in order, the discoverer gave `answer` for the
/// next path, and with it the crawl cannot go on for the reason `e`: the
/// answer does not fit, or it brings an error for a path that has one.
pub open spec fn is_given_up<D: DiscoverDependency>(
    discoverer: &D,
    entries: Seq<Seq<char>>,
    results: Seq<ResultModel<D::Edge, D::Error>>,
    answer: ResultModel<D::Edge, D::Error>,
    e: CrawlError,
) -> bool {
    &&& answers_in_order(discoverer, entries, results)
    &&& results.len() < sent_paths(entries, results).len()
    &&& answer.path == sent_paths(entries, results)[results.len() as int]
    &&& discoverer.discovers(answer)
    &&& match e {
        CrawlError::TooLarge => !fits(crawl_after(entries.len(), results), answer),
        CrawlError::DuplicateError => fits(crawl_after(entries.len(), results), answer)
            && answer.error.is_some() && crawl_after(entries.len(), results).has_error(
            answer.path,
        ),
    }
}

/// A crawl in order from `entries` is given up for the reason `e`: there are
/// more entries than 32-bit numbers can count, or the crawl comes to an
/// answer with which it cannot go on.
pub open spec fn gave_up<D: DiscoverDependency>(
    discoverer: &D,
    entries: Seq<Seq<char>>,
    e: CrawlError,
) -> bool {
    ||| entries.len() >= u32::MAX && e == CrawlError::TooLarge
    ||| exists|results: Seq<ResultModel<D::Edge, D::Error>>, answer: ResultModel<D::Edge, D::Error>| #[trigger]
        is_given_up(discoverer, entries, results, answer, e)
}

/// Crawls from the entry paths, one file at a time in the order the paths
/// come up, until no path is left, and returns the graph with the errors.
///
/// The graph is what folding the discoverer's answers in, in that order,
/// makes of the empty graph, and no path has two errors in the outcome. The
/// crawl is given up when the graph would
/// outgrow its 32-bit indices, or when the discoverer reports an error for
/// a path that has one already, which can only happen to a path that was
/// handed out twice.
#[verifier::rlimit(50)]
pub fn collect_dependencies<D: DiscoverDependency>(paths: Vec<String>, dep_discoverer: &D) -> (r:
    Result<DependencyGraphWithErrors<D::Edge, D::Error>, CrawlError>)
    ensures
        match r {
            Ok(outcome) => outcome.dependency_graph.wf() && exists|
                results: Seq<ResultModel<D::Edge, D::Error>>,
            |
                #![auto]
                is_crawl_in_order(dep_discoverer, paths_view(paths@), results) && {
                    let end = crawl_after(paths@.len() as nat, results);
                    &&& outcome.dependency_graph.paths_view() == end.paths
                    &&& outcome.dependency_graph.endpoints() == end.endpoints
                    &&& outcome.dependency_graph.weights() == end.weights
                    &&& outcome.errors() == end.errors
                } && errors_apart(outcome.errors()),
            Err(e) => gave_up(dep_discoverer, paths_view(paths@), e),
        },
{
    let ghost entries = paths_view(paths@);
    if paths.len() >= u32::MAX as usize {
        return Err(CrawlError::TooLarge);
    }
    let mut coordinator = Coordinator::<D::Edge, D::Error>::new();
    let mut seeded: usize = 0;
    while seeded < paths.len()
        invariant
            0 <= seeded <= paths@.len() < u32::MAX,
            coordinator.wf(),
            coordinator.model() == (CrawlModel {
                sent: seeded as nat,
                ..CrawlModel::<D::Edge, D::Error>::start()
            }),
        decreases paths@.len() - seeded,
    {
        coordinator.seed();
        seeded += 1;
    }
    let mut queue = paths;
    let mut head: usize = 0;
    let ghost mut results: Seq<ResultModel<D::Edge, D::Error>> = Seq::empty();
    proof {
        assert(results.take(0) =~= results);
        lemma_no_answers_in_order(dep_discoverer, entries);
    }
    while head < queue.len()
        invariant
            0 <= head <= queue@.len(),
            entries == paths_view(paths@),
            entries.len() < u32::MAX,
            coordinator.wf(),
            coordinator.model() == crawl_after(entries.len(), results),
            paths_view(queue@) == sent_paths(entries, results),
            results.len() == head,
            answers_in_order(dep_discoverer, entries, results),
        decreases
                2 * (u32::MAX - coordinator.model().paths.len()) + (queue@.len() - head),
    {
        proof {
            coordinator.lemma_outstanding_conservation();
            lemma_sent_paths_len(entries, results);
            coordinator.graph().lemma_consistency();
        }
        let path = queue[head].clone();
        let (dependencies, error) = dep_discoverer.discover_dependencies(path.as_str());
        let nodes = coordinator.node_count();
        let edges = coordinator.edge_count();
        let outstanding = coordinator.outstanding();
        let count = dependencies.len();
        let ghost answer = result_model(path@, dependencies@, error);
        proof {
            assert(paths_view(queue@)[head as int] == queue@[head as int]@);
        }
        if count >= u32::MAX as usize || nodes > u32::MAX as usize - count - 1 || edges
            > u32::MAX as usize - count || outstanding as usize > u32::MAX as usize - count {
            proof {
                assert(is_given_up(dep_discoverer, entries, results, answer, CrawlError::TooLarge));
            }
            return Err(CrawlError::TooLarge);
        }
        if error.is_some() && coordinator.has_error(path.as_str()) {
            proof {
                assert(is_given_up(
                    dep_discoverer,
                    entries,
                    results,
                    answer,
                    CrawlError::DuplicateError,
                ));
            }
            return Err(CrawlError::DuplicateError);
        }
        let info = DependencyInfo { path, dependencies, error };
        let ghost result = info.model();
        let ghost before = coordinator.model();
        let ghost old_results = results;
        let (new_paths, _) = coordinator.fold(info);
        proof {
            results = old_results.push(result);
            assert(results.drop_last() =~= old_results);
            assert(results.last() == result);
            lemma_insert_paths_extends(before.paths_with_source(result), result.dep_paths);
            assert(paths_view(queue@)[head as int] == queue@[head as int]@);
            lemma_in_order_push(dep_discoverer, entries, old_results, result);
        }
        proof {
            assert(paths_view(new_paths@) =~= before.fresh(result));
        }
        enqueue(&mut queue, new_paths);
        head += 1;
    }
    proof {
        assert(results.take(results.len() as int) =~= results);
        assert(is_crawl_in_order(dep_discoverer, entries, results));
    }
    let outcome = coordinator.finish();
    Ok(outcome)
}

} // verus!
