//! Finds dependency cycles among the source files of a project: a graph of
//! files keyed by path, a coordinator that folds discovery results into it,
//! and two cycle analyses over the finished graph.
use vstd::prelude::*;

pub mod algorithms;
pub mod collect_deps;
pub mod crawl_laws;
pub mod dep;
pub mod dep_graph;
pub mod graph;
pub mod hash;
pub mod js_resolver;
pub mod report;
pub mod sequence;

pub use crate::collect_deps::collect_dependencies;

use crate::collect_deps::{
    crawl_after, gave_up, is_crawl_in_order, paths_view, CrawlError, CrawlModel,
    DiscoverDependency, ResultModel,
};
use crate::dep_graph::cycle_edge_report;
use crate::report::{snapshot, snapshot_of};

verus! {

/// Pairs of paths as plain values.
pub open spec fn path_pairs_view(v: Seq<(String, String)>) -> Seq<(Seq<char>, Seq<char>)> {
    Seq::new(v.len(), |i: int| (v[i].0@, v[i].1@))
}

/// Why a run gave no report.
pub enum RunError {
    /// The crawl was given up.
    Crawl(CrawlError),
    /// A file on a cycle has a path that cannot be written relative to the
    /// project root.
    NoRelativePath,
}

/// The edges that lie on a cycle in the graph a crawl ended with, each as
/// the path of the file that imports and the path of the file that is
/// imported, in the order of the edges.
pub open spec fn cycle_pairs<Edge, Error>(end: CrawlModel<Edge, Error>) -> Seq<(Seq<char>, Seq<char>)> {
    cycle_edge_report(end.paths, end.endpoints, end.endpoints.len() as int)
}

/// Crawls from the entry paths and reports the import edges that lie on a
/// cycle, each as the file that imports and the file that is imported, with
/// the paths relative to the project root `cwd` and the pairs in the order
/// of their paths.
///
/// The report is that of the graph which folding the discoverer's answers
/// in, one file at a time in the order the paths come up, makes of the empty
/// graph. The run is given up where the crawl is, and where a path of the
/// report cannot be written relative to `cwd`.
#[verifier::rlimit(50)]
pub fn run<D: DiscoverDependency>(entries: Vec<String>, cwd: &str, dep_discoverer: &D) -> (r: Result<
    Vec<(String, String)>,
    RunError,
>)
    ensures
        match r {
            Ok(report) => exists|results: Seq<ResultModel<D::Edge, D::Error>>|
                #![auto]
                is_crawl_in_order(dep_discoverer, paths_view(entries@), results) && snapshot_of(
                    cycle_pairs(crawl_after(entries@.len() as nat, results)),
                    cwd@,
                ) == Some(path_pairs_view(report@)),
            Err(RunError::Crawl(e)) => gave_up(dep_discoverer, paths_view(entries@), e),
            Err(RunError::NoRelativePath) => exists|results: Seq<ResultModel<D::Edge, D::Error>>|
                #![auto]
                is_crawl_in_order(dep_discoverer, paths_view(entries@), results) && snapshot_of(
                    cycle_pairs(crawl_after(entries@.len() as nat, results)),
                    cwd@,
                ).is_none(),
        },
{
    let outcome = match collect_dependencies(entries, dep_discoverer) {
        Ok(outcome) => outcome,
        Err(e) => {
            return Err(RunError::Crawl(e));
        },
    };
    let borrowed = outcome.dependency_graph.cycle_edge_paths();
    match snapshot(&borrowed, cwd) {
        Some(report) => Ok(report),
        None => Err(RunError::NoRelativePath),
    }
}

} // verus!
