//! The cycle-edge finder: which edges of a graph lie on a directed cycle.
//!
//! An edge `u -> v` lies on a cycle exactly when `u` can be reached from `v`.
//! `TraversalSpace` answers that question with a depth-first search whose
//! working memory is kept between queries.
use crate::graph::{
    arcs_of, graph_count_edges, graph_edge_list, graph_edges, graph_node_count, graph_out_edges, is_path,
    lemma_reaches_arc, lemma_reaches_refl, lemma_reaches_trans, reaches, visit_map_empty,
    visit_map_is_visited, visit_map_len, visit_map_reset, visit_map_visit, visited_bits, DiGraph,
};
use crate::hash::IdSet;
use vstd::prelude::*;
use vstd::set_lib::set_int_range;

verus! {

/// One record of the search tree: the edge by which a node was reached and
/// the record of the node that edge leaves, if that node is not the root.
#[derive(Clone, Copy)]
struct PathTreeNode {
    edge: u32,
    parent_index: Option<u32>,
}

/// Reusable working memory for path queries on one graph.
pub struct TraversalSpace<'a> {
    graph: &'a DiGraph,
    stack: Vec<(u32, Option<u32>)>,
    discovered: fixedbitset::FixedBitSet,
    path_tree: Vec<PathTreeNode>,
}

/// `w` lists edge indices that lead back from `to` to `from`: its first edge
/// enters `to`, every edge starts where the next one ends, and its last edge
/// leaves `from`. It is empty only when `from` is `to`.
pub open spec fn is_back_walk(edges: Seq<(int, int)>, w: Seq<u32>, from: int, to: int) -> bool {
    &&& forall|i: int| 0 <= i < w.len() ==> (#[trigger] w[i]) < edges.len()
    &&& w.len() == 0 ==> from == to
    &&& w.len() > 0 ==> edges[w[0] as int].1 == to && edges[w.last() as int].0 == from
    &&& forall|i: int|
        0 <= i < w.len() - 1 ==> edges[(#[trigger] w[i]) as int].0 == edges[w[i + 1] as int].1
}

/// A back walk that is the way back along a simple path: no two of its
/// edges leave the same node and none leaves `to`, so the path from `from`
/// to `to` enters no node twice and never comes back to `from`. Such a walk
/// is empty exactly when `from` is `to`.
pub open spec fn is_simple_back_walk(edges: Seq<(int, int)>, w: Seq<u32>, from: int, to: int) -> bool {
    &&& is_back_walk(edges, w, from, to)
    &&& forall|i: int| 0 <= i < w.len() ==> edges[(#[trigger] w[i]) as int].0 != to
    &&& forall|i: int, j: int|
        0 <= i < j < w.len() ==> edges[(#[trigger] w[i]) as int].0 != edges[(#[trigger] w[j]) as int].0
}

/// Edge `e` lies on a directed cycle: its source can be reached from its
/// target.
pub open spec fn is_cycle_edge(edges: Seq<(int, int)>, e: int) -> bool {
    0 <= e < edges.len() && reaches(arcs_of(edges), edges[e].1, edges[e].0)
}

/// Cutting a back walk at edge `i` leaves a back walk on either side.
pub proof fn lemma_back_walk_split(
    edges: Seq<(int, int)>,
    w: Seq<u32>,
    from: int,
    to: int,
    i: int,
)
    requires
        is_back_walk(edges, w, from, to),
        0 <= i < w.len(),
    ensures
        is_back_walk(edges, w.subrange(0, i), edges[w[i] as int].1, to),
        is_back_walk(edges, w.subrange(i + 1, w.len() as int), from, edges[w[i] as int].0),
{
    let a = w.subrange(0, i);
    let b = w.subrange(i + 1, w.len() as int);
    assert forall|k: int| 0 <= k < a.len() - 1 implies edges[(#[trigger] a[k]) as int].0
        == edges[a[k + 1] as int].1 by {
        assert(a[k] == w[k] && a[k + 1] == w[k + 1]);
    }
    assert forall|k: int| 0 <= k < b.len() - 1 implies edges[(#[trigger] b[k]) as int].0
        == edges[b[k + 1] as int].1 by {
        assert(b[k] == w[i + 1 + k] && b[k + 1] == w[i + 1 + k + 1]);
    }
    if a.len() > 0 {
        assert(a.last() == w[i - 1]);
    }
    if b.len() > 0 {
        assert(b[0] == w[i + 1]);
        assert(b.last() == w.last());
    }
}

/// A back walk from `to` to `from` shows that `to` is reachable from `from`.
pub proof fn lemma_back_walk_reaches(edges: Seq<(int, int)>, w: Seq<u32>, from: int, to: int)
    requires
        is_back_walk(edges, w, from, to),
    ensures
        reaches(arcs_of(edges), from, to),
    decreases w.len(),
{
    let arcs = arcs_of(edges);
    if w.len() == 0 {
        lemma_reaches_refl(arcs, from);
    } else {
        let e = w[0] as int;
        lemma_back_walk_split(edges, w, from, to, 0);
        let rest = w.subrange(1, w.len() as int);
        lemma_back_walk_reaches(edges, rest, from, edges[e].0);
        assert(arcs.contains((edges[e].0, edges[e].1))) by {
            assert(edges.contains(edges[e]));
        }
        lemma_reaches_arc(arcs, edges[e].0, to);
        lemma_reaches_trans(arcs, from, edges[e].0, to);
    }
}

/// Every edge of a back walk from `v` to `u` lies on a cycle once an edge
/// `u -> v` closes the walk.
pub proof fn lemma_back_walk_edges_in_cycle(
    edges: Seq<(int, int)>,
    e: int,
    w: Seq<u32>,
    i: int,
)
    requires
        0 <= e < edges.len(),
        is_back_walk(edges, w, edges[e].1, edges[e].0),
        0 <= i < w.len(),
    ensures
        is_cycle_edge(edges, w[i] as int),
        is_cycle_edge(edges, e),
{
    let arcs = arcs_of(edges);
    let u = edges[e].0;
    let v = edges[e].1;
    let f = w[i] as int;
    lemma_back_walk_reaches(edges, w, v, u);
    lemma_back_walk_split(edges, w, v, u, i);
    lemma_back_walk_reaches(edges, w.subrange(0, i), edges[f].1, u);
    lemma_back_walk_reaches(edges, w.subrange(i + 1, w.len() as int), v, edges[f].0);
    assert(arcs.contains((u, v))) by {
        assert(edges.contains(edges[e]));
    }
    lemma_reaches_arc(arcs, u, v);
    lemma_reaches_trans(arcs, edges[f].1, u, v);
    lemma_reaches_trans(arcs, edges[f].1, v, edges[f].0);
}

/// `es` lists the edges of a simple directed cycle in the order the cycle
/// runs through them: each edge ends where the next one starts, the last one
/// ends where the first one starts, and no two of them start at the same
/// node.
pub open spec fn is_simple_edge_cycle(edges: Seq<(int, int)>, es: Seq<int>) -> bool {
    &&& es.len() > 0
    &&& forall|i: int| 0 <= i < es.len() ==> 0 <= #[trigger] es[i] < edges.len()
    &&& forall|i: int| 0 <= i < es.len() - 1 ==> edges[#[trigger] es[i]].1 == edges[es[i + 1]].0
    &&& edges[es.last()].1 == edges[es[0]].0
    &&& forall|i: int, j: int|
        0 <= i < es.len() && 0 <= j < es.len() && i != j ==> edges[#[trigger] es[i]].0
            != edges[#[trigger] es[j]].0
}

/// Edge `e` is one of the edges of some simple directed cycle.
pub open spec fn on_simple_cycle(edges: Seq<(int, int)>, e: int) -> bool {
    exists|es: Seq<int>| is_simple_edge_cycle(edges, es) && #[trigger] es.contains(e)
}

/// Where a path leads there leads a path that visits no node twice.
pub proof fn lemma_simple_path(arcs: Set<(int, int)>, p: Seq<int>) -> (q: Seq<int>)
    requires
        is_path(arcs, p),
    ensures
        is_path(arcs, q),
        q[0] == p[0],
        q.last() == p.last(),
        q.no_duplicates(),
    decreases p.len(),
{
    if p.no_duplicates() {
        p
    } else {
        let (i, j) = choose|i: int, j: int|
            0 <= i < p.len() && 0 <= j < p.len() && i != j && p[i] == p[j];
        let (lo, hi) = if i < j {
            (i, j)
        } else {
            (j, i)
        };
        let shorter = p.take(lo + 1) + p.skip(hi + 1);
        assert forall|k: int| 0 <= k < shorter.len() - 1 implies #[trigger] arcs.contains(
            (shorter[k], shorter[k + 1]),
        ) by {
            if k < lo {
                assert(arcs.contains((p[k], p[k + 1])));
            } else if k == lo {
                assert(shorter[k] == p[hi]);
                assert(shorter[k + 1] == p[hi + 1]);
                assert(arcs.contains((p[hi], p[hi + 1])));
            } else {
                let m = k - lo + hi;
                assert(shorter[k] == p[m]);
                assert(shorter[k + 1] == p[m + 1]);
                assert(arcs.contains((p[m], p[m + 1])));
            }
        }
        assert(shorter.last() == p.last()) by {
            if hi == p.len() - 1 {
                assert(shorter.last() == p[lo]);
            } else {
                assert(shorter.last() == p[p.len() - 1]);
            }
        }
        lemma_simple_path(arcs, shorter)
    }
}

/// The edges along a path that visits no node twice: one edge for each
/// step, starting at different nodes.
proof fn lemma_edges_along(edges: Seq<(int, int)>, p: Seq<int>) -> (es: Seq<int>)
    requires
        is_path(arcs_of(edges), p),
        p.no_duplicates(),
    ensures
        es.len() == p.len() - 1,
        forall|i: int|
            0 <= i < es.len() ==> 0 <= #[trigger] es[i] < edges.len() && edges[es[i]] == (
                p[i],
                p[i + 1],
            ),
    decreases p.len(),
{
    if p.len() == 1 {
        Seq::empty()
    } else {
        let front = p.drop_last();
        assert forall|i: int| 0 <= i < front.len() - 1 implies #[trigger] arcs_of(edges).contains(
            (front[i], front[i + 1]),
        ) by {
            assert(arcs_of(edges).contains((p[i], p[i + 1])));
        }
        assert(front.no_duplicates()) by {
            assert forall|a: int, b: int|
                0 <= a < front.len() && 0 <= b < front.len() && a != b implies front[a]
                != front[b] by {
                assert(p[a] != p[b]);
            }
        }
        let es = lemma_edges_along(edges, front);
        let n = p.len() - 2;
        let arc = (p[n], p[n + 1]);
        assert(arcs_of(edges).contains(arc));
        assert(edges.contains(arc));
        let e = choose|e: int| 0 <= e < edges.len() && edges[e] == arc;
        let all = es.push(e);
        assert forall|i: int| 0 <= i < all.len() implies 0 <= #[trigger] all[i] < edges.len()
            && edges[all[i]] == (p[i], p[i + 1]) by {
            if i < es.len() {
                assert(all[i] == es[i]);
                assert(front[i] == p[i] && front[i + 1] == p[i + 1]);
            }
        }
        all
    }
}

/// Cycle-edge soundness: an edge whose source can be reached from its target
/// is an edge of some simple directed cycle.
#[verifier::rlimit(50)]
pub proof fn lemma_cycle_edge_on_simple_cycle(edges: Seq<(int, int)>, e: int)
    requires
        is_cycle_edge(edges, e),
    ensures
        on_simple_cycle(edges, e),
{
    let arcs = arcs_of(edges);
    let u = edges[e].0;
    let v = edges[e].1;
    let found_path = choose|p: Seq<int>| is_path(arcs, p) && p[0] == v && p.last() == u;
    let p = lemma_simple_path(arcs, found_path);
    let along = lemma_edges_along(edges, p);
    let es = seq![e] + along;
    assert(es[0] == e);
    assert forall|i: int| 0 <= i < es.len() implies 0 <= #[trigger] es[i] < edges.len() by {
        if i > 0 {
            assert(es[i] == along[i - 1]);
        }
    }
    assert forall|i: int| 1 <= i < es.len() implies edges[#[trigger] es[i]] == (p[i - 1], p[i]) by {
        assert(es[i] == along[i - 1]);
    }
    assert forall|i: int| 0 <= i < es.len() - 1 implies edges[#[trigger] es[i]].1
        == edges[es[i + 1]].0 by {
        assert(edges[es[i + 1]] == (p[i], p[i + 1]));
        if i > 0 {
            assert(edges[es[i]] == (p[i - 1], p[i]));
        }
    }
    assert(edges[es.last()].1 == edges[es[0]].0) by {
        if es.len() > 1 {
            assert(edges[es[es.len() - 1]] == (p[es.len() - 2], p[es.len() - 1]));
        }
    }
    assert forall|i: int, j: int|
        0 <= i < es.len() && 0 <= j < es.len() && i != j implies edges[#[trigger] es[i]].0
        != edges[#[trigger] es[j]].0 by {
        let si = if i == 0 {
            p.len() - 1
        } else {
            i - 1
        };
        let sj = if j == 0 {
            p.len() - 1
        } else {
            j - 1
        };
        if i > 0 {
            assert(edges[es[i]] == (p[i - 1], p[i]));
        }
        if j > 0 {
            assert(edges[es[j]] == (p[j - 1], p[j]));
        }
        assert(edges[es[i]].0 == p[si]);
        assert(edges[es[j]].0 == p[sj]);
        assert(si != sj);
    }
    assert(is_simple_edge_cycle(edges, es));
    assert(es.contains(e));
}

/// Following a cycle from the edge after `i` for `n` steps leads from the
/// end of edge `i` to the start of the edge `n` steps on.
#[verifier::rlimit(50)]
proof fn lemma_along_cycle(edges: Seq<(int, int)>, es: Seq<int>, i: int, n: nat)
    requires
        is_simple_edge_cycle(edges, es),
        0 <= i < es.len(),
    ensures
        reaches(arcs_of(edges), edges[es[i]].1, edges[es[(i + 1 + n) % (es.len() as int)]].0),
    decreases n,
{
    let arcs = arcs_of(edges);
    let k = es.len() as int;
    if n == 0 {
        let next = (i + 1) % k;
        if i + 1 < k {
            assert(next == i + 1) by (nonlinear_arith)
                requires
                    0 <= i + 1 < k,
                    next == (i + 1) % k,
            ;
        } else {
            assert(next == 0) by (nonlinear_arith)
                requires
                    i + 1 == k,
                    k > 0,
                    next == (i + 1) % k,
            ;
            assert(es[i] == es.last());
        }
        assert(edges[es[i]].1 == edges[es[next]].0);
        lemma_reaches_refl(arcs, edges[es[i]].1);
    } else {
        lemma_along_cycle(edges, es, i, (n - 1) as nat);
        let a = (i + n) % k;
        let b = (i + 1 + n) % k;
        assert(0 <= a < k && 0 <= b < k && (a + 1 < k ==> b == a + 1) && (a + 1 == k ==> b == 0))
            by (nonlinear_arith)
            requires
                k > 0,
                i >= 0,
                n > 0,
                a == (i + n) % k,
                b == (i + 1 + n) % k,
        ;
        assert(i + 1 + (n - 1) as nat == i + n);
        if a + 1 == k {
            assert(es[a] == es.last());
        }
        assert(edges[es[a]].1 == edges[es[b]].0);
        assert(arcs.contains((edges[es[a]].0, edges[es[a]].1))) by {
            assert(edges.contains(edges[es[a]]));
        }
        lemma_reaches_arc(arcs, edges[es[a]].0, edges[es[a]].1);
        lemma_reaches_trans(arcs, edges[es[i]].1, edges[es[a]].0, edges[es[b]].0);
    }
}

/// Cycle-edge completeness: the source of an edge of a simple directed cycle
/// can be reached from its target.
pub proof fn lemma_simple_cycle_edge_is_cycle_edge(edges: Seq<(int, int)>, e: int)
    requires
        on_simple_cycle(edges, e),
    ensures
        is_cycle_edge(edges, e),
{
    let es = choose|es: Seq<int>| is_simple_edge_cycle(edges, es) && #[trigger] es.contains(e);
    let i = choose|i: int| 0 <= i < es.len() && es[i] == e;
    let k = es.len() as int;
    lemma_along_cycle(edges, es, i, (k - 1) as nat);
    assert((i + 1 + (k - 1)) % k == i) by (nonlinear_arith)
        requires
            0 <= i < k,
    ;
}

/// A set of nodes that holds the first node of a path and is closed under
/// arcs holds every node of the path.
proof fn lemma_closed_set_holds_path(
    arcs: Set<(int, int)>,
    visited: Set<int>,
    p: Seq<int>,
    i: int,
)
    requires
        is_path(arcs, p),
        visited.contains(p[0]),
        forall|x: int, y: int|
            visited.contains(x) && #[trigger] arcs.contains((x, y)) ==> visited.contains(y),
        0 <= i < p.len(),
    ensures
        visited.contains(p[i]),
    decreases i,
{
    if i > 0 {
        lemma_closed_set_holds_path(arcs, visited, p, i - 1);
        assert(arcs.contains((p[i - 1], p[i - 1 + 1])));
    }
}

/// The node that a stack entry or a tree record with parent `pi` stands at.
spec fn entry_node(edges: Seq<(int, int)>, pt: Seq<PathTreeNode>, from: int, pi: Option<u32>) -> int {
    match pi {
        None => from,
        Some(j) => edges[pt[j as int].edge as int].1,
    }
}

/// The index, if there is one, is below `len`.
spec fn index_below(pi: Option<u32>, len: int) -> bool {
    match pi {
        None => true,
        Some(j) => j < len,
    }
}

/// Record `j` names an edge whose source was visited and is the node that
/// its parent stands at, and its parent comes before it.
spec fn record_ok(
    edges: Seq<(int, int)>,
    pt: Seq<PathTreeNode>,
    from: int,
    visited: Set<int>,
    j: int,
) -> bool {
    &&& pt[j].edge < edges.len()
    &&& index_below(pt[j].parent_index, j)
    &&& entry_node(edges, pt, from, pt[j].parent_index) == edges[pt[j].edge as int].0
    &&& visited.contains(edges[pt[j].edge as int].0)
}

/// Every record names an edge whose source was visited and is the node that
/// its parent stands at; parents come before children; no edge occurs twice.
spec fn tree_ok(edges: Seq<(int, int)>, pt: Seq<PathTreeNode>, from: int, visited: Set<int>) -> bool {
    &&& forall|j: int| 0 <= j < pt.len() ==> #[trigger] record_ok(edges, pt, from, visited, j)
    &&& forall|j1: int, j2: int|
        0 <= j1 < j2 < pt.len() ==> (#[trigger] pt[j1]).edge != (#[trigger] pt[j2]).edge
}

/// The edge of record `j` leaves a node that was visited later than the
/// node that the edge of its parent leaves.
spec fn record_timed(
    edges: Seq<(int, int)>,
    pt: Seq<PathTreeNode>,
    time: spec_fn(int) -> int,
    j: int,
) -> bool {
    match pt[j].parent_index {
        None => true,
        Some(p) => time(edges[pt[p as int].edge as int].0) < time(edges[pt[j].edge as int].0),
    }
}

/// Up the tree the nodes were visited earlier and earlier.
spec fn tree_timed(edges: Seq<(int, int)>, pt: Seq<PathTreeNode>, time: spec_fn(int) -> int) -> bool {
    forall|j: int| 0 <= j < pt.len() ==> #[trigger] record_timed(edges, pt, time, j)
}

/// The entry names a node of the graph, or is the first entry of a search
/// from the node searched for, and its node is where its tree record leads.
spec fn entry_ok(
    edges: Seq<(int, int)>,
    pt: Seq<PathTreeNode>,
    from: int,
    to: int,
    n: nat,
    entry: (u32, Option<u32>),
) -> bool {
    &&& entry.0 < n || (entry.0 == to && entry.1.is_none())
    &&& index_below(entry.1, pt.len() as int)
    &&& entry_node(edges, pt, from, entry.1) == entry.0
}

/// Every entry of the stack is in order.
spec fn stack_ok(
    edges: Seq<(int, int)>,
    pt: Seq<PathTreeNode>,
    from: int,
    to: int,
    n: nat,
    stack: Seq<(u32, Option<u32>)>,
) -> bool {
    forall|k: int| 0 <= k < stack.len() ==> entry_ok(edges, pt, from, to, n, #[trigger] stack[k])
}

/// Node `y` waits on the stack.
spec fn on_stack(stack: Seq<(u32, Option<u32>)>, y: int) -> bool {
    exists|k: int| 0 <= k < stack.len() && (#[trigger] stack[k]).0 == y
}

/// Every arc that leaves a visited node other than `except` ends at a
/// visited node or at a node that waits on the stack.
spec fn frontier_closed(
    arcs: Set<(int, int)>,
    visited: Set<int>,
    stack: Seq<(u32, Option<u32>)>,
    except: int,
) -> bool {
    forall|x: int, y: int|
        visited.contains(x) && x != except && #[trigger] arcs.contains((x, y))
            ==> visited.contains(y) || on_stack(stack, y)
}

/// The nodes of the graph that have not been visited.
spec fn unvisited(n: nat, visited: Set<int>) -> Set<int> {
    set_int_range(0, n as int).difference(visited)
}

/// Records with pairwise different edges of a graph are no more than the
/// graph has edges.
proof fn lemma_tree_len(edges: Seq<(int, int)>, pt: Seq<PathTreeNode>, from: int, visited: Set<int>)
    requires
        tree_ok(edges, pt, from, visited),
    ensures
        pt.len() <= edges.len(),
{
    let ids = Seq::new(pt.len(), |j: int| pt[j].edge as int);
    assert(ids.no_duplicates()) by {
        assert forall|a: int, b: int| 0 <= a < ids.len() && 0 <= b < ids.len() && a != b implies ids[a]
            != ids[b] by {
            if a < b {
                assert(pt[a].edge != pt[b].edge);
            } else {
                assert(pt[b].edge != pt[a].edge);
            }
        }
    }
    ids.unique_seq_to_set();
    let all = set_int_range(0, edges.len() as int);
    vstd::set_lib::lemma_int_range(0, edges.len() as int);
    assert(ids.to_set().subset_of(all)) by {
        assert forall|x: int| ids.to_set().contains(x) implies all.contains(x) by {
            let j = choose|j: int| 0 <= j < ids.len() && ids[j] == x;
            assert(record_ok(edges, pt, from, visited, j));
        }
    }
    vstd::set_lib::lemma_len_subset(ids.to_set(), all);
}

/// Appending a record keeps the tree in order when the new edge leaves a
/// visited node at which the record's parent stands and occurs in no record
/// yet.
proof fn lemma_tree_push(
    edges: Seq<(int, int)>,
    pt: Seq<PathTreeNode>,
    from: int,
    visited: Set<int>,
    record: PathTreeNode,
)
    requires
        tree_ok(edges, pt, from, visited),
        record.edge < edges.len(),
        index_below(record.parent_index, pt.len() as int),
        entry_node(edges, pt, from, record.parent_index) == edges[record.edge as int].0,
        visited.contains(edges[record.edge as int].0),
        forall|j: int| 0 <= j < pt.len() ==> (#[trigger] pt[j]).edge != record.edge,
    ensures
        tree_ok(edges, pt.push(record), from, visited),
{
    let pt2 = pt.push(record);
    assert forall|j: int| 0 <= j < pt2.len() implies #[trigger] record_ok(
        edges,
        pt2,
        from,
        visited,
        j,
    ) by {
        if j < pt.len() {
            assert(record_ok(edges, pt, from, visited, j));
            assert(pt2[j] == pt[j]);
            match pt[j].parent_index {
                None => {},
                Some(k) => {
                    assert(pt2[k as int] == pt[k as int]);
                },
            }
        } else {
            match record.parent_index {
                None => {},
                Some(k) => {
                    assert(pt2[k as int] == pt[k as int]);
                },
            }
        }
    }
    assert forall|j1: int, j2: int| 0 <= j1 < j2 < pt2.len() implies (#[trigger] pt2[j1]).edge != (
    #[trigger] pt2[j2]).edge by {
        assert(pt2[j1] == pt[j1]);
        if j2 < pt.len() {
            assert(pt2[j2] == pt[j2]);
        }
    }
}

/// Records added at the end leave the stack entries in order.
proof fn lemma_stack_tree_push(
    edges: Seq<(int, int)>,
    pt: Seq<PathTreeNode>,
    from: int,
    to: int,
    n: nat,
    stack: Seq<(u32, Option<u32>)>,
    record: PathTreeNode,
)
    requires
        stack_ok(edges, pt, from, to, n, stack),
    ensures
        stack_ok(edges, pt.push(record), from, to, n, stack),
{
    let pt2 = pt.push(record);
    assert forall|k: int| 0 <= k < stack.len() implies entry_ok(
        edges,
        pt2,
        from,
        to,
        n,
        #[trigger] stack[k],
    ) by {
        assert(entry_ok(edges, pt, from, to, n, stack[k]));
        match stack[k].1 {
            None => {},
            Some(j) => {
                assert(pt2[j as int] == pt[j as int]);
            },
        }
    }
}

/// A node that waits on the stack, or is pushed, waits on it afterwards.
proof fn lemma_on_stack_push(stack: Seq<(u32, Option<u32>)>, entry: (u32, Option<u32>), y: int)
    requires
        on_stack(stack, y) || entry.0 == y,
    ensures
        on_stack(stack.push(entry), y),
{
    let st = stack.push(entry);
    if on_stack(stack, y) {
        let k = choose|k: int| 0 <= k < stack.len() && (#[trigger] stack[k]).0 == y;
        assert(st[k] == stack[k]);
    } else {
        assert(st[stack.len() as int] == entry);
    }
}

/// A node that waits on the stack still waits when the top is taken off,
/// unless it was the top.
proof fn lemma_on_stack_drop_last(stack: Seq<(u32, Option<u32>)>, y: int)
    requires
        stack.len() > 0,
        on_stack(stack, y),
    ensures
        on_stack(stack.drop_last(), y) || stack.last().0 == y,
{
    let k = choose|k: int| 0 <= k < stack.len() && (#[trigger] stack[k]).0 == y;
    if k < stack.len() - 1 {
        assert(stack.drop_last()[k] == stack[k]);
    }
}

/// A simple back walk whose edges leave visited nodes has fewer edges than
/// the graph has nodes when `to` is not among the visited nodes.
proof fn lemma_simple_walk_len(
    edges: Seq<(int, int)>,
    w: Seq<u32>,
    from: int,
    to: int,
    n: nat,
    visited: Set<int>,
)
    requires
        is_simple_back_walk(edges, w, from, to),
        w.len() > 0,
        0 <= to < n,
        visited.subset_of(set_int_range(0, n as int)),
        !visited.contains(to),
        forall|i: int| 0 <= i < w.len() ==> visited.contains(edges[(#[trigger] w[i]) as int].0),
    ensures
        w.len() < n,
{
    let sources = Seq::new(w.len(), |i: int| edges[w[i] as int].0);
    assert(sources.no_duplicates()) by {
        assert forall|a: int, b: int|
            0 <= a < sources.len() && 0 <= b < sources.len() && a != b implies sources[a]
            != sources[b] by {
            if a < b {
                assert(edges[w[a] as int].0 != edges[w[b] as int].0);
            } else {
                assert(edges[w[b] as int].0 != edges[w[a] as int].0);
            }
        }
    }
    sources.unique_seq_to_set();
    let all = set_int_range(0, n as int);
    vstd::set_lib::lemma_int_range(0, n as int);
    let others = all.remove(to);
    assert(sources.to_set().subset_of(others)) by {
        assert forall|x: int| sources.to_set().contains(x) implies others.contains(x) by {
            let i = choose|i: int| 0 <= i < sources.len() && sources[i] == x;
            assert(visited.contains(edges[w[i] as int].0));
        }
    }
    vstd::set_lib::lemma_len_subset(sources.to_set(), others);
}

impl<'a> TraversalSpace<'a> {
    /// The graph that the queries are about.
    pub closed spec fn graph(&self) -> DiGraph {
        *self.graph
    }

    /// The edges of that graph by index, each as `(source, target)`.
    pub open spec fn edges(&self) -> Seq<(int, int)> {
        graph_edges(self.graph())
    }

    /// How many nodes that graph has.
    pub open spec fn node_count(&self) -> nat {
        graph_node_count(self.graph())
    }

    /// The nodes visited in the search under way.
    spec fn visited(&self) -> Set<int> {
        visited_bits(self.discovered)
    }

    /// What holds of the working memory between two steps of a search.
    spec fn search_ok(&self, from: int, to: int, visited: Set<int>) -> bool {
        &&& visit_map_len(self.discovered) >= self.node_count()
        &&& self.edges().len() <= u32::MAX
        &&& self.visited() == visited
        &&& visited.subset_of(set_int_range(0, self.node_count() as int))
        &&& !visited.contains(to)
        &&& tree_ok(self.edges(), self.path_tree@, from, visited)
        &&& stack_ok(self.edges(), self.path_tree@, from, to, self.node_count(), self.stack@)
    }

    /// Working memory for queries on `graph`, empty until the first query.
    pub fn new(graph: &'a DiGraph) -> (s: Self)
        ensures
            s.graph() == *graph,
    {
        TraversalSpace {
            graph,
            stack: Vec::new(),
            discovered: visit_map_empty(),
            path_tree: Vec::new(),
        }
    }

    /// Empties the working memory for the next query.
    fn reset(&mut self)
        ensures
            final(self).graph() == old(self).graph(),
            final(self).stack@.len() == 0,
            final(self).path_tree@.len() == 0,
            final(self).visited() == Set::<int>::empty(),
            visit_map_len(final(self).discovered) >= final(self).node_count(),
    {
        self.stack.clear();
        visit_map_reset(self.graph, &mut self.discovered);
        self.path_tree.clear();
    }

    /// Follows the tree records from `path_index` up to the root and returns
    /// their edges. Up the tree every edge leaves a node visited earlier, so
    /// no two of them leave the same node.
    #[verifier::rlimit(50)]
    fn backtrack(
        &self,
        path_index: Option<u32>,
        Ghost(from): Ghost<int>,
        Ghost(to): Ghost<int>,
        Ghost(time): Ghost<spec_fn(int) -> int>,
    ) -> (r: Vec<u32>)
        requires
            tree_ok(self.edges(), self.path_tree@, from, self.visited()),
            tree_timed(self.edges(), self.path_tree@, time),
            !self.visited().contains(to),
            index_below(path_index, self.path_tree@.len() as int),
            entry_node(self.edges(), self.path_tree@, from, path_index) == to,
        ensures
            is_simple_back_walk(self.edges(), r@, from, to),
            forall|i: int|
                0 <= i < r@.len() ==> self.visited().contains(self.edges()[(#[trigger] r@[i]) as int].0),
    {
        let ghost edges = self.edges();
        let mut out: Vec<u32> = Vec::new();
        let mut cur: Option<u32> = path_index;
        loop
            invariant
                edges == self.edges(),
                tree_ok(edges, self.path_tree@, from, self.visited()),
                tree_timed(edges, self.path_tree@, time),
                !self.visited().contains(to),
                index_below(cur, self.path_tree@.len() as int),
                is_simple_back_walk(edges, out@, entry_node(edges, self.path_tree@, from, cur), to),
                forall|i: int|
                    0 <= i < out@.len() ==> self.visited().contains(edges[(#[trigger] out@[i]) as int].0),
                forall|i: int, j: int|
                    0 <= i < j < out@.len() ==> time(edges[(#[trigger] out@[i]) as int].0) > time(
                        edges[(#[trigger] out@[j]) as int].0,
                    ),
                cur.is_some() && out@.len() > 0 ==> time(edges[out@.last() as int].0) > time(
                    edges[self.path_tree@[cur.unwrap() as int].edge as int].0,
                ),
            decreases
                    match cur {
                        None => 0int,
                        Some(j) => j + 1,
                    },
        {
            match cur {
                None => {
                    return out;
                },
                Some(j) => {
                    let record = self.path_tree[j as usize];
                    let ghost before = out@;
                    proof {
                        assert(record_ok(edges, self.path_tree@, from, self.visited(), j as int));
                        assert(record_timed(edges, self.path_tree@, time, j as int));
                    }
                    out.push(record.edge);
                    proof {
                        let w = out@;
                        assert(w == before.push(record.edge));
                        assert forall|i: int, k: int| 0 <= i < k < w.len() implies time(
                            edges[(#[trigger] w[i]) as int].0,
                        ) > time(edges[(#[trigger] w[k]) as int].0) by {
                            assert(w[i] == before[i]);
                            if k < before.len() {
                                assert(w[k] == before[k]);
                            } else {
                                assert(before.last() == before[before.len() - 1]);
                                if i < before.len() - 1 {
                                    assert(time(edges[before[i] as int].0) > time(
                                        edges[before[before.len() - 1] as int].0,
                                    ));
                                }
                            }
                        }
                        assert forall|i: int| 0 <= i < w.len() implies edges[(#[trigger] w[i]) as int].0
                            != to && self.visited().contains(edges[w[i] as int].0) by {
                            if i < before.len() {
                                assert(w[i] == before[i]);
                            }
                        }
                        assert forall|i: int| 0 <= i < w.len() - 1 implies edges[(
                        #[trigger] w[i]) as int].0 == edges[w[i + 1] as int].1 by {
                            if i < before.len() - 1 {
                                assert(w[i] == before[i] && w[i + 1] == before[i + 1]);
                            } else {
                                assert(w[i] == before.last());
                            }
                        }
                        if before.len() > 0 {
                            assert(w[0] == before[0]);
                        }
                    }
                    cur = record.parent_index;
                },
            }
        }
    }

    /// Pushes every neighbor of the node just visited that has not been
    /// visited itself, each with a new tree record for the edge that leads to
    /// it.
    #[verifier::rlimit(50)]
    fn expand(
        &mut self,
        node: u32,
        path_index: Option<u32>,
        Ghost(from): Ghost<int>,
        Ghost(to): Ghost<int>,
        Ghost(before): Ghost<Set<int>>,
        Ghost(time): Ghost<spec_fn(int) -> int>,
    )
        requires
            tree_timed(old(self).edges(), old(self).path_tree@, time),
            match path_index {
                None => true,
                Some(p) => time(old(self).edges()[old(self).path_tree@[p as int].edge as int].0) < time(
                    node as int,
                ),
            },
            node < old(self).node_count(),
            node != to,
            !before.contains(node as int),
            old(self).search_ok(from, to, before.insert(node as int)),
            forall|j: int|
                0 <= j < old(self).path_tree@.len() ==> (#[trigger] old(self).path_tree@[j]).edge
                    < old(self).edges().len() && old(self).edges()[old(self).path_tree@[j].edge as int].0 != node,
            index_below(path_index, old(self).path_tree@.len() as int),
            entry_node(old(self).edges(), old(self).path_tree@, from, path_index) == node,
            frontier_closed(
                arcs_of(old(self).edges()),
                before.insert(node as int),
                old(self).stack@,
                node as int,
            ),
        ensures
            final(self).graph() == old(self).graph(),
            tree_timed(final(self).edges(), final(self).path_tree@, time),
            final(self).search_ok(from, to, before.insert(node as int)),
            frontier_closed(
                arcs_of(old(self).edges()),
                before.insert(node as int),
                final(self).stack@,
                -1,
            ),
            forall|y: int| on_stack(old(self).stack@, y) ==> on_stack(final(self).stack@, y),
    {
        let ghost edges = self.edges();
        let ghost arcs = arcs_of(edges);
        let ghost n = self.node_count();
        let ghost visited = before.insert(node as int);
        let ghost stack0 = self.stack@;
        let out_edges = graph_out_edges(self.graph, node);
        let mut i: usize = 0;
        while i < out_edges.len()
            invariant
                0 <= i <= out_edges@.len(),
                self.graph() == old(self).graph(),
                edges == self.edges(),
                arcs == arcs_of(edges),
                n == self.node_count(),
                visited == before.insert(node as int),
                stack0 == old(self).stack@,
                node < n,
                self.search_ok(from, to, visited),
                tree_timed(edges, self.path_tree@, time),
                match path_index {
                    None => true,
                    Some(p) => time(edges[self.path_tree@[p as int].edge as int].0) < time(node as int),
                },
                entry_node(edges, self.path_tree@, from, path_index) == node,
                index_below(path_index, self.path_tree@.len() as int),
                frontier_closed(arcs, visited, self.stack@, node as int),
                forall|y: int| on_stack(stack0, y) ==> on_stack(self.stack@, y),
                forall|k: int|
                    0 <= k < out_edges@.len() ==> (#[trigger] out_edges@[k]).0 < edges.len()
                        && edges[out_edges@[k].0 as int] == (node as int, out_edges@[k].1 as int)
                        && out_edges@[k].1 < n,
                forall|e: int|
                    0 <= e < edges.len() && (#[trigger] edges[e]).0 == node ==> exists|k: int|
                        0 <= k < out_edges@.len() && (#[trigger] out_edges@[k]).0 == e,
                forall|a: int, b: int|
                    0 <= a < b < out_edges@.len() ==> (#[trigger] out_edges@[a]).0 != (
                    #[trigger] out_edges@[b]).0,
                forall|k: int|
                    0 <= k < i ==> visited.contains((#[trigger] out_edges@[k]).1 as int)
                        || on_stack(self.stack@, out_edges@[k].1 as int),
                forall|j: int, k: int|
                    0 <= j < self.path_tree@.len() && i <= k < out_edges@.len() ==> (
                    #[trigger] self.path_tree@[j]).edge != (#[trigger] out_edges@[k]).0,
            decreases out_edges@.len() - i,
        {
            let (edge, neighbor) = out_edges[i];
            let ghost stack_before = self.stack@;
            let ghost tree_before = self.path_tree@;
            proof {
                assert(out_edges@[i as int].0 == edge);
            }
            if !visit_map_is_visited(&self.discovered, neighbor) {
                let record = PathTreeNode { edge, parent_index: path_index };
                proof {
                    lemma_tree_push(edges, tree_before, from, visited, record);
                    lemma_stack_tree_push(edges, tree_before, from, to, n, stack_before, record);
                    lemma_tree_len(edges, tree_before.push(record), from, visited);
                }
                self.path_tree.push(record);
                let record_index = (self.path_tree.len() - 1) as u32;
                self.stack.push((neighbor, Some(record_index)));
                proof {
                    let pt = self.path_tree@;
                    let st = self.stack@;
                    let entry = (neighbor, Some(record_index));
                    assert(st == stack_before.push(entry));
                    assert(pt[record_index as int] == record);
                    assert(entry_ok(edges, pt, from, to, n, entry));
                    assert forall|k: int| 0 <= k < st.len() implies entry_ok(
                        edges,
                        pt,
                        from,
                        to,
                        n,
                        #[trigger] st[k],
                    ) by {
                        if k < stack_before.len() {
                            assert(st[k] == stack_before[k]);
                        }
                    }
                    assert forall|y: int| on_stack(stack_before, y) implies on_stack(st, y) by {
                        lemma_on_stack_push(stack_before, entry, y);
                    }
                    lemma_on_stack_push(stack_before, entry, neighbor as int);
                    match path_index {
                        None => {},
                        Some(j) => {
                            assert(pt[j as int] == tree_before[j as int]);
                        },
                    }
                    assert forall|j: int| 0 <= j < pt.len() implies #[trigger] record_timed(
                        edges,
                        pt,
                        time,
                        j,
                    ) by {
                        if j < tree_before.len() {
                            assert(pt[j] == tree_before[j]);
                            assert(record_ok(edges, tree_before, from, visited, j));
                            assert(record_timed(edges, tree_before, time, j));
                            match tree_before[j].parent_index {
                                None => {},
                                Some(q) => {
                                    assert(pt[q as int] == tree_before[q as int]);
                                },
                            }
                        } else {
                            assert(pt[j] == record);
                        }
                    }
                    assert forall|j: int, k: int|
                        0 <= j < pt.len() && i + 1 <= k < out_edges@.len() implies (
                    #[trigger] pt[j]).edge != (#[trigger] out_edges@[k]).0 by {
                        if j < tree_before.len() {
                            assert(pt[j] == tree_before[j]);
                        } else {
                            assert(out_edges@[i as int].0 != out_edges@[k].0);
                        }
                    }
                }
            }
            i += 1;
        }
        proof {
            let st = self.stack@;
            assert forall|x: int, y: int|
                visited.contains(x) && x != -1 && #[trigger] arcs.contains(
                    (x, y),
                ) implies visited.contains(y) || on_stack(st, y) by {
                if x == node {
                    let e = choose|e: int| 0 <= e < edges.len() && edges[e] == (x, y);
                    assert(edges[e].0 == node);
                    let k = choose|k: int|
                        0 <= k < out_edges@.len() && (#[trigger] out_edges@[k]).0 == e;
                    assert(out_edges@[k].1 == y);
                }
            }
        }
    }

    /// Searches depth-first for a path from `from` to `to`. When there is one,
    /// returns the edges of one simple such path, from its last edge back to
    /// its first: no edge at all when `from` is `to`. When `to` cannot be
    /// reached, returns `None`.
    #[verifier::rlimit(50)]
    pub fn find_backtrack_edges(&mut self, from: u32, to: u32) -> (r: Option<Vec<u32>>)
        requires
            from < old(self).node_count() || from == to,
        ensures
            final(self).graph() == old(self).graph(),
            r.is_some() <==> reaches(arcs_of(old(self).edges()), from as int, to as int),
            r.is_some() ==> is_simple_back_walk(old(self).edges(), r.unwrap()@, from as int, to as int),
            r.is_some() ==> (r.unwrap()@.len() == 0 <==> from == to),
            r.is_some() && from != to ==> r.unwrap()@.len() < old(self).node_count(),
    {
        self.reset();
        // The search tree holds at most one record for each edge.
        self.path_tree.reserve(graph_count_edges(self.graph));
        self.stack.push((from, None));
        let ghost edges = self.edges();
        let ghost arcs = arcs_of(edges);
        let ghost n = self.node_count();
        let ghost time: spec_fn(int) -> int = |v: int| 0int;
        let ghost clock: int = 0;
        proof {
            assert(self.stack@[0] == (from, None::<u32>));
            assert(on_stack(self.stack@, from as int));
            assert(entry_ok(edges, self.path_tree@, from as int, to as int, n, self.stack@[0]));
            vstd::set_lib::lemma_int_range(0, n as int);
        }
        loop
            invariant
                self.graph() == old(self).graph(),
                edges == self.edges(),
                arcs == arcs_of(edges),
                n == self.node_count(),
                self.search_ok(from as int, to as int, self.visited()),
                tree_timed(edges, self.path_tree@, time),
                forall|v: int| self.visited().contains(v) ==> #[trigger] time(v) < clock,
                self.visited().contains(from as int) || on_stack(self.stack@, from as int),
                frontier_closed(arcs, self.visited(), self.stack@, -1),
                set_int_range(0, n as int).finite(),
            decreases unvisited(n, self.visited()).len(), self.stack@.len(),
        {
            let ghost visited0 = self.visited();
            let ghost stack0 = self.stack@;
            let (node, path_index) = match self.stack.pop() {
                Some(top) => top,
                None => {
                    proof {
                        assert forall|x: int, y: int|
                            visited0.contains(x) && #[trigger] arcs.contains(
                                (x, y),
                            ) implies visited0.contains(y) by {
                            assert(!on_stack(self.stack@, y));
                        }
                        assert(!on_stack(self.stack@, from as int));
                        if reaches(arcs, from as int, to as int) {
                            let p = choose|p: Seq<int>|
                                is_path(arcs, p) && p[0] == from && p.last() == to;
                            lemma_closed_set_holds_path(arcs, visited0, p, p.len() - 1);
                        }
                    }
                    return None;
                },
            };
            let ghost stack1 = self.stack@;
            proof {
                assert(stack0.last() == (node, path_index));
                assert(stack1 == stack0.drop_last());
                assert(entry_ok(edges, self.path_tree@, from as int, to as int, n, stack0.last()));
                assert forall|k: int| 0 <= k < stack1.len() implies entry_ok(
                    edges,
                    self.path_tree@,
                    from as int,
                    to as int,
                    n,
                    #[trigger] stack1[k],
                ) by {
                    assert(stack1[k] == stack0[k]);
                }
            }
            if node == to {
                let back = self.backtrack(
                    path_index,
                    Ghost(from as int),
                    Ghost(to as int),
                    Ghost(time),
                );
                proof {
                    lemma_back_walk_reaches(edges, back@, from as int, to as int);
                    if back@.len() > 0 {
                        assert(edges[back@[back@.len() - 1] as int].0 != to);
                        lemma_simple_walk_len(edges, back@, from as int, to as int, n, self.visited());
                    }
                }
                return Some(back);
            }
            let first = visit_map_visit(&mut self.discovered, node);
            if first {
                let ghost earlier = time;
                proof {
                    time = |v: int| if v == node { clock } else { earlier(v) };
                    clock = clock + 1;
                    assert forall|j: int| 0 <= j < self.path_tree@.len() implies #[trigger] record_timed(
                        edges,
                        self.path_tree@,
                        time,
                        j,
                    ) by {
                        assert(record_timed(edges, self.path_tree@, earlier, j));
                        assert(record_ok(edges, self.path_tree@, from as int, visited0, j));
                        match self.path_tree@[j].parent_index {
                            None => {},
                            Some(q) => {
                                assert(record_ok(edges, self.path_tree@, from as int, visited0, q as int));
                            },
                        }
                    }
                    match path_index {
                        None => {},
                        Some(q) => {
                            assert(record_ok(edges, self.path_tree@, from as int, visited0, q as int));
                        },
                    }
                    let visited1 = visited0.insert(node as int);
                    assert(unvisited(n, visited1) =~= unvisited(n, visited0).remove(node as int));
                    assert(unvisited(n, visited0).contains(node as int));
                    assert forall|j: int| 0 <= j < self.path_tree@.len() implies #[trigger] record_ok(
                        edges,
                        self.path_tree@,
                        from as int,
                        visited1,
                        j,
                    ) by {
                        assert(record_ok(edges, self.path_tree@, from as int, visited0, j));
                    }
                    assert forall|j: int| 0 <= j < self.path_tree@.len() implies (
                    #[trigger] self.path_tree@[j]).edge < edges.len()
                        && edges[self.path_tree@[j].edge as int].0 != node by {
                        assert(record_ok(edges, self.path_tree@, from as int, visited0, j));
                    }
                    assert forall|x: int, y: int|
                        visited1.contains(x) && x != node && #[trigger] arcs.contains(
                            (x, y),
                        ) implies visited1.contains(y) || on_stack(stack1, y) by {
                        if !visited0.contains(y) {
                            lemma_on_stack_drop_last(stack0, y);
                        }
                    }
                }
                self.expand(
                    node,
                    path_index,
                    Ghost(from as int),
                    Ghost(to as int),
                    Ghost(visited0),
                    Ghost(time),
                );
                proof {
                    if !visited0.contains(from as int) {
                        lemma_on_stack_drop_last(stack0, from as int);
                    }
                }
            } else {
                proof {
                    assert(self.visited() =~= visited0);
                    assert forall|x: int, y: int|
                        visited0.contains(x) && x != -1 && #[trigger] arcs.contains(
                            (x, y),
                        ) implies visited0.contains(y) || on_stack(stack1, y) by {
                        if !visited0.contains(y) {
                            lemma_on_stack_drop_last(stack0, y);
                        }
                    }
                    if !visited0.contains(from as int) {
                        lemma_on_stack_drop_last(stack0, from as int);
                    }
                }
            }
        }
    }

    /// The set of edges that lie on a directed cycle: every edge in it is an
    /// edge of some simple directed cycle of the graph, and every edge of a
    /// simple directed cycle is in it.
    #[verifier::rlimit(50)]
    pub fn find_edges_in_cycles(&mut self) -> (r: IdSet)
        ensures
            final(self).graph() == old(self).graph(),
            forall|e: u32| r@.contains(e) <==> is_cycle_edge(old(self).edges(), e as int),
            forall|e: u32| r@.contains(e) <==> on_simple_cycle(old(self).edges(), e as int),
    {
        let mut found = IdSet::new();
        let list = graph_edge_list(self.graph);
        let ghost edges = self.edges();
        let mut i: usize = 0;
        while i < list.len()
            invariant
                0 <= i <= list@.len(),
                self.graph() == old(self).graph(),
                edges == self.edges(),
                list@.len() == edges.len(),
                list@.len() <= u32::MAX,
                forall|e: int|
                    0 <= e < list@.len() ==> (#[trigger] list@[e]).0 == edges[e].0 && list@[e].1
                        == edges[e].1 && list@[e].0 < self.node_count() && list@[e].1
                        < self.node_count(),
                forall|e: u32| found@.contains(e) ==> is_cycle_edge(edges, e as int),
                forall|e: u32| e < i && is_cycle_edge(edges, e as int) ==> found@.contains(e),
            decreases list@.len() - i,
        {
            let (source, target) = list[i];
            let id = i as u32;
            if !found.contains(id) {
                match self.find_backtrack_edges(target, source) {
                    Some(back) => {
                        found.insert(id);
                        proof {
                            lemma_back_walk_reaches(edges, back@, target as int, source as int);
                        }
                        let mut k: usize = 0;
                        while k < back.len()
                            invariant
                                0 <= k <= back@.len(),
                                0 <= i < edges.len(),
                                id == i,
                                is_back_walk(edges, back@, edges[i as int].1, edges[i as int].0),
                                forall|e: u32| found@.contains(e) ==> is_cycle_edge(edges, e as int),
                                forall|e: u32|
                                    e <= i && is_cycle_edge(edges, e as int) ==> found@.contains(e),
                            decreases back@.len() - k,
                        {
                            proof {
                                lemma_back_walk_edges_in_cycle(edges, i as int, back@, k as int);
                            }
                            found.insert(back[k]);
                            k += 1;
                        }
                    },
                    None => {},
                }
            }
            i += 1;
        }
        proof {
            assert forall|e: u32| found@.contains(e) <==> on_simple_cycle(edges, e as int) by {
                if found@.contains(e) {
                    lemma_cycle_edge_on_simple_cycle(edges, e as int);
                }
                if on_simple_cycle(edges, e as int) {
                    lemma_simple_cycle_edge_is_cycle_edge(edges, e as int);
                }
            }
        }
        found
    }
}

} // verus!
