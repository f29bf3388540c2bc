//! Enumerates the simple directed cycles of a graph, after Johnson (1975).
//!
//! The graph is taken apart into strongly connected components. In each one
//! a depth-first search from a start node yields the cycles through that
//! node; then the start node is removed and what is left of the component is
//! taken apart again. The search state is kept between two cycles, so the
//! enumeration can be resumed.
use crate::algorithms::blocking::{at_most, weight, SearchModel};
use crate::algorithms::enumeration::{
    enumerates, is_rotation, lemma_cycle_in_component, within, within_set, Books,
};
use crate::graph::{
    arcs_of, arcs_without, components, concat_all, graph_count_edges, graph_count_nodes, graph_edge_list,
    graph_edges, graph_node_count, graph_scc, is_scc_list, stable_add_edge, stable_add_node,
    stable_arcs, stable_edge_count, stable_neighbors, stable_nodes, stable_remove_node,
    stable_scc, stable_with_capacity, DiGraph, SubGraph,
};
use crate::hash::{
    ordered_set_insert, ordered_set_is_empty, ordered_set_items, ordered_set_new, ordered_set_pop,
    BlockMap, IdMap, IdSet, OrderedSet,
};
use vstd::prelude::*;
use vstd::set_lib::set_int_range;

verus! {

/// `c` lists the nodes of a simple directed cycle in the order the cycle
/// visits them: no node twice, an arc from each node to the next and from
/// the last node back to the first. A single node with a self-loop counts.
pub open spec fn is_simple_cycle(arcs: Set<(int, int)>, c: Seq<u32>) -> bool {
    &&& c.len() > 0
    &&& c.no_duplicates()
    &&& forall|i: int|
        0 <= i < c.len() - 1 ==> #[trigger] arcs.contains((c[i] as int, c[i + 1] as int))
    &&& arcs.contains((c.last() as int, c[0] as int))
}

/// The search in one component. Its nodes are numbered anew; `node_map`
/// leads from the numbers of the whole graph to those of the component and
/// `reverse_node_map` back.
struct Search {
    subgraph: SubGraph,
    start_node: u32,
    path: Vec<u32>,
    stack: Vec<(u32, OrderedSet)>,
    blocked: IdSet,
    closed: IdSet,
    block: BlockMap,
    node_map: IdMap,
    reverse_node_map: IdMap,
    nodes: Ghost<Set<u32>>,
    lvl: Ghost<spec_fn(u32) -> int>,
    yielded: Ghost<Seq<Seq<u32>>>,
}

/// The successors of `node` in the component, each once.
#[verifier::rlimit(50)]
fn collect_neighbors(subgraph: &SubGraph, node: u32) -> (r: OrderedSet)
    ensures
        ordered_set_items(r).no_duplicates(),
        forall|k: int|
            0 <= k < ordered_set_items(r).len() ==> stable_arcs(*subgraph).contains(
                (node as int, #[trigger] ordered_set_items(r)[k] as int),
            ),
        forall|x: u32| #[trigger]
            stable_arcs(*subgraph).contains((node as int, x as int)) ==> ordered_set_items(
                r,
            ).contains(x),
{
    let targets = stable_neighbors(subgraph, node);
    let mut set = ordered_set_new();
    let mut i: usize = 0;
    while i < targets.len()
        invariant
            0 <= i <= targets@.len(),
            ordered_set_items(set).no_duplicates(),
            forall|k: int|
                0 <= k < targets@.len() ==> stable_arcs(*subgraph).contains(
                    (node as int, #[trigger] targets@[k] as int),
                ),
            forall|k: int|
                0 <= k < ordered_set_items(set).len() ==> stable_arcs(*subgraph).contains(
                    (node as int, #[trigger] ordered_set_items(set)[k] as int),
                ),
            forall|k: int| 0 <= k < i ==> ordered_set_items(set).contains(#[trigger] targets@[k]),
        decreases targets@.len() - i,
    {
        let ghost before = ordered_set_items(set);
        ordered_set_insert(&mut set, targets[i]);
        proof {
            let after = ordered_set_items(set);
            assert forall|k: int| 0 <= k < i + 1 implies after.contains(#[trigger] targets@[k]) by {
                if k < i {
                    let j = choose|j: int| 0 <= j < before.len() && before[j] == targets@[k];
                    assert(after[j] == targets@[k]);
                } else if before.contains(targets@[k]) {
                } else {
                    assert(after[before.len() as int] == targets@[k]);
                }
            }
            assert forall|k: int| 0 <= k < after.len() implies stable_arcs(*subgraph).contains(
                (node as int, #[trigger] after[k] as int),
            ) by {
                if k < before.len() {
                    assert(after[k] == before[k]);
                }
            }
            if !before.contains(targets@[i as int]) {
                assert forall|a: int, b: int|
                    0 <= a < after.len() && 0 <= b < after.len() && a != b implies after[a]
                    != after[b] by {
                    if a < before.len() && b < before.len() {
                    } else if a < before.len() {
                        assert(before[a] == after[a]);
                    } else {
                        assert(before[b] == after[b]);
                    }
                }
            }
        }
        i += 1;
    }
    proof {
        let items = ordered_set_items(set);
        assert forall|x: u32| #[trigger]
            stable_arcs(*subgraph).contains((node as int, x as int)) implies items.contains(x) by {
            assert(targets@.contains(x));
            let k = choose|k: int| 0 <= k < targets@.len() && targets@[k] == x;
            assert(items.contains(targets@[k]));
        }
    }
    set
}

impl Search {
    /// The successors that wait on each frame of the stack.
    spec fn remaining(&self) -> Seq<Seq<u32>> {
        Seq::new(self.stack@.len(), |i: int| ordered_set_items(self.stack@[i].1))
    }

    /// The search as plain values.
    spec fn model(&self) -> SearchModel {
        SearchModel {
            nodes: self.nodes@,
            arcs: stable_arcs(self.subgraph),
            start: self.start_node,
            path: self.path@,
            remaining: self.remaining(),
            blocked: self.blocked@,
            closed: self.closed@,
            block: self.block@,
            lvl: self.lvl@,
            yielded: self.yielded@,
        }
    }

    /// The nodes of the whole graph that the nodes of `c` stand for.
    spec fn mapped(&self, c: Seq<u32>) -> Seq<u32> {
        Seq::new(c.len(), |i: int| self.reverse_node_map@[c[i]])
    }

    /// The component is a part of the graph with the arcs `arcs`: its nodes
    /// stand for different nodes of the graph and its arcs for arcs of the
    /// graph.
    spec fn maps_ok(&self, arcs: Set<(int, int)>) -> bool {
        &&& forall|v: u32| #[trigger]
            self.nodes@.contains(v) <==> stable_nodes(self.subgraph).contains(v as int)
        &&& forall|v: u32| #[trigger]
            self.nodes@.contains(v) ==> self.reverse_node_map@.contains_key(v)
        &&& forall|a: u32, b: u32|
            self.nodes@.contains(a) && self.nodes@.contains(b) && a != b
                ==> #[trigger] self.reverse_node_map@[a] != #[trigger] self.reverse_node_map@[b]
        &&& forall|a: u32, b: u32| #[trigger]
            stable_arcs(self.subgraph).contains((a as int, b as int)) ==> arcs.contains(
                (self.reverse_node_map@[a] as int, self.reverse_node_map@[b] as int),
            )
        &&& forall|v: u32| #[trigger]
            self.nodes@.contains(v) ==> self.node_map@.contains_key(self.reverse_node_map@[v])
                && self.node_map@[self.reverse_node_map@[v]] == v
        &&& forall|x: u32| #[trigger]
            self.node_map@.contains_key(x) ==> self.nodes@.contains(self.node_map@[x])
                && self.reverse_node_map@[self.node_map@[x]] == x
        &&& forall|x: u32, y: u32|
            self.node_map@.contains_key(x) && self.node_map@.contains_key(y) && #[trigger] arcs.contains(
                (x as int, y as int),
            ) ==> stable_arcs(self.subgraph).contains(
                (self.node_map@[x] as int, self.node_map@[y] as int),
            )
    }

    /// The stack and the path go together and the blocking discipline holds.
    spec fn wf(&self, arcs: Set<(int, int)>) -> bool {
        &&& self.maps_ok(arcs)
        &&& self.model().full_inv()
        &&& self.linked()
    }

    /// Everything but the blocked nodes and the waiting sets is as in
    /// `other`.
    spec fn same_but_blocking(&self, other: &Self) -> bool {
        &&& self.subgraph == other.subgraph
        &&& self.start_node == other.start_node
        &&& self.path == other.path
        &&& self.stack == other.stack
        &&& self.closed == other.closed
        &&& self.node_map == other.node_map
        &&& self.reverse_node_map == other.reverse_node_map
        &&& self.nodes == other.nodes
        &&& self.lvl == other.lvl
        &&& self.yielded == other.yielded
    }

    /// Sets `node` free if it is blocked, and with it every blocked node
    /// that waits for a node set free: exactly the nodes that `node` sets
    /// free leave the blocked nodes, their waiting sets are emptied, and
    /// nothing else changes.
    #[verifier::rlimit(50)]
    fn unblock(&mut self, node: u32)
        requires
            old(self).blocked@.finite(),
        ensures
            final(self).same_but_blocking(old(self)),
            final(self).blocked@.finite(),
            old(self).model().unblocked(node, final(self).model()),
            !old(self).blocked@.contains(node) ==> final(self).blocked@ == old(self).blocked@ && forall|
                v: u32,
            | #[trigger]
                final(self).model().block_of(v) == old(self).model().block_of(v),
    {
        let ghost start = self.model();
        let mut work = ordered_set_new();
        ordered_set_insert(&mut work, node);
        proof {
            start.lemma_cascade_start(node);
            assert(ordered_set_items(work) =~= seq![node]);
        }
        loop
            invariant
                self.same_but_blocking(old(self)),
                start == old(self).model(),
                self.blocked@.finite(),
                start.cascading(node, self.blocked@, self.block@, ordered_set_items(work)),
            decreases self.blocked@.len(), ordered_set_items(work).len(),
        {
            let ghost work0 = ordered_set_items(work);
            let ghost blocked0 = self.blocked@;
            let ghost block0 = self.block@;
            match ordered_set_pop(&mut work) {
                None => {
                    proof {
                        assert(work0 =~= Seq::<u32>::empty());
                        start.lemma_cascade_done(node, self.model());
                        if !start.blocked.contains(node) {
                            assert forall|v: u32| !start.frees(node, v) by {
                                start.lemma_frees_nothing(node, v);
                            }
                            assert(self.blocked@ =~= start.blocked);
                        }
                    }
                    return ;
                },
                Some(stack_node) => {
                    if self.blocked.remove(stack_node) {
                        let waiting: Vec<u32> = match self.block.get_mut(stack_node) {
                            Some(block_set) => block_set.drain(),
                            None => {
                                self.block.insert(stack_node, IdSet::new());
                                Vec::new()
                            },
                        };
                        let ghost rest = ordered_set_items(work);
                        let ghost cur0 = start.with_blocking(blocked0, block0);
                        proof {
                            assert(cur0.block_of(stack_node) == start.block_of(stack_node));
                            assert(waiting@.to_set() =~= start.block_of(stack_node));
                        }
                        let mut i: usize = 0;
                        while i < waiting.len()
                            invariant
                                0 <= i <= waiting@.len(),
                                forall|v: u32|
                                    rest.contains(v) ==> ordered_set_items(work).contains(v),
                                forall|k: int|
                                    0 <= k < i ==> ordered_set_items(work).contains(
                                        #[trigger] waiting@[k],
                                    ),
                                forall|v: u32|
                                    ordered_set_items(work).contains(v) ==> rest.contains(v)
                                        || waiting@.contains(v),
                            decreases waiting@.len() - i,
                        {
                            let ghost before = ordered_set_items(work);
                            ordered_set_insert(&mut work, waiting[i]);
                            proof {
                                let after = ordered_set_items(work);
                                assert forall|v: u32| before.contains(v) implies after.contains(v) by {
                                    let j = choose|j: int| 0 <= j < before.len() && before[j] == v;
                                    assert(after[j] == v);
                                }
                                if !before.contains(waiting@[i as int]) {
                                    assert(after[before.len() as int] == waiting@[i as int]);
                                }
                                assert forall|v: u32| after.contains(v) implies rest.contains(v)
                                    || waiting@.contains(v) by {
                                    let j = choose|j: int| 0 <= j < after.len() && after[j] == v;
                                    if j < before.len() {
                                        assert(before[j] == v);
                                        assert(before.contains(v));
                                    } else {
                                        assert(v == waiting@[i as int]);
                                    }
                                }
                            }
                            i += 1;
                        }
                        proof {
                            let work2 = ordered_set_items(work);
                            assert(rest == work0.drop_last());
                            assert forall|v: u32| #[trigger]
                                work2.contains(v) <==> work0.drop_last().contains(v)
                                    || start.block_of(work0.last()).contains(v) by {
                                if start.block_of(stack_node).contains(v) {
                                    assert(waiting@.to_set().contains(v));
                                    let k = choose|k: int|
                                        0 <= k < waiting@.len() && waiting@[k] == v;
                                    assert(work2.contains(waiting@[k]));
                                }
                                if waiting@.contains(v) {
                                    assert(waiting@.to_set().contains(v));
                                }
                            }
                            assert forall|v: u32| #[trigger]
                                start.with_blocking(blocked0.remove(work0.last()), self.block@).block_of(
                                    v,
                                ) == (if v == work0.last() {
                                    Set::empty()
                                } else {
                                    cur0.block_of(v)
                                }) by {}
                            start.lemma_cascade_free(node, blocked0, block0, work0, self.block@, work2);
                        }
                    } else {
                        proof {
                            assert(self.blocked@ =~= blocked0);
                            start.lemma_cascade_idle(node, blocked0, block0, work0);
                        }
                    }
                },
            }
        }
    }
}

impl Search {
    /// Everything but the search state proper is as in `other`.
    spec fn same_component(&self, other: &Self) -> bool {
        &&& self.subgraph == other.subgraph
        &&& self.start_node == other.start_node
        &&& self.node_map == other.node_map
        &&& self.reverse_node_map == other.reverse_node_map
        &&& self.nodes == other.nodes
    }

    /// The work left on the stack; every step of the search makes it smaller.
    spec fn weight(&self) -> nat {
        weight(self.remaining(), self.nodes@.len())
    }

    /// The nodes of the whole graph that the path stands for make a simple
    /// cycle once an arc leads from the top of the path back to the start
    /// node.
    proof fn lemma_path_is_cycle(&self, arcs: Set<(int, int)>, c: Seq<u32>)
        requires
            self.maps_ok(arcs),
            self.model().frames_ok(),
            self.path@.len() > 0,
            self.model().succ(self.path@.last(), self.start_node),
            c.len() == self.path@.len(),
            forall|k: int|
                0 <= k < c.len() ==> #[trigger] c[k] == self.reverse_node_map@[self.path@[k]],
        ensures
            is_simple_cycle(arcs, c),
    {
        let m0 = self.model();
        let rev = self.reverse_node_map@;
        assert forall|a: int, b: int| 0 <= a < c.len() && 0 <= b < c.len() && a != b implies c[a]
            != c[b] by {
            assert(m0.nodes.contains(m0.path[a]) && m0.nodes.contains(m0.path[b]));
            assert(m0.path[a] != m0.path[b]);
            assert(rev[m0.path[a]] != rev[m0.path[b]]);
        }
        assert forall|k: int| 0 <= k < c.len() - 1 implies #[trigger] arcs.contains(
            (c[k] as int, c[k + 1] as int),
        ) by {
            assert(m0.succ(m0.path[k], m0.path[k + 1]));
            assert(stable_arcs(self.subgraph).contains(
                (m0.path[k] as int, m0.path[k + 1] as int),
            ));
        }
        assert(m0.path[0] == m0.start);
        assert(stable_arcs(self.subgraph).contains((m0.path.last() as int, m0.path[0] as int)));
        assert(c.last() == rev[m0.path.last()]);
        assert(c[0] == rev[m0.path[0]]);
    }

    /// The cycle that the path makes once an arc leads from its top back to
    /// the start node, in the numbers of the whole graph; marks every node
    /// of the path closed.
    #[verifier::rlimit(50)]
    fn emit(&mut self, Ghost(arcs): Ghost<Set<(int, int)>>) -> (r: Vec<u32>)
        requires
            old(self).maps_ok(arcs),
            old(self).model().frames_ok(),
            old(self).path@.len() > 0,
            old(self).model().succ(old(self).path@.last(), old(self).start_node),
        ensures
            final(self).same_component(old(self)),
            final(self).stack == old(self).stack,
            final(self).path == old(self).path,
            final(self).blocked == old(self).blocked,
            final(self).block == old(self).block,
            final(self).lvl == old(self).lvl,
            final(self).yielded == old(self).yielded,
            forall|v: u32|
                final(self).closed@.contains(v) <==> old(self).closed@.contains(v) || old(self).path@.contains(v),
            is_simple_cycle(arcs, r@),
            r@ == old(self).mapped(old(self).path@),
    {
        let ghost m0 = self.model();
        let mut out_path: Vec<u32> = Vec::with_capacity(self.path.len());
        let mut i: usize = 0;
        while i < self.path.len()
            invariant
                0 <= i <= self.path@.len(),
                self.same_component(old(self)),
                self.stack == old(self).stack,
                self.path == old(self).path,
                self.blocked == old(self).blocked,
                self.block == old(self).block,
                self.lvl == old(self).lvl,
                self.yielded == old(self).yielded,
                m0 == old(self).model(),
                m0.frames_ok(),
                old(self).maps_ok(arcs),
                out_path@.len() == i,
                forall|k: int|
                    0 <= k < i ==> #[trigger] out_path@[k] == self.reverse_node_map@[self.path@[k]],
                forall|v: u32| m0.closed.contains(v) ==> #[trigger] self.closed@.contains(v),
                forall|k: int| 0 <= k < i ==> self.closed@.contains(#[trigger] self.path@[k]),
                forall|v: u32| #[trigger]
                    self.closed@.contains(v) ==> m0.closed.contains(v) || m0.path.contains(v),
            decreases self.path@.len() - i,
        {
            let n = self.path[i];
            proof {
                assert(m0.nodes.contains(m0.path[i as int]));
                assert(m0.path.contains(m0.path[i as int]));
            }
            let original = self.reverse_node_map.get(n).unwrap();
            out_path.push(original);
            self.closed.insert(n);
            i += 1;
        }
        proof {
            let m1 = self.model();
            assert forall|v: u32| m1.closed.contains(v) <==> m0.closed.contains(v)
                || m0.path.contains(v) by {
                if m0.path.contains(v) {
                    let k = choose|k: int| 0 <= k < m0.path.len() && m0.path[k] == v;
                    assert(self.closed@.contains(self.path@[k]));
                }
            }
            old(self).lemma_path_is_cycle(arcs, out_path@);
            assert(out_path@ =~= old(self).mapped(old(self).path@));
        }
        out_path
    }

    /// Makes `this_node`, the top of the path, wait for each of its
    /// successors.
    #[verifier::rlimit(50)]
    fn park(&mut self, this_node: u32)
        requires
            old(self).path@.len() > 0,
            this_node == old(self).path@.last(),
        ensures
            final(self).same_but_blocking(old(self)),
            final(self).blocked == old(self).blocked,
            forall|v: u32| #[trigger]
                final(self).model().block_of(v) == (if old(self).model().succ(this_node, v) {
                    old(self).model().block_of(v).insert(this_node)
                } else {
                    old(self).model().block_of(v)
                }),
    {
        let ghost m0 = self.model();
        let targets = stable_neighbors(&self.subgraph, this_node);
        let mut i: usize = 0;
        while i < targets.len()
            invariant
                0 <= i <= targets@.len(),
                self.same_but_blocking(old(self)),
                self.blocked == old(self).blocked,
                m0 == old(self).model(),
                forall|k: int| 0 <= k < targets@.len() ==> m0.succ(this_node, #[trigger] targets@[k]),
                forall|v: u32| #[trigger]
                    self.model().block_of(v) == (if exists|k: int|
                        0 <= k < i && targets@[k] == v {
                        m0.block_of(v).insert(this_node)
                    } else {
                        m0.block_of(v)
                    }),
            decreases targets@.len() - i,
        {
            let neighbor = targets[i];
            let ghost before = self.model();
            match self.block.get_mut(neighbor) {
                Some(block_neighbor) => {
                    block_neighbor.insert(this_node);
                },
                None => {
                    let mut block_neighbor = IdSet::new();
                    block_neighbor.insert(this_node);
                    self.block.insert(neighbor, block_neighbor);
                },
            }
            proof {
                let after = self.model();
                assert(after.block_of(neighbor) == before.block_of(neighbor).insert(this_node));
                assert forall|v: u32| #[trigger]
                    after.block_of(v) == (if exists|k: int| 0 <= k < i + 1 && targets@[k] == v {
                        m0.block_of(v).insert(this_node)
                    } else {
                        m0.block_of(v)
                    }) by {
                    if v == neighbor {
                        assert(targets@[i as int] == v);
                        assert(before.block_of(v).insert(this_node) =~= m0.block_of(v).insert(
                            this_node,
                        ));
                    } else {
                        assert(after.block_of(v) == before.block_of(v));
                        if exists|k: int| 0 <= k < i + 1 && targets@[k] == v {
                            let k = choose|k: int| 0 <= k < i + 1 && targets@[k] == v;
                            assert(k < i);
                        }
                    }
                }
            }
            i += 1;
        }
        proof {
            let after = self.model();
            assert forall|v: u32| #[trigger]
                after.block_of(v) == (if m0.succ(this_node, v) {
                    m0.block_of(v).insert(this_node)
                } else {
                    m0.block_of(v)
                }) by {
                if m0.succ(this_node, v) {
                    assert(targets@.contains(v));
                    let k = choose|k: int| 0 <= k < targets@.len() && targets@[k] == v;
                    assert(0 <= k < i && targets@[k] == v);
                } else {
                    if exists|k: int| 0 <= k < i && targets@[k] == v {
                        let k = choose|k: int| 0 <= k < i && targets@[k] == v;
                        assert(m0.succ(this_node, targets@[k]));
                    }
                }
            }
        }
    }

    /// The stack and the path go together.
    spec fn linked(&self) -> bool {
        &&& self.stack@.len() == self.path@.len()
        &&& forall|i: int| 0 <= i < self.stack@.len() ==> (#[trigger] self.stack@[i]).0 == self.path@[i]
    }

    /// Enters `next_node`, which was taken off the top frame and found not
    /// blocked.
    #[verifier::rlimit(50)]
    fn enter(&mut self, next_node: u32, Ghost(m0): Ghost<SearchModel>, Ghost(arcs): Ghost<
        Set<(int, int)>,
    >)
        requires
            old(self).maps_ok(arcs),
            old(self).linked(),
            m0.full_inv(),
            m0.path.len() > 0,
            m0.remaining.last().len() > 0,
            next_node == m0.remaining.last().last(),
            !m0.blocked.contains(next_node),
            old(self).model() == (SearchModel {
                remaining: m0.remaining.update(
                    m0.path.len() - 1,
                    m0.remaining.last().drop_last(),
                ),
                blocked: m0.blocked.insert(next_node),
                ..m0
            }),
        ensures
            final(self).wf(arcs),
            final(self).same_component(old(self)),
            final(self).yielded == old(self).yielded,
            weight(final(self).remaining(), final(self).nodes@.len()) < weight(
                m0.remaining,
                m0.nodes.len(),
            ),
    {
        let ghost depth = self.path@.len();
        let ghost m1 = self.model();
        self.path.push(next_node);
        let neighbors = collect_neighbors(&self.subgraph, next_node);
        let ghost rem = ordered_set_items(neighbors);
        self.stack.push((next_node, neighbors));
        self.closed.remove(next_node);
        let ghost m2 = self.model();
        proof {
            let k = m0.nodes.len();
            m0.lemma_full_frames();
            assert(self.maps_ok(arcs));
            assert(m2.remaining =~= m1.remaining.push(rem));
            assert(m2.path == m0.path.push(next_node));
            assert(m2.blocked == m0.blocked.insert(next_node));
            assert(m2.closed == m0.closed.remove(next_node));
            assert(m2.full_inv() && m2.frames_ok()) by {
                m0.lemma_push_full(m2, next_node, rem);
                m2.lemma_full_frames();
            }
            assert(weight(m2.remaining, k) < weight(m0.remaining, k)) by {
                crate::algorithms::blocking::lemma_distinct_within(m2.path, m2.nodes);
                assert forall|i: int| 0 <= i < rem.len() implies m2.nodes.contains(
                    #[trigger] rem[i],
                ) by {
                    assert(m2.succ(next_node, rem[i]));
                }
                crate::algorithms::blocking::lemma_distinct_within(rem, m2.nodes);
                crate::algorithms::blocking::lemma_weight_push(m0.remaining, k, rem);
            }
            assert(self.linked()) by {
                assert forall|i: int| 0 <= i < self.stack@.len() implies (
                #[trigger] self.stack@[i]).0 == self.path@[i] by {
                    if i < depth {
                        assert(self.stack@[i] == old(self).stack@[i]);
                    }
                }
            }
        }
    }

    /// Leaves `this_node`, the top of the path, whose successors have all
    /// been tried: sets it free when a cycle was found through it, makes it
    /// wait for its successors otherwise.
    #[verifier::rlimit(50)]
    fn leave(&mut self, this_node: u32, Ghost(arcs): Ghost<Set<(int, int)>>)
        requires
            old(self).wf(arcs),
            old(self).path@.len() > 0,
            this_node == old(self).path@.last(),
            old(self).remaining().last().len() == 0,
        ensures
            final(self).wf(arcs),
            final(self).same_component(old(self)),
            final(self).yielded == old(self).yielded,
            final(self).weight() < old(self).weight(),
    {
        let ghost m2 = self.model();
        let depth = self.stack.len();
        let ghost k = self.nodes@.len();
        proof {
            m2.lemma_full_frames();
            assert(m2.remaining.last() == m2.remaining[depth - 1]);
            crate::algorithms::blocking::lemma_weight_pop(m2.remaining, k);
        }
        if self.closed.contains(this_node) {
            self.unblock(this_node);
            let ghost freed = self.model();
            self.stack.pop();
            self.path.pop();
            self.lvl = Ghost(|v: u32| at_most((m2.lvl)(v), depth - 2));
            proof {
                let m3 = self.model();
                assert(m3.remaining =~= m2.remaining.drop_last());
                m2.lemma_unblocked_released(freed);
                assert(m2.released(m3)) by {
                    assert forall|v: u32| #[trigger] m3.block_of(v) == freed.block_of(v) by {}
                }
                m2.lemma_release_full(m3);
            }
        } else {
            self.park(this_node);
            let ghost parked = self.model();
            self.stack.pop();
            self.path.pop();
            self.lvl = Ghost(
                |v: u32|
                    if v == this_node {
                        depth - 2
                    } else {
                        at_most((m2.lvl)(v), depth - 2)
                    },
            );
            proof {
                let m3 = self.model();
                assert(m3.remaining =~= m2.remaining.drop_last());
                assert forall|v: u32| #[trigger]
                    m3.block_of(v) == (if m2.succ(m2.top(), v) {
                        m2.block_of(v).insert(m2.top())
                    } else {
                        m2.block_of(v)
                    }) by {
                    assert(m3.block_of(v) == parked.block_of(v));
                }
                m2.lemma_retire_full(m3);
            }
        }
        proof {
            assert forall|i: int| 0 <= i < self.stack@.len() implies (#[trigger] self.stack@[i]).0
                == self.path@[i] by {
                assert(self.stack@[i] == old(self).stack@[i]);
            }
        }
    }

    /// Yields the cycle that the path makes, the step back to the start
    /// node having been taken off the top frame.
    #[verifier::rlimit(50)]
    fn found(&mut self, Ghost(m0): Ghost<SearchModel>, Ghost(arcs): Ghost<Set<(int, int)>>) -> (r:
        Vec<u32>)
        requires
            old(self).maps_ok(arcs),
            old(self).linked(),
            m0.full_inv(),
            m0.path.len() > 0,
            m0.remaining.last().len() > 0,
            m0.remaining.last().last() == m0.start,
            old(self).model() == (SearchModel {
                remaining: m0.remaining.update(
                    m0.path.len() - 1,
                    m0.remaining.last().drop_last(),
                ),
                ..m0
            }),
        ensures
            final(self).wf(arcs),
            final(self).same_component(old(self)),
            is_simple_cycle(arcs, r@),
            final(self).yielded@ == old(self).yielded@.push(old(self).path@),
            r@ == final(self).mapped(old(self).path@),
            final(self).remaining() == old(self).remaining(),
            final(self).path == old(self).path,
            final(self).path@[0] == final(self).start_node,
            forall|i: int|
                0 <= i < final(self).path@.len() ==> final(self).closed@.contains(
                    #[trigger] final(self).path@[i],
                ),
            stable_arcs(final(self).subgraph).contains(
                (final(self).path@.last() as int, final(self).start_node as int),
            ),
    {
        let ghost m1 = self.model();
        proof {
            m0.lemma_full_frames();
            assert(m0.remaining[m0.path.len() - 1] == m0.remaining.last());
            assert(m0.succ(
                m0.path[m0.path.len() - 1],
                m0.remaining.last()[m0.remaining.last().len() - 1],
            ));
            assert(m1.frames_ok()) by {
                assert(m0.path[0] == m0.start);
                assert(m0.blocked.contains(m0.path[0]));
                m0.lemma_take(m1);
                reveal(SearchModel::inv);
            }
        }
        let out_path = self.emit(Ghost(arcs));
        self.yielded = Ghost(self.yielded@.push(self.path@));
        proof {
            let m2 = self.model();
            assert(self.maps_ok(arcs));
            assert(self.linked());
            assert(m2.same_graph(m0));
            assert(m2.path == m0.path);
            assert(m2.remaining == m1.remaining);
            assert(m2.blocked == m0.blocked);
            assert(m2.block == m0.block);
            assert(m2.lvl == m0.lvl);
            assert(m2.yielded == m0.yielded.push(m0.path));
            assert forall|v: u32|
                m2.closed.contains(v) <==> m0.closed.contains(v) || m0.path.contains(v) by {}
            m0.lemma_cycle_full(m2);
            assert(self.remaining() == old(self).remaining());
            assert forall|i: int| 0 <= i < self.path@.len() implies self.closed@.contains(
                #[trigger] self.path@[i],
            ) by {
                assert(m0.path.contains(m0.path[i]));
            }
            assert(m0.succ(m0.path.last(), m0.start));
        }
        out_path
    }

    /// Runs the search on until it finds the next cycle through the start
    /// node, or until the stack is empty. A cycle found is the path as it
    /// is left, from the start node to a node with an arc back to it, given
    /// in the numbers of the whole graph; every node of it is then closed.
    /// When none is found, the stack and the path are left empty.
    #[verifier::rlimit(50)]
    fn process_stack(&mut self, Ghost(arcs): Ghost<Set<(int, int)>>) -> (r: Option<Vec<u32>>)
        requires
            old(self).wf(arcs),
        ensures
            final(self).wf(arcs),
            final(self).same_component(old(self)),
            final(self).weight() <= old(self).weight(),
            r.is_some() ==> is_simple_cycle(arcs, r.unwrap()@) && final(self).weight() < old(self).weight(),
            r.is_some() ==> final(self).yielded@.len() == old(self).yielded@.len() + 1 && final(self).yielded@.drop_last() == old(self).yielded@ && r.unwrap()@ == final(self).mapped(
                final(self).yielded@.last(),
            ),
            r.is_none() ==> final(self).stack@.len() == 0 && final(self).yielded == old(self).yielded,
            r.is_some() ==> final(self).path@.len() > 0 && final(self).path@ == final(self).yielded@.last()
                && final(self).path@[0] == final(self).start_node,
            r.is_some() ==> forall|i: int|
                0 <= i < final(self).path@.len() ==> final(self).closed@.contains(
                    #[trigger] final(self).path@[i],
                ),
            r.is_some() ==> stable_arcs(final(self).subgraph).contains(
                (final(self).path@.last() as int, final(self).start_node as int),
            ),
            r.is_none() ==> final(self).path@.len() == 0,
            final(self).stack@.len() == final(self).path@.len(),
            forall|i: int|
                0 <= i < final(self).stack@.len() ==> (#[trigger] final(self).stack@[i]).0
                    == final(self).path@[i],
    {
        loop
            invariant
                self.wf(arcs),
                self.same_component(old(self)),
                self.weight() <= old(self).weight(),
                self.yielded == old(self).yielded,
            decreases self.weight(),
        {
            let depth = self.stack.len();
            if depth == 0 {
                return None;
            }
            let ghost m0 = self.model();
            let ghost k = self.nodes@.len();
            let ghost linked0 = self.stack@;
            let this_node = self.stack[depth - 1].0;
            let next = ordered_set_pop(&mut self.stack[depth - 1].1);
            let ghost m1 = self.model();
            proof {
                assert(m0.remaining.last() == m0.remaining[depth - 1]);
                if next.is_some() {
                    assert(m1.remaining =~= m0.remaining.update(
                        depth - 1,
                        m0.remaining.last().drop_last(),
                    ));
                    crate::algorithms::blocking::lemma_weight_take(m0.remaining, k);
                } else {
                    assert(m1.remaining =~= m0.remaining);
                }
                assert(self.linked()) by {
                    assert forall|i: int| 0 <= i < self.stack@.len() implies (
                    #[trigger] self.stack@[i]).0 == self.path@[i] by {
                        assert(linked0[i].0 == self.path@[i]);
                    }
                }
            }
            match next {
                Some(next_node) => {
                    if next_node == self.start_node {
                        let ghost before = self.yielded@;
                        let out_path = self.found(Ghost(m0), Ghost(arcs));
                        proof {
                            assert(self.yielded@.drop_last() =~= before);
                        }
                        return Some(out_path);
                    } else if self.blocked.insert(next_node) {
                        self.enter(next_node, Ghost(m0), Ghost(arcs));
                        continue ;
                    } else {
                        proof {
                            assert(self.blocked@ =~= m0.blocked);
                            m0.lemma_skip_full(self.model());
                        }
                    }
                },
                None => {
                    proof {
                        assert(m1 == m0);
                    }
                },
            }
            if ordered_set_is_empty(&self.stack[depth - 1].1) {
                proof {
                    assert(self.remaining().last() == self.remaining()[depth - 1]);
                }
                self.leave(this_node, Ghost(arcs));
            }
        }
    }
}

impl Search {
    /// The components in the numbers of the whole graph.
    spec fn mapped_all(&self, comps: Seq<Seq<u32>>) -> Seq<Seq<u32>> {
        Seq::new(comps.len(), |k: int| self.mapped(comps[k]))
    }

    /// The nodes of the component that stand for the nodes of `c`.
    spec fn image(&self, c: Seq<u32>) -> Seq<u32> {
        Seq::new(c.len(), |i: int| self.node_map@[c[i]])
    }

    /// Every node of a cycle through the start node is a node of the
    /// component; in the numbers of the whole graph the cycle begins at the
    /// node that the start node stands for and lies within the component.
    proof fn lemma_mapped_cycle(&self, arcs: Set<(int, int)>, y: Seq<u32>)
        requires
            self.maps_ok(arcs),
            self.model().frames_ok(),
            self.model().is_start_cycle(y),
        ensures
            forall|i: int| 0 <= i < y.len() ==> self.nodes@.contains(#[trigger] y[i]),
            self.mapped(y).len() == y.len(),
            self.mapped(y)[0] == self.reverse_node_map@[self.start_node],
            forall|i: int|
                0 <= i < y.len() ==> self.node_map@.contains_key(#[trigger] self.mapped(y)[i]),
    {
        let m = self.model();
        assert forall|i: int| 0 <= i < y.len() implies self.nodes@.contains(#[trigger] y[i]) by {
            if i < y.len() - 1 {
                assert(m.succ(y[i], y[i + 1]));
            } else {
                assert(y[i] == y.last());
                assert(m.succ(y[i], m.start));
            }
        }
    }

    /// Cycles of the component that stand for the same cycle of the whole
    /// graph are the same.
    proof fn lemma_mapped_injective(&self, arcs: Set<(int, int)>, a: Seq<u32>, b: Seq<u32>)
        requires
            self.maps_ok(arcs),
            forall|i: int| 0 <= i < a.len() ==> self.nodes@.contains(#[trigger] a[i]),
            forall|i: int| 0 <= i < b.len() ==> self.nodes@.contains(#[trigger] b[i]),
            self.mapped(a) == self.mapped(b),
        ensures
            a == b,
    {
        assert(a.len() == b.len()) by {
            assert(self.mapped(a).len() == a.len());
            assert(self.mapped(b).len() == b.len());
        }
        assert forall|i: int| 0 <= i < a.len() implies a[i] == b[i] by {
            assert(self.mapped(a)[i] == self.reverse_node_map@[a[i]]);
            assert(self.mapped(b)[i] == self.reverse_node_map@[b[i]]);
            assert(self.nodes@.contains(a[i]) && self.nodes@.contains(b[i]));
        }
        assert(a =~= b);
    }

    /// A simple cycle of the whole graph that lies within the component is a
    /// simple cycle of the component.
    proof fn lemma_image_cycle(&self, arcs: Set<(int, int)>, c: Seq<u32>)
        requires
            self.maps_ok(arcs),
            is_simple_cycle(arcs, c),
            forall|i: int| 0 <= i < c.len() ==> self.node_map@.contains_key(#[trigger] c[i]),
        ensures
            is_simple_cycle(stable_arcs(self.subgraph), self.image(c)),
            self.mapped(self.image(c)) == c,
            forall|i: int|
                0 <= i < c.len() ==> self.nodes@.contains(#[trigger] self.image(c)[i])
                    && self.reverse_node_map@[self.image(c)[i]] == c[i],
    {
        let s = self.image(c);
        let sub = stable_arcs(self.subgraph);
        assert forall|i: int| 0 <= i < c.len() implies self.nodes@.contains(#[trigger] s[i])
            && self.reverse_node_map@[s[i]] == c[i] by {
            assert(self.node_map@.contains_key(c[i]));
        }
        assert forall|i: int, j: int| 0 <= i < s.len() && 0 <= j < s.len() && i != j implies s[i]
            != s[j] by {
            assert(self.reverse_node_map@[s[i]] == c[i]);
            assert(self.reverse_node_map@[s[j]] == c[j]);
            assert(c[i] != c[j]);
        }
        assert forall|i: int| 0 <= i < s.len() - 1 implies #[trigger] sub.contains(
            (s[i] as int, s[i + 1] as int),
        ) by {
            assert(arcs.contains((c[i] as int, c[i + 1] as int)));
            assert(self.node_map@.contains_key(c[i]) && self.node_map@.contains_key(c[i + 1]));
        }
        assert(sub.contains((s.last() as int, s[0] as int))) by {
            assert(arcs.contains((c.last() as int, c[0] as int)));
            assert(self.node_map@.contains_key(c[c.len() - 1]) && self.node_map@.contains_key(c[0]));
        }
        assert(self.mapped(s) =~= c);
    }
}

/// A set that is sent into another one without two of its members meeting
/// holds no more members than the other.
proof fn lemma_injection_bound(from: Set<u32>, to: Set<u32>, f: Map<u32, u32>)
    requires
        from.finite(),
        to.finite(),
        forall|v: u32| #[trigger] from.contains(v) ==> f.contains_key(v) && to.contains(f[v]),
        forall|a: u32, b: u32|
            from.contains(a) && from.contains(b) && a != b ==> #[trigger] f[a] != #[trigger] f[b],
    ensures
        from.len() <= to.len(),
    decreases from.len(),
{
    if from.len() > 0 {
        let v = from.choose();
        assert(from.contains(v));
        let from2 = from.remove(v);
        let to2 = to.remove(f[v]);
        assert forall|x: u32| #[trigger] from2.contains(x) implies f.contains_key(x) && to2.contains(
            f[x],
        ) by {
            assert(from.contains(x));
            assert(f[x] != f[v]);
        }
        lemma_injection_bound(from2, to2, f);
    }
}

/// Every node of a component is among the nodes of all components.
proof fn lemma_component_in_concat(comps: Seq<Seq<u32>>, i: int, j: int)
    requires
        0 <= i < comps.len(),
        0 <= j < comps[i].len(),
    ensures
        concat_all(comps).contains(comps[i][j]),
    decreases comps.len(),
{
    let all = concat_all(comps);
    let front = concat_all(comps.drop_last());
    if i == comps.len() - 1 {
        assert(all[front.len() + j] == comps[i][j]);
    } else {
        lemma_component_in_concat(comps.drop_last(), i, j);
        let k = choose|k: int| 0 <= k < front.len() && front[k] == comps[i][j];
        assert(all[k] == comps[i][j]);
    }
}

/// The lengths of the first `i + 1` components add up.
proof fn lemma_concat_take(comps: Seq<Seq<u32>>, i: int)
    requires
        0 <= i < comps.len(),
    ensures
        concat_all(comps.take(i + 1)).len() == concat_all(comps.take(i)).len() + comps[i].len(),
{
    assert(comps.take(i + 1).drop_last() =~= comps.take(i));
    assert(comps.take(i + 1).last() == comps[i]);
}

/// The part of `graph` that lies within `nodes`, its nodes numbered anew,
/// with the maps between the two numberings.
#[verifier::rlimit(50)]
fn build_subgraph(graph: &DiGraph, nodes: &Vec<u32>) -> (r: (
    SubGraph,
    IdMap,
    IdMap,
    Ghost<Set<u32>>,
))
    ensures
        r.3@.finite(),
        r.3@.len() <= nodes@.len(),
        forall|v: u32| #[trigger] r.3@.contains(v) <==> stable_nodes(r.0).contains(v as int),
        forall|a: u32, b: u32| #[trigger]
            stable_arcs(r.0).contains((a as int, b as int)) ==> r.3@.contains(a) && r.3@.contains(
                b,
            ) && arcs_of(graph_edges(*graph)).contains((r.2@[a] as int, r.2@[b] as int)),
        forall|v: u32| #[trigger]
            r.3@.contains(v) ==> r.2@.contains_key(v) && r.2@[v] < graph_node_count(*graph)
                && r.1@.contains_key(r.2@[v]) && r.1@[r.2@[v]] == v,
        forall|x: u32|
            nodes@.contains(x) && x < graph_node_count(*graph) ==> #[trigger] r.1@.contains_key(x)
                && r.3@.contains(r.1@[x]),
        forall|x: u32| #[trigger]
            r.1@.contains_key(x) ==> nodes@.contains(x) && r.3@.contains(r.1@[x]) && r.2@[r.1@[x]]
                == x,
        forall|x: u32, y: u32|
            r.1@.contains_key(x) && r.1@.contains_key(y) && #[trigger] arcs_of(
                graph_edges(*graph),
            ).contains((x as int, y as int)) ==> stable_arcs(r.0).contains(
                (r.1@[x] as int, r.1@[y] as int),
            ),
{
    let mut node_set = IdSet::new();
    let mut i: usize = 0;
    while i < nodes.len()
        invariant
            0 <= i <= nodes@.len(),
            forall|x: u32| node_set@.contains(x) <==> exists|k: int| 0 <= k < i && nodes@[k] == x,
        decreases nodes@.len() - i,
    {
        node_set.insert(nodes[i]);
        i += 1;
    }
    proof {
        assert forall|x: u32| node_set@.contains(x) <==> nodes@.contains(x) by {
            if nodes@.contains(x) {
                let k = choose|k: int| 0 <= k < nodes@.len() && nodes@[k] == x;
                assert(0 <= k < i && nodes@[k] == x);
            }
        }
    }
    let mut node_map = IdMap::new();
    let mut reverse_node_map = IdMap::new();
    let edge_count = graph_count_edges(graph);
    let mut out_graph = stable_with_capacity(nodes.len(), edge_count);
    let node_count = graph_count_nodes(graph);
    let ghost mut members: Set<u32> = Set::empty();
    let mut id: usize = 0;
    while id < node_count
        invariant
            0 <= id <= node_count <= u32::MAX,
            node_count == graph_node_count(*graph),
            forall|x: u32| node_set@.contains(x) <==> nodes@.contains(x),
            stable_nodes(out_graph).finite(),
            stable_nodes(out_graph).len() <= id,
            stable_arcs(out_graph) == Set::<(int, int)>::empty(),
            stable_edge_count(out_graph) == 0,
            members.finite(),
            forall|v: u32| #[trigger] members.contains(v) <==> stable_nodes(out_graph).contains(v as int),
            forall|v: u32| #[trigger]
                members.contains(v) ==> reverse_node_map@.contains_key(v) && reverse_node_map@[v]
                    < id && node_map@.contains_key(reverse_node_map@[v])
                    && node_map@[reverse_node_map@[v]] == v && nodes@.contains(reverse_node_map@[v]),
            forall|x: u32|
                #![trigger node_map@.contains_key(x)]
                #![trigger nodes@.contains(x)]
                nodes@.contains(x) && x < id ==> node_map@.contains_key(x),
            forall|x: u32| #[trigger]
                node_map@.contains_key(x) ==> x < id && members.contains(node_map@[x])
                    && reverse_node_map@[node_map@[x]] == x && nodes@.contains(x),
        decreases node_count - id,
    {
        let node_id = id as u32;
        if node_set.contains(node_id) {
            let ghost before = stable_nodes(out_graph);
            let ghost old_members = members;
            let ghost old_map = node_map@;
            let ghost old_reverse = reverse_node_map@;
            let new_node = stable_add_node(&mut out_graph).unwrap();
            node_map.insert(node_id, new_node);
            reverse_node_map.insert(new_node, node_id);
            proof {
                members = old_members.insert(new_node);
                assert(!old_members.contains(new_node));
                assert forall|v: u32| #[trigger]
                    members.contains(v) implies reverse_node_map@.contains_key(v)
                    && reverse_node_map@[v] < id + 1 && node_map@.contains_key(
                    reverse_node_map@[v],
                ) && node_map@[reverse_node_map@[v]] == v && nodes@.contains(
                    reverse_node_map@[v],
                ) by {
                    if v != new_node {
                        assert(old_members.contains(v));
                        assert(old_map.contains_key(old_reverse[v]));
                    }
                }
                assert forall|x: u32| nodes@.contains(x) && x < id + 1 implies node_map@.contains_key(
                    x,
                ) by {
                    if x != node_id {
                        assert(old_map.contains_key(x));
                    }
                }
                assert forall|x: u32| #[trigger] node_map@.contains_key(x) implies x < id + 1
                    && members.contains(node_map@[x]) && reverse_node_map@[node_map@[x]] == x
                    && nodes@.contains(x) by {
                    if x != node_id {
                        assert(old_map.contains_key(x));
                        assert(old_members.contains(old_map[x]));
                    }
                }
            }
        } else {
            proof {
                assert(!nodes@.contains(node_id));
            }
        }
        id += 1;
    }
    let list = graph_edge_list(graph);
    let ghost arcs = arcs_of(graph_edges(*graph));
    let mut e: usize = 0;
    while e < list.len()
        invariant
            0 <= e <= list@.len(),
            list@.len() == graph_edges(*graph).len(),
            list@.len() <= u32::MAX,
            arcs == arcs_of(graph_edges(*graph)),
            forall|k: int|
                0 <= k < list@.len() ==> (#[trigger] list@[k]).0 == graph_edges(*graph)[k].0
                    && list@[k].1 == graph_edges(*graph)[k].1,
            stable_edge_count(out_graph) <= e,
            members.finite(),
            forall|v: u32| #[trigger] members.contains(v) <==> stable_nodes(out_graph).contains(v as int),
            forall|v: u32| #[trigger]
                members.contains(v) ==> reverse_node_map@.contains_key(v) && reverse_node_map@[v]
                    < graph_node_count(*graph) && node_map@.contains_key(reverse_node_map@[v])
                    && node_map@[reverse_node_map@[v]] == v && nodes@.contains(reverse_node_map@[v]),
            forall|x: u32|
                #![trigger node_map@.contains_key(x)]
                #![trigger nodes@.contains(x)]
                nodes@.contains(x) && x < graph_node_count(*graph) ==> node_map@.contains_key(x),
            forall|x: u32| #[trigger]
                node_map@.contains_key(x) ==> members.contains(node_map@[x])
                    && reverse_node_map@[node_map@[x]] == x && nodes@.contains(x),
            forall|k: int|
                0 <= k < e && node_map@.contains_key((#[trigger] list@[k]).0)
                    && node_map@.contains_key(list@[k].1) ==> stable_arcs(out_graph).contains(
                    (node_map@[list@[k].0] as int, node_map@[list@[k].1] as int),
                ),
            forall|a: u32, b: u32| #[trigger]
                stable_arcs(out_graph).contains((a as int, b as int)) ==> members.contains(a)
                    && members.contains(b) && arcs.contains(
                    (reverse_node_map@[a] as int, reverse_node_map@[b] as int),
                ),
        decreases list@.len() - e,
    {
        let (source, target) = list[e];
        match node_map.get(source) {
            Some(new_source) => {
                match node_map.get(target) {
                    Some(new_target) => {
                        let ghost before = stable_arcs(out_graph);
                        let added = stable_add_edge(&mut out_graph, new_source, new_target);
                        proof {
                            assert(added.is_some());
                            assert(graph_edges(*graph).contains(graph_edges(*graph)[e as int]));
                            assert(arcs.contains((source as int, target as int)));
                            assert forall|a: u32, b: u32| #[trigger]
                                stable_arcs(out_graph).contains(
                                    (a as int, b as int),
                                ) implies members.contains(a) && members.contains(b)
                                && arcs.contains(
                                (reverse_node_map@[a] as int, reverse_node_map@[b] as int),
                            ) by {
                                if before.contains((a as int, b as int)) {
                                } else {
                                    assert(a == new_source && b == new_target);
                                }
                            }
                        }
                    },
                    None => {},
                }
            },
            None => {},
        }
        e += 1;
    }
    proof {
        assert forall|x: u32, y: u32|
            node_map@.contains_key(x) && node_map@.contains_key(y) && #[trigger] arcs.contains(
                (x as int, y as int),
            ) implies stable_arcs(out_graph).contains(
            (node_map@[x] as int, node_map@[y] as int),
        ) by {
            let edges = graph_edges(*graph);
            assert(edges.contains((x as int, y as int)));
            let k = choose|k: int| 0 <= k < edges.len() && edges[k] == (x as int, y as int);
            assert(list@[k].0 == x && list@[k].1 == y);
        }
        assert forall|a: u32, b: u32|
            members.contains(a) && members.contains(b) && a != b implies #[trigger] reverse_node_map@[a]
            != #[trigger] reverse_node_map@[b] by {
            assert(node_map@[reverse_node_map@[a]] == a);
            assert(node_map@[reverse_node_map@[b]] == b);
        }
        lemma_injection_bound(members, nodes@.to_set(), reverse_node_map@);
        nodes@.lemma_cardinality_of_set();
    }
    (out_graph, node_map, reverse_node_map, Ghost(members))
}

impl Search {
    /// A search of nothing, in a component without nodes.
    fn empty(Ghost(arcs): Ghost<Set<(int, int)>>) -> (s: Self)
        ensures
            s.wf(arcs),
            s.nodes@ == Set::<u32>::empty(),
            s.stack@.len() == 0,
            s.yielded@ == Seq::<Seq<u32>>::empty(),
            s.node_map@ == crate::hash::empty_id_map(),
    {
        let s = Search {
            subgraph: stable_with_capacity(0, 0),
            start_node: u32::MAX,
            path: Vec::new(),
            stack: Vec::new(),
            blocked: IdSet::new(),
            closed: IdSet::new(),
            block: BlockMap::new(),
            node_map: IdMap::new(),
            reverse_node_map: IdMap::new(),
            nodes: Ghost(Set::empty()),
            lvl: Ghost(|v: u32| 0int),
            yielded: Ghost(Seq::empty()),
        };
        proof {
            let m = s.model();
            reveal(SearchModel::inv);
            reveal(SearchModel::full_inv);
            assert forall|v: u32| #[trigger] m.block_of(v) == Set::<u32>::empty() by {}
            assert(m.escape_ok());
            assert(m.yielded_ok());
            assert(m.frames_ok());
            assert(m.closed_ok());
            assert(m.block_ok());
            assert(m.parked_ok());
            assert(m.stale_ok());
        }
        s
    }
}

/// The simple cycles of a graph, one at a time.
pub struct SimpleCycleIter<'a> {
    graph: &'a DiGraph,
    scc: Vec<Vec<u32>>,
    search: Search,
    found: Ghost<Seq<Seq<u32>>>,
    base: Ghost<nat>,
    dead: Ghost<Set<u32>>,
}

/// Starts the enumeration of the simple cycles of `graph`.
#[verifier::rlimit(50)]
pub fn find_simple_cycles<'a>(graph: &'a DiGraph) -> (cycles: SimpleCycleIter<'a>)
    ensures
        cycles.wf(),
        cycles.graph() == *graph,
        cycles.found() == Seq::<Seq<u32>>::empty(),
        graph_node_count(*graph) == 0 ==> cycles.exhausted(),
{
    let strongly_connected_components = graph_scc(graph);
    let ghost arcs = arcs_of(graph_edges(*graph));
    let cycles = SimpleCycleIter {
        graph,
        scc: strongly_connected_components,
        search: Search::empty(Ghost(arcs)),
        found: Ghost(Seq::empty()),
        base: Ghost(0),
        dead: Ghost(Set::empty()),
    };
    proof {
        let comps = components(cycles.scc);
        assert(cycles.live() =~= Set::<u32>::empty());
        cycles.books().lemma_start(set_int_range(0, graph_node_count(*graph) as int));
        assert forall|i: int, j: int|
            0 <= i < cycles.scc@.len() && 0 <= j < cycles.scc@[i]@.len() implies (
        #[trigger] cycles.scc@[i]@[j]) < graph_node_count(*graph) by {
            assert(comps[i][j] == cycles.scc@[i]@[j]);
            lemma_component_in_concat(comps, i, j);
        }
        assert forall|i: int| 0 <= i < cycles.scc@.len() implies (#[trigger] cycles.scc@[i])@.len()
            > 0 by {
            assert(comps[i].len() > 0);
        }
        if graph_node_count(*graph) == 0 && cycles.scc@.len() > 0 {
            assert(comps[0].len() > 0);
            lemma_component_in_concat(comps, 0, 0);
        }
    }
    cycles
}

impl<'a> SimpleCycleIter<'a> {
    /// The graph whose cycles are enumerated.
    pub closed spec fn graph(&self) -> DiGraph {
        *self.graph
    }

    /// The arcs of the graph.
    spec fn arcs(&self) -> Set<(int, int)> {
        arcs_of(graph_edges(*self.graph))
    }

    /// The state is one that `find_simple_cycles` and `next` lead to.
    pub closed spec fn wf(&self) -> bool {
        &&& self.search.wf(self.arcs())
        &&& self.search.nodes@.len() > 0 ==> self.search.nodes@.contains(self.search.start_node)
        &&& forall|v: u32| #[trigger]
            self.search.nodes@.contains(v) ==> self.search.reverse_node_map@[v] < graph_node_count(
                *self.graph,
            )
        &&& forall|i: int| 0 <= i < self.scc@.len() ==> (#[trigger] self.scc@[i])@.len() > 0
        &&& forall|i: int, j: int|
            0 <= i < self.scc@.len() && 0 <= j < self.scc@[i]@.len() ==> (
            #[trigger] self.scc@[i]@[j]) < graph_node_count(*self.graph)
        &&& self.tally_ok()
    }

    /// The cycles found so far, in the order they were found.
    pub closed spec fn found(&self) -> Seq<Seq<u32>> {
        self.found@
    }

    /// The nodes of the component being searched, in the numbers of the
    /// whole graph.
    spec fn live(&self) -> Set<u32> {
        Set::new(|x: u32| self.search.node_map@.contains_key(x))
    }

    /// The books of the enumeration.
    spec fn books(&self) -> Books {
        Books {
            arcs: self.arcs(),
            found: self.found@,
            base: self.base@,
            dead: self.dead@,
            waiting: components(self.scc),
            live: self.live(),
            start: self.search.reverse_node_map@[self.search.start_node],
        }
    }

    /// The books are in order, and the cycles found since the search under
    /// way began are the cycles that it found.
    spec fn tally_ok(&self) -> bool {
        &&& self.books().ok()
        &&& self.found@.len() == self.base@ + self.search.yielded@.len()
        &&& forall|j: int|
            0 <= j < self.search.yielded@.len() ==> #[trigger] self.found@[self.base@ + j]
                == self.search.mapped(self.search.yielded@[j])
    }

    /// Completeness of the enumeration: when nothing is left to enumerate,
    /// every simple cycle of the graph has been found, begun at one of its
    /// nodes.
    pub proof fn lemma_enumeration_complete(&self, c: Seq<u32>)
        requires
            self.wf(),
            self.exhausted(),
            is_simple_cycle(arcs_of(graph_edges(self.graph())), c),
        ensures
            exists|k: int| 0 <= k < self.found().len() && is_rotation(c, #[trigger] self.found()[k]),
    {
        assert(self.live() =~= Set::<u32>::empty()) by {
            assert forall|x: u32| !self.live().contains(x) by {
                if self.search.node_map@.contains_key(x) {
                    assert(self.search.nodes@.contains(self.search.node_map@[x]));
                }
            }
        }
        assert(components(self.scc) =~= Seq::<Seq<u32>>::empty());
        let books = self.books();
        assert(books.ok());
        assert(books.waiting.len() == 0);
        assert(books.live == Set::<u32>::empty());
        assert(is_simple_cycle(books.arcs, c));
        books.lemma_all_found(c);
        let k = choose|k: int| 0 <= k < books.found.len() && is_rotation(c, #[trigger] books.found[k]);
        assert(is_rotation(c, self.found()[k]));
    }

    /// Johnson completeness: when nothing is left to enumerate, the cycles
    /// found are the simple cycles of the graph, each found once.
    pub proof fn lemma_enumerates(&self)
        requires
            self.wf(),
            self.exhausted(),
        ensures
            enumerates(arcs_of(graph_edges(self.graph())), self.found()),
    {
        self.lemma_enumeration_sound();
        let arcs = arcs_of(graph_edges(self.graph()));
        assert forall|c: Seq<u32>| #[trigger] is_simple_cycle(arcs, c) implies exists|k: int|
            0 <= k < self.found().len() && is_rotation(c, #[trigger] self.found()[k]) by {
            self.lemma_enumeration_complete(c);
        }
    }

    /// Soundness of the enumeration: what was found are simple cycles of the
    /// graph, and no cycle was found twice, begun at the same node or at
    /// another.
    pub proof fn lemma_enumeration_sound(&self)
        requires
            self.wf(),
        ensures
            forall|k: int|
                0 <= k < self.found().len() ==> is_simple_cycle(
                    arcs_of(graph_edges(self.graph())),
                    #[trigger] self.found()[k],
                ),
            forall|j: int, k: int|
                0 <= j < self.found().len() && 0 <= k < self.found().len() && j != k
                    ==> !is_rotation(#[trigger] self.found()[j], #[trigger] self.found()[k]),
    {
        let books = self.books();
        assert(books.ok());
        books.lemma_found_once();
        assert(books.found == self.found());
        assert(books.arcs == arcs_of(graph_edges(self.graph())));
    }

    /// Twice the number of nodes in the components that wait to be searched
    /// and in the one being searched, less one for a search that has begun.
    /// Beginning a search and ending one make it smaller.
    pub closed spec fn pending(&self) -> nat {
        (2 * concat_all(components(self.scc)).len() + if self.search.nodes@.len() > 0 {
            2 * self.search.nodes@.len() - 1
        } else {
            0
        }) as nat
    }

    /// The work left in the search that has begun. Every step of it makes it
    /// smaller.
    pub closed spec fn steps(&self) -> nat {
        self.search.weight()
    }

    /// Nothing is left to enumerate.
    pub closed spec fn exhausted(&self) -> bool {
        &&& self.scc@.len() == 0
        &&& self.search.stack@.len() == 0
        &&& self.search.nodes@ == Set::<u32>::empty()
    }

    /// Ends the search of a component: takes its start node out, takes what
    /// is left of it apart into strongly connected components and puts those
    /// with the components that wait.
    #[verifier::rlimit(50)]
    fn retire_component(&mut self)
        requires
            old(self).wf(),
            old(self).search.stack@.len() == 0,
        ensures
            final(self).wf(),
            final(self).graph() == old(self).graph(),
            final(self).search.stack@.len() == 0,
            final(self).search.nodes@ == Set::<u32>::empty(),
            final(self).pending() <= old(self).pending(),
            old(self).search.nodes@.len() > 0 ==> final(self).pending() < old(self).pending(),
            old(self).search.nodes@ == Set::<u32>::empty() ==> final(self).scc@ == old(self).scc@,
            final(self).search.yielded@ == Seq::<Seq<u32>>::empty(),
            final(self).found() == old(self).found(),
    {
        let ghost nodes = self.search.nodes@;
        let ghost start = self.search.start_node;
        let ghost was = *self;
        let ghost old_comps = components(self.scc);
        let ghost base = concat_all(components(self.scc)).len();
        proof {
            self.search.model().lemma_full_frames();
        }
        let ghost old_scc = self.scc@;
        stable_remove_node(&mut self.search.subgraph, self.search.start_node);
        let sccs = stable_scc(&self.search.subgraph);
        let ghost comps = components(sccs);
        let ghost left = nodes.remove(start);
        let ghost subs = was.search.mapped_all(comps);
        proof {
            assert forall|v: u32| left.contains(v) <==> #[trigger] concat_all(comps).contains(v) by {
                assert(nodes.contains(v) <==> stable_nodes(old(self).search.subgraph).contains(
                    v as int,
                ));
            }
            assert(concat_all(comps).to_set() =~= left);
            concat_all(comps).unique_seq_to_set();
            assert(comps.take(0) =~= Seq::<Seq<u32>>::empty());
            if nodes == Set::<u32>::empty() && comps.len() > 0 {
                assert(comps[0].len() > 0);
                lemma_component_in_concat(comps, 0, 0);
            }
        }
        let mut i: usize = 0;
        while i < sccs.len()
            invariant
                0 <= i <= sccs@.len(),
                comps == components(sccs),
                self.graph == old(self).graph,
                self.search.reverse_node_map == old(self).search.reverse_node_map,
                nodes == old(self).search.nodes@,
                nodes.finite(),
                forall|v: u32| left.contains(v) <==> #[trigger] concat_all(comps).contains(v),
                forall|v: u32| left.contains(v) ==> nodes.contains(v),
                forall|v: u32| #[trigger]
                    nodes.contains(v) ==> self.search.reverse_node_map@.contains_key(v)
                        && self.search.reverse_node_map@[v] < graph_node_count(*self.graph),
                forall|k: int| 0 <= k < comps.len() ==> (#[trigger] comps[k]).len() > 0,
                forall|k: int| 0 <= k < self.scc@.len() ==> (#[trigger] self.scc@[k])@.len() > 0,
                forall|k: int, j: int|
                    0 <= k < self.scc@.len() && 0 <= j < self.scc@[k]@.len() ==> (
                    #[trigger] self.scc@[k]@[j]) < graph_node_count(*self.graph),
                concat_all(components(self.scc)).len() == base + concat_all(
                    comps.take(i as int),
                ).len(),
                nodes == Set::<u32>::empty() ==> self.scc@ == old_scc && sccs@.len() == 0,
                subs == was.search.mapped_all(comps),
                was.search.reverse_node_map == self.search.reverse_node_map,
                components(self.scc) == old_comps + subs.take(i as int),
                self.found == was.found,
                self.base == was.base,
                self.dead == was.dead,
            decreases sccs@.len() - i,
        {
            let component = &sccs[i];
            let mut original: Vec<u32> = Vec::with_capacity(component.len());
            let mut j: usize = 0;
            while j < component.len()
                invariant
                    0 <= j <= component@.len(),
                    0 <= i < sccs@.len(),
                    component@ == comps[i as int],
                    comps == components(sccs),
                    original@.len() == j,
                    forall|v: u32| left.contains(v) <==> #[trigger] concat_all(comps).contains(v),
                    forall|v: u32| left.contains(v) ==> nodes.contains(v),
                    forall|v: u32| #[trigger]
                        nodes.contains(v) ==> self.search.reverse_node_map@.contains_key(v)
                            && self.search.reverse_node_map@[v] < graph_node_count(*self.graph),
                    forall|k: int|
                        0 <= k < j ==> #[trigger] original@[k] < graph_node_count(*self.graph),
                    forall|k: int|
                        0 <= k < j ==> #[trigger] original@[k]
                            == self.search.reverse_node_map@[component@[k]],
                decreases component@.len() - j,
            {
                let n = component[j];
                proof {
                    lemma_component_in_concat(comps, i as int, j as int);
                    assert(left.contains(n));
                }
                original.push(self.search.reverse_node_map.get(n).unwrap());
                j += 1;
            }
            let ghost before = components(self.scc);
            self.scc.push(original);
            proof {
                let after = components(self.scc);
                assert(after.drop_last() =~= before);
                assert(after.last().len() == comps[i as int].len());
                lemma_concat_take(comps, i as int);
                assert(after.last() =~= subs[i as int]);
                assert(subs.take(i + 1) =~= subs.take(i as int).push(subs[i as int]));
                assert(after =~= before.push(after.last()));
                assert(after =~= old_comps + subs.take(i + 1));
            }
            i += 1;
        }
        proof {
            assert(comps.take(sccs@.len() as int) =~= comps);
            assert(subs.take(sccs@.len() as int) =~= subs);
        }
        let ghost start_path = was.search.reverse_node_map@[was.search.start_node];
        self.search = Search::empty(Ghost(self.arcs()));
        self.base = Ghost(self.found@.len());
        self.dead = Ghost(
            if nodes.contains(start) {
                was.dead@.insert(start_path)
            } else {
                was.dead@
            },
        );
        proof {
            Self::lemma_tally_retire(&was, self, comps);
        }
    }

    /// Begins the search of the component that waits last: builds the part
    /// of the graph that lies within it and enters the node that the
    /// component names last.
    #[verifier::rlimit(50)]
    fn begin_component(&mut self)
        requires
            old(self).wf(),
            old(self).search.stack@.len() == 0,
            old(self).search.nodes@ == Set::<u32>::empty(),
            old(self).search.yielded@ == Seq::<Seq<u32>>::empty(),
            old(self).scc@.len() > 0,
        ensures
            final(self).wf(),
            final(self).graph == old(self).graph,
            final(self).scc@ == old(self).scc@.drop_last(),
            0 < final(self).search.nodes@.len() <= old(self).scc@.last()@.len(),
            final(self).found() == old(self).found(),
    {
        let ghost was = *self;
        let scc = self.scc.pop().unwrap();
        let ghost arcs = self.arcs();
        let mut scc = scc;
        proof {
            assert(was.scc@[was.scc@.len() - 1] == scc);
            assert(scc@.len() > 0);
        }
        let (subgraph, node_map, reverse_node_map, nodes) = build_subgraph(self.graph, &scc);
        let ghost members = scc@;
        let last = scc.pop().unwrap();
        proof {
            assert(members[members.len() - 1] == last);
            assert(members.contains(last));
        }
        let start_node = node_map.get(last).unwrap();
        let first = collect_neighbors(&subgraph, start_node);
        let mut blocked = IdSet::new();
        blocked.insert(start_node);
        let mut path: Vec<u32> = Vec::new();
        path.push(start_node);
        let mut stack: Vec<(u32, OrderedSet)> = Vec::new();
        stack.push((start_node, first));
        self.search = Search {
            subgraph,
            start_node,
            path,
            stack,
            blocked,
            closed: IdSet::new(),
            block: BlockMap::new(),
            node_map,
            reverse_node_map,
            nodes,
            lvl: Ghost(|v: u32| 0int),
            yielded: Ghost(Seq::empty()),
        };
        proof {
            let m = self.search.model();
            assert(m.path =~= seq![m.start]);
            assert(m.blocked =~= set![m.start]);
            assert(m.remaining[0] == ordered_set_items(self.search.stack@[0].1));
            m.lemma_initial_full();
            assert(self.search.maps_ok(arcs)) by {
                assert forall|a: u32, b: u32|
                    self.search.nodes@.contains(a) && self.search.nodes@.contains(b) && a
                        != b implies #[trigger] self.search.reverse_node_map@[a]
                    != #[trigger] self.search.reverse_node_map@[b] by {
                    assert(self.search.node_map@[self.search.reverse_node_map@[a]] == a);
                    assert(self.search.node_map@[self.search.reverse_node_map@[b]] == b);
                }
            }
            assert(self.search.nodes@.len() > 0) by {
                if self.search.nodes@.len() == 0 {
                    assert(self.search.nodes@ =~= Set::<u32>::empty());
                }
            }
            assert forall|x: u32| self.search.node_map@.contains_key(x) <==> members.contains(
                x,
            ) by {
                if members.contains(x) {
                    let j = choose|j: int| 0 <= j < members.len() && members[j] == x;
                    assert(was.scc@[was.scc@.len() - 1]@[j] < graph_node_count(*self.graph));
                }
            }
            Self::lemma_tally_begin(&was, self);
        }
    }

    /// The next simple cycle, as the nodes it visits in order, or `None` when
    /// all have been returned.
    #[verifier::rlimit(50)]
    pub fn next(&mut self) -> (r: Option<Vec<u32>>)
        requires
            old(self).wf(),
        ensures
            final(self).wf(),
            final(self).graph() == old(self).graph(),
            r.is_some() ==> is_simple_cycle(arcs_of(graph_edges(old(self).graph())), r.unwrap()@),
            r.is_some() ==> final(self).pending() < old(self).pending() || (final(self).pending()
                == old(self).pending() && final(self).steps() < old(self).steps()),
            r.is_some() ==> final(self).found() == old(self).found().push(r.unwrap()@),
            r.is_none() ==> final(self).exhausted() && final(self).found() == old(self).found(),
            old(self).exhausted() ==> r.is_none(),
    {
        let ghost arcs = self.arcs();
        let ghost was = *self;
        match self.search.process_stack(Ghost(arcs)) {
            Some(res) => {
                self.found = Ghost(self.found@.push(res@));
                proof {
                    Self::lemma_tally_yield(&was, self, res@);
                }
                return Some(res);
            },
            None => {},
        }
        proof {
            assert(self.tally_ok()) by {
                assert(self.books() == was.books());
            }
        }
        self.retire_component();
        loop
            invariant
                self.wf(),
                self.graph == old(self).graph,
                arcs == self.arcs(),
                self.search.stack@.len() == 0,
                self.search.nodes@ == Set::<u32>::empty(),
                self.search.yielded@ == Seq::<Seq<u32>>::empty(),
                self.pending() <= old(self).pending(),
                self.found() == old(self).found(),
                old(self).exhausted() ==> self.scc@.len() == 0,
            decreases self.pending(),
        {
            if self.scc.len() == 0 {
                return None;
            }
            let ghost waiting = components(self.scc);
            self.begin_component();
            proof {
                assert(components(self.scc) =~= waiting.drop_last());
            }
            let ghost begun = *self;
            match self.search.process_stack(Ghost(arcs)) {
                Some(res) => {
                    self.found = Ghost(self.found@.push(res@));
                    proof {
                        Self::lemma_tally_yield(&begun, self, res@);
                    }
                    return Some(res);
                },
                None => {},
            }
            proof {
                assert(self.tally_ok()) by {
                    assert(self.books() == begun.books());
                }
            }
            self.retire_component();
        }
    }

    /// One more cycle found keeps the tally.
    #[verifier::rlimit(50)]
    proof fn lemma_tally_yield(before: &Self, after: &Self, res: Seq<u32>)
        requires
            before.wf(),
            after.graph == before.graph,
            after.scc == before.scc,
            after.base == before.base,
            after.dead == before.dead,
            after.found@ == before.found@.push(res),
            after.search.wf(before.arcs()),
            after.search.same_component(&before.search),
            after.search.yielded@.len() == before.search.yielded@.len() + 1,
            after.search.yielded@.drop_last() == before.search.yielded@,
            res == after.search.mapped(after.search.yielded@.last()),
            is_simple_cycle(before.arcs(), res),
        ensures
            after.tally_ok(),
    {
        let arcs = before.arcs();
        let b1 = before.books();
        let b2 = after.books();
        let ys = after.search.yielded@;
        let y = ys.last();
        let n = before.search.yielded@.len() as int;
        after.search.model().lemma_full_frames();
        after.search.model().lemma_yielded();
        assert(ys[n] == y);
        assert(after.search.model().is_start_cycle(y));
        after.search.lemma_mapped_cycle(arcs, y);
        assert(b2 == (Books { found: b1.found.push(res), ..b1 }));
        assert(res[0] == b1.start);
        assert(within_set(res, b1.live));
        assert forall|j: int| b1.base <= j < b1.found.len() implies #[trigger] b1.found[j]
            != res by {
            let k = j - b1.base;
            assert(before.found@[before.base@ + k] == before.search.mapped(
                before.search.yielded@[k],
            ));
            assert(ys[k] == before.search.yielded@[k]) by {
                assert(ys.drop_last()[k] == ys[k]);
            }
            assert(before.search.mapped(ys[k]) =~= after.search.mapped(ys[k]));
            if b1.found[j] == res {
                assert(after.search.model().is_start_cycle(ys[k]));
                after.search.lemma_mapped_cycle(arcs, ys[k]);
                after.search.lemma_mapped_injective(arcs, ys[k], y);
                assert(ys[k] != ys[n]);
            }
        }
        b1.lemma_yield(b2, res);
        assert forall|j: int| 0 <= j < ys.len() implies #[trigger] after.found@[after.base@ + j]
            == after.search.mapped(ys[j]) by {
            if j < n {
                assert(before.found@[before.base@ + j] == before.search.mapped(
                    before.search.yielded@[j],
                ));
                assert(ys.drop_last()[j] == ys[j]);
                assert(before.search.mapped(ys[j]) =~= after.search.mapped(ys[j]));
            }
        }
    }

    /// Taking a component up for search keeps the tally.
    #[verifier::rlimit(50)]
    proof fn lemma_tally_begin(before: &Self, after: &Self)
        requires
            before.wf(),
            before.search.nodes@ == Set::<u32>::empty(),
            before.search.yielded@ == Seq::<Seq<u32>>::empty(),
            before.scc@.len() > 0,
            after.graph == before.graph,
            after.scc@ == before.scc@.drop_last(),
            after.base == before.base,
            after.dead == before.dead,
            after.found == before.found,
            after.search.yielded@ == Seq::<Seq<u32>>::empty(),
            forall|x: u32|
                after.search.node_map@.contains_key(x) <==> before.scc@.last()@.contains(x),
        ensures
            after.tally_ok(),
    {
        let b1 = before.books();
        let b2 = after.books();
        assert(b1.live =~= Set::<u32>::empty()) by {
            assert forall|x: u32| !b1.live.contains(x) by {
                if before.search.node_map@.contains_key(x) {
                    assert(before.search.nodes@.contains(before.search.node_map@[x]));
                }
            }
        }
        assert(b2.waiting =~= b1.waiting.drop_last());
        assert(b1.waiting.last() == before.scc@.last()@);
        assert forall|x: u32| b2.live.contains(x) <==> b1.waiting.last().contains(x) by {}
        b1.lemma_begin(b2);
    }

    /// Ending the search of a component keeps the tally.
    #[verifier::rlimit(50)]
    proof fn lemma_tally_retire(before: &Self, after: &Self, comps: Seq<Seq<u32>>)
        requires
            before.wf(),
            before.search.stack@.len() == 0,
            is_scc_list(
                stable_nodes(before.search.subgraph).remove(before.search.start_node as int),
                arcs_without(
                    stable_arcs(before.search.subgraph),
                    before.search.start_node as int,
                ),
                comps,
            ),
            after.graph == before.graph,
            components(after.scc) == components(before.scc) + before.search.mapped_all(comps),
            after.found == before.found,
            after.base@ == before.found@.len(),
            after.dead@ == (if before.search.nodes@.contains(before.search.start_node) {
                before.dead@.insert(before.search.reverse_node_map@[before.search.start_node])
            } else {
                before.dead@
            }),
            after.search.node_map@ == crate::hash::empty_id_map(),
            after.search.yielded@ == Seq::<Seq<u32>>::empty(),
        ensures
            after.tally_ok(),
    {
        let arcs = before.arcs();
        let b1 = before.books();
        let b2 = after.books();
        let search = before.search;
        let m = search.model();
        let start = search.start_node;
        let subs = search.mapped_all(comps);
        m.lemma_full_frames();
        assert(m.path.len() == 0);
        assert(b2.live =~= Set::<u32>::empty());
        assert forall|x: u32| #[trigger] b1.live.contains(x) implies b1.live.contains(
            b1.start,
        ) && search.nodes@.contains(start) by {
            assert(search.nodes@.contains(search.node_map@[x]));
            assert(search.nodes@.len() > 0) by {
                if search.nodes@.len() == 0 {
                    assert(search.nodes@ =~= Set::<u32>::empty());
                }
            }
        }
        assert forall|c: Seq<u32>|
            #[trigger] is_simple_cycle(b1.arcs, c) && within_set(c, b1.live) && c[0]
                == b1.start implies b1.found.contains(c) by {
            Self::lemma_through_start(before, c);
        }
        assert forall|c: Seq<u32>|
            #[trigger] is_simple_cycle(b1.arcs, c) && within_set(c, b1.live) && !c.contains(
                b1.start,
            ) implies exists|i: int| 0 <= i < subs.len() && within(c, #[trigger] subs[i]) by {
            let i = Self::lemma_beside_start(before, c, comps);
            assert(within(c, subs[i]));
        }
        assert forall|i: int, j: int|
            0 <= i < subs.len() && 0 <= j < subs[i].len() implies b1.live.contains(
            #[trigger] subs[i][j],
        ) && subs[i][j] != b1.start by {
            Self::lemma_sub_member(before, comps, i, j);
        }
        assert(concat_all(subs).no_duplicates()) by {
            Self::lemma_subs_apart(before, comps);
        }
        assert forall|x: u32|
            b2.dead.contains(x) <==> b1.dead.contains(x) || (x == b1.start && b1.live.contains(
                b1.start,
            )) by {
            if search.nodes@.contains(start) {
                assert(search.node_map@.contains_key(search.reverse_node_map@[start]));
            }
            if b1.live.contains(b1.start) {
                assert(b1.live.contains(b1.start) ==> search.nodes@.contains(start));
            }
        }
        b1.lemma_end(b2, subs);
    }

    /// When the search of a component has ended, every simple cycle of the
    /// graph that lies within the component and begins at its start node
    /// has been found.
    #[verifier::rlimit(50)]
    proof fn lemma_through_start(before: &Self, c: Seq<u32>)
        requires
            before.wf(),
            before.search.stack@.len() == 0,
            is_simple_cycle(before.arcs(), c),
            within_set(c, before.live()),
            c[0] == before.search.reverse_node_map@[before.search.start_node],
        ensures
            before.found@.contains(c),
    {
        let arcs = before.arcs();
        let search = before.search;
        let m = search.model();
        m.lemma_full_frames();
        assert forall|i: int| 0 <= i < c.len() implies search.node_map@.contains_key(
            #[trigger] c[i],
        ) by {
            assert(before.live().contains(c[i]));
        }
        search.lemma_image_cycle(arcs, c);
        let s = search.image(c);
        assert(search.nodes@.contains(search.start_node)) by {
            assert(search.nodes@.contains(s[0]));
            if search.nodes@.len() == 0 {
                assert(search.nodes@ =~= Set::<u32>::empty());
            }
        }
        assert(s[0] == search.start_node) by {
            assert(search.node_map@[search.reverse_node_map@[search.start_node]]
                == search.start_node);
        }
        assert(m.is_start_cycle(s)) by {
            assert forall|i: int| 0 <= i < s.len() - 1 implies #[trigger] m.succ(s[i], s[i + 1]) by {
                assert(stable_arcs(search.subgraph).contains((s[i] as int, s[i + 1] as int)));
            }
        }
        m.lemma_all_found(s);
        let j = choose|j: int| 0 <= j < m.yielded.len() && m.yielded[j] == s;
        assert(before.found@[before.base@ + j] == search.mapped(search.yielded@[j]));
    }

    /// A simple cycle of the graph that lies within the component and
    /// avoids its start node lies within one of the components that are left
    /// when the start node is taken out.
    #[verifier::rlimit(50)]
    proof fn lemma_beside_start(before: &Self, c: Seq<u32>, comps: Seq<Seq<u32>>) -> (i: int)
        requires
            before.wf(),
            is_scc_list(
                stable_nodes(before.search.subgraph).remove(before.search.start_node as int),
                arcs_without(
                    stable_arcs(before.search.subgraph),
                    before.search.start_node as int,
                ),
                comps,
            ),
            is_simple_cycle(before.arcs(), c),
            within_set(c, before.live()),
            !c.contains(before.search.reverse_node_map@[before.search.start_node]),
        ensures
            0 <= i < comps.len(),
            within(c, before.search.mapped(comps[i])),
    {
        let arcs = before.arcs();
        let search = before.search;
        let start = search.start_node;
        let left = arcs_without(stable_arcs(search.subgraph), start as int);
        assert forall|k: int| 0 <= k < c.len() implies search.node_map@.contains_key(
            #[trigger] c[k],
        ) by {
            assert(before.live().contains(c[k]));
        }
        search.lemma_image_cycle(arcs, c);
        let s = search.image(c);
        assert forall|k: int| 0 <= k < s.len() implies #[trigger] s[k] != start by {
            if s[k] == start {
                assert(search.reverse_node_map@[s[k]] == c[k]);
                assert(c.contains(c[k]));
            }
        }
        assert(is_simple_cycle(left, s)) by {
            assert forall|k: int| 0 <= k < s.len() - 1 implies #[trigger] left.contains(
                (s[k] as int, s[k + 1] as int),
            ) by {
                assert(stable_arcs(search.subgraph).contains((s[k] as int, s[k + 1] as int)));
                assert(s[k] != start && s[k + 1] != start);
            }
            assert(s[s.len() - 1] != start && s[0] != start);
        }
        let i = lemma_cycle_in_component(
            stable_nodes(search.subgraph).remove(start as int),
            left,
            comps,
            s,
        );
        let sub = search.mapped(comps[i]);
        assert forall|k: int| 0 <= k < c.len() implies sub.contains(#[trigger] c[k]) by {
            assert(comps[i].contains(s[k]));
            let t = choose|t: int| 0 <= t < comps[i].len() && comps[i][t] == s[k];
            assert(sub[t] == search.reverse_node_map@[comps[i][t]]);
            assert(search.reverse_node_map@[s[k]] == c[k]);
        }
        i
    }

    /// Every node of what is left of the component is a node of the
    /// component other than its start node.
    proof fn lemma_sub_member(before: &Self, comps: Seq<Seq<u32>>, i: int, j: int)
        requires
            before.wf(),
            is_scc_list(
                stable_nodes(before.search.subgraph).remove(before.search.start_node as int),
                arcs_without(
                    stable_arcs(before.search.subgraph),
                    before.search.start_node as int,
                ),
                comps,
            ),
            0 <= i < comps.len(),
            0 <= j < comps[i].len(),
        ensures
            before.search.nodes@.contains(comps[i][j]),
            comps[i][j] != before.search.start_node,
            before.live().contains(before.search.mapped(comps[i])[j]),
            before.search.mapped(comps[i])[j]
                != before.search.reverse_node_map@[before.search.start_node],
    {
        let search = before.search;
        let v = comps[i][j];
        lemma_component_in_concat(comps, i, j);
        search.model().lemma_full_frames();
        assert(stable_nodes(search.subgraph).remove(search.start_node as int).contains(v as int));
        assert(search.nodes@.contains(v));
        assert(search.nodes@.contains(search.start_node)) by {
            if search.nodes@.len() == 0 {
                assert(search.nodes@ =~= Set::<u32>::empty());
            }
        }
        assert(search.node_map@[search.reverse_node_map@[search.start_node]] == search.start_node);
        assert(search.node_map@.contains_key(search.reverse_node_map@[v]));
        if search.reverse_node_map@[v] == search.reverse_node_map@[search.start_node] {
            assert(search.node_map@[search.reverse_node_map@[v]] == v);
        }
    }

    /// No node stands twice in what is left of the component.
    #[verifier::rlimit(50)]
    proof fn lemma_subs_apart(before: &Self, comps: Seq<Seq<u32>>)
        requires
            before.wf(),
            is_scc_list(
                stable_nodes(before.search.subgraph).remove(before.search.start_node as int),
                arcs_without(
                    stable_arcs(before.search.subgraph),
                    before.search.start_node as int,
                ),
                comps,
            ),
        ensures
            concat_all(before.search.mapped_all(comps)).no_duplicates(),
    {
        let search = before.search;
        let subs = search.mapped_all(comps);
        let all = concat_all(subs);
        assert forall|a: int, b: int| 0 <= a < all.len() && 0 <= b < all.len() && a != b implies all[a]
            != all[b] by {
            assert(all.contains(all[a]) && all.contains(all[b]));
            Self::lemma_concat_mapped(before, comps, comps.len() as int);
            assert(subs.take(comps.len() as int) =~= subs);
            assert(comps.take(comps.len() as int) =~= comps);
            let flat = concat_all(comps);
            assert(all[a] == search.reverse_node_map@[flat[a]]);
            assert(all[b] == search.reverse_node_map@[flat[b]]);
            assert(flat[a] != flat[b]);
            let pa = crate::algorithms::enumeration::lemma_concat_member(comps, flat[a]);
            let pb = crate::algorithms::enumeration::lemma_concat_member(comps, flat[b]);
            Self::lemma_sub_member(before, comps, pa.0, pa.1);
            Self::lemma_sub_member(before, comps, pb.0, pb.1);
        }
    }

    /// The nodes of the first `n` components, in the numbers of the whole
    /// graph, are the nodes of the first `n` components one by one.
    proof fn lemma_concat_mapped(before: &Self, comps: Seq<Seq<u32>>, n: int)
        requires
            0 <= n <= comps.len(),
        ensures
            concat_all(
                before.search.mapped_all(comps).take(n),
            ).len() == concat_all(comps.take(n)).len(),
            forall|t: int|
                0 <= t < concat_all(comps.take(n)).len() ==> #[trigger] concat_all(
                    before.search.mapped_all(comps).take(n),
                )[t] == before.search.reverse_node_map@[concat_all(comps.take(n))[t]],
        decreases n,
    {
        let search = before.search;
        let subs = search.mapped_all(comps);
        if n > 0 {
            Self::lemma_concat_mapped(before, comps, n - 1);
            assert(subs.take(n).drop_last() =~= subs.take(n - 1));
            assert(comps.take(n).drop_last() =~= comps.take(n - 1));
            assert(subs.take(n).last() == search.mapped(comps[n - 1]));
            assert(comps.take(n).last() == comps[n - 1]);
        }
    }
}

} // verus!
