//! The dependency graph: one node for each path, found again by its path.
use crate::algorithms::enumeration::enumerates;
use crate::algorithms::johnson_simple_cycles::{find_simple_cycles, is_simple_cycle};
use crate::algorithms::path_edges::{is_cycle_edge, TraversalSpace};
use crate::graph::{
    arcs_of, graph_add_edge, graph_add_node, graph_count_nodes,
    graph_edge_list, graph_edges, graph_new, graph_node_count, DiGraph,
};
use crate::hash::PathIndex;
use vstd::prelude::*;

verus! {

/// A directed graph of paths. `E` is what an edge carries.
pub struct DependencyGraph<E> {
    path_graph: DiGraph,
    paths: Vec<String>,
    edge_weights: Vec<E>,
    node_indices_by_path: PathIndex,
}

impl<E> DependencyGraph<E> {
    /// The paths of the nodes, by node index.
    pub closed spec fn paths_view(&self) -> Seq<Seq<char>> {
        Seq::new(self.paths@.len(), |i: int| self.paths@[i]@)
    }

    /// The endpoints of the edges, by edge index.
    pub closed spec fn endpoints(&self) -> Seq<(int, int)> {
        graph_edges(self.path_graph)
    }

    /// What the edges carry, by edge index.
    pub closed spec fn weights(&self) -> Seq<E> {
        self.edge_weights@
    }

    /// The node index of each path.
    pub closed spec fn index(&self) -> Map<Seq<char>, u32> {
        self.node_indices_by_path@
    }

    /// The graph over node indices that the cycle analyses run on.
    pub closed spec fn graph(&self) -> DiGraph {
        self.path_graph
    }

    /// The graph and the map agree: the map holds exactly the paths of the
    /// nodes, each with the index of its node, so no path has two nodes; and
    /// every edge joins two nodes and carries one weight.
    pub closed spec fn wf(&self) -> bool {
        &&& graph_node_count(self.path_graph) == self.paths@.len()
        &&& self.paths@.len() <= u32::MAX
        &&& self.edge_weights@.len() == self.endpoints().len()
        &&& self.endpoints().len() <= u32::MAX
        &&& forall|i: int|
            0 <= i < self.paths@.len() ==> self.index().contains_key(
                #[trigger] self.paths_view()[i],
            ) && self.index()[self.paths_view()[i]] == i
        &&& forall|p: Seq<char>| #[trigger]
            self.index().contains_key(p) ==> self.index()[p] < self.paths@.len()
                && self.paths_view()[self.index()[p] as int] == p
        &&& forall|e: int|
            0 <= e < self.endpoints().len() ==> 0 <= (#[trigger] self.endpoints()[e]).0
                < self.paths@.len() && 0 <= self.endpoints()[e].1 < self.paths@.len()
    }

    /// The map and the nodes agree: the graph has one node for each path, the
    /// map has one entry for each node, and every path that the map knows is
    /// the path of the node the map sends it to.
    pub open spec fn consistent(&self) -> bool {
        &&& graph_node_count(self.graph()) == self.paths_view().len()
        &&& self.index().dom().len() == self.paths_view().len()
        &&& forall|p: Seq<char>| #[trigger]
            self.index().contains_key(p) ==> self.index()[p] < self.paths_view().len()
                && self.paths_view()[self.index()[p] as int] == p
    }

    /// Graph consistency: every path that the map knows is the path of the
    /// node the map sends it to, every node's path is in the map, and the map
    /// has as many entries as the graph has nodes.
    #[verifier::rlimit(50)]
    pub proof fn lemma_consistency(&self)
        requires
            self.wf(),
        ensures
            forall|p: Seq<char>| #[trigger]
                self.index().contains_key(p) ==> 0 <= self.index()[p] < self.paths_view().len()
                    && self.paths_view()[self.index()[p] as int] == p,
            forall|i: int|
                0 <= i < self.paths_view().len() ==> self.index().contains_key(
                    #[trigger] self.paths_view()[i],
                ),
            self.paths_view().no_duplicates(),
            self.index().dom().finite(),
            self.index().dom().len() == self.paths_view().len(),
            graph_node_count(self.graph()) == self.paths_view().len(),
            self.consistent(),
    {
        let paths = self.paths_view();
        assert(paths.no_duplicates()) by {
            assert forall|i: int, j: int| 0 <= i < paths.len() && 0 <= j < paths.len() && i != j implies paths[i]
                != paths[j] by {
                assert(self.index()[paths[i]] == i);
                assert(self.index()[paths[j]] == j);
            }
        }
        assert(self.index().dom() =~= paths.to_set()) by {
            assert forall|p: Seq<char>| self.index().dom().contains(p) implies paths.to_set().contains(
                p,
            ) by {
                assert(self.index().contains_key(p));
                assert(paths[self.index()[p] as int] == p);
            }
            assert forall|p: Seq<char>| paths.to_set().contains(p) implies self.index().dom().contains(
                p,
            ) by {
                let i = choose|i: int| 0 <= i < paths.len() && paths[i] == p;
                assert(self.index().contains_key(paths[i]));
            }
        }
        paths.unique_seq_to_set();
    }

    /// A path has a node exactly when it is among the paths of the nodes, and
    /// its node is then the one place where it stands.
    pub proof fn lemma_index_of_path(&self, p: Seq<char>)
        requires
            self.wf(),
        ensures
            self.index().contains_key(p) <==> self.paths_view().contains(p),
            self.index().contains_key(p) ==> self.index()[p] == self.paths_view().index_of(p),
    {
        self.lemma_consistency();
        let paths = self.paths_view();
        if self.index().contains_key(p) {
            let i = self.index()[p] as int;
            assert(paths[i] == p);
            let j = paths.index_of(p);
            assert(0 <= j < paths.len() && paths[j] == p);
        }
        if paths.contains(p) {
            let i = choose|i: int| 0 <= i < paths.len() && paths[i] == p;
            assert(self.index().contains_key(paths[i]));
        }
    }

    /// A graph without nodes or edges.
    pub fn new() -> (g: Self)
        ensures
            g.wf(),
            g.consistent(),
            g.paths_view() == Seq::<Seq<char>>::empty(),
            g.endpoints() == Seq::<(int, int)>::empty(),
            g.weights() == Seq::<E>::empty(),
            g.index() == Map::<Seq<char>, u32>::empty(),
    {
        let g = DependencyGraph {
            path_graph: graph_new(),
            paths: Vec::new(),
            edge_weights: Vec::new(),
            node_indices_by_path: PathIndex::new(),
        };
        assert(g.paths_view() =~= Seq::<Seq<char>>::empty());
        proof {
            g.lemma_consistency();
        }
        g
    }

    /// The graph over node indices.
    pub fn path_graph(&self) -> (g: &DiGraph)
        ensures
            *g == self.graph(),
    {
        &self.path_graph
    }

    /// How many nodes the graph has.
    pub fn node_count(&self) -> (n: usize)
        requires
            self.wf(),
        ensures
            n == self.paths_view().len(),
    {
        self.paths.len()
    }

    /// How many edges the graph has.
    pub fn edge_count(&self) -> (n: usize)
        requires
            self.wf(),
        ensures
            n == self.endpoints().len(),
    {
        self.edge_weights.len()
    }

    /// The path of node `index`.
    pub fn path(&self, index: u32) -> (p: &String)
        requires
            self.wf(),
            index < self.paths_view().len(),
        ensures
            p@ == self.paths_view()[index as int],
    {
        &self.paths[index as usize]
    }

    /// The paths of all nodes, by node index.
    pub fn paths(&self) -> (r: &Vec<String>)
        ensures
            r@.len() == self.paths_view().len(),
            forall|i: int| 0 <= i < r@.len() ==> (#[trigger] r@[i])@ == self.paths_view()[i],
    {
        &self.paths
    }

    /// The node of `path`, if it has one.
    pub fn index_of(&self, path: &str) -> (r: Option<u32>)
        ensures
            r == (if self.index().contains_key(path@) {
                Some(self.index()[path@])
            } else {
                None
            }),
    {
        self.node_indices_by_path.get(path)
    }

    /// Checks at run time that the map and the nodes agree, entry by entry:
    /// the result is true exactly when the graph is `consistent`, which
    /// every well-formed graph is.
    pub fn assert_consistency(&self) -> (ok: bool)
        ensures
            ok == self.consistent(),
            self.wf() ==> ok,
    {
        proof {
            if self.wf() {
                self.lemma_consistency();
            }
        }
        let n = self.paths.len();
        if graph_count_nodes(&self.path_graph) != n {
            return false;
        }
        if self.node_indices_by_path.len() != n {
            return false;
        }
        let entries = self.node_indices_by_path.entries();
        let mut k: usize = 0;
        while k < entries.len()
            invariant
                0 <= k <= entries@.len(),
                n == self.paths@.len(),
                forall|j: int|
                    0 <= j < entries@.len() ==> self.index().contains_pair(
                        (#[trigger] entries@[j]).0@,
                        entries@[j].1,
                    ),
                forall|j: int|
                    0 <= j < k ==> (#[trigger] entries@[j]).1 < n && self.paths_view()[entries@[j].1 as int]
                        == entries@[j].0@,
            decreases entries@.len() - k,
        {
            let index = entries[k].1 as usize;
            proof {
                assert(self.index().contains_pair(entries@[k as int].0@, entries@[k as int].1));
            }
            if index >= n {
                return false;
            }
            if self.paths[index] == entries[k].0 {
                k += 1;
            } else {
                return false;
            }
        }
        proof {
            assert forall|p: Seq<char>| #[trigger] self.index().contains_key(p) implies self.index()[p]
                < self.paths_view().len() && self.paths_view()[self.index()[p] as int] == p by {
                let j = choose|j: int| 0 <= j < entries@.len() && (#[trigger] entries@[j]).0@ == p;
                assert(self.index().contains_pair(entries@[j].0@, entries@[j].1));
            }
        }
        true
    }

    /// Every edge as the path it leaves, the path it enters, and what it
    /// carries, by edge index.
    #[verifier::rlimit(50)]
    pub fn edges(&self) -> (r: Vec<(&String, &String, &E)>)
        requires
            self.wf(),
        ensures
            r@.len() == self.endpoints().len(),
            forall|e: int|
                0 <= e < r@.len() ==> (#[trigger] r@[e]).0@ == self.paths_view()[self.endpoints()[e].0]
                    && r@[e].1@ == self.paths_view()[self.endpoints()[e].1] && *r@[e].2
                    == self.weights()[e],
    {
        let list = graph_edge_list(&self.path_graph);
        let mut out: Vec<(&String, &String, &E)> = Vec::new();
        let mut i: usize = 0;
        while i < list.len()
            invariant
                self.wf(),
                0 <= i <= list@.len(),
                list@.len() == self.endpoints().len(),
                forall|e: int|
                    0 <= e < list@.len() ==> (#[trigger] list@[e]).0 == self.endpoints()[e].0
                        && list@[e].1 == self.endpoints()[e].1,
                out@.len() == i,
                forall|e: int|
                    0 <= e < i ==> (#[trigger] out@[e]).0@ == self.paths_view()[self.endpoints()[e].0]
                        && out@[e].1@ == self.paths_view()[self.endpoints()[e].1] && *out@[e].2
                        == self.weights()[e],
            decreases list@.len() - i,
        {
            let (source, target) = list[i];
            proof {
                let e = i as int;
                assert(0 <= self.endpoints()[e].0 < self.paths@.len());
            }
            out.push((&self.paths[source as usize], &self.paths[target as usize], &self.edge_weights[i]));
            i += 1;
        }
        out
    }

    /// Returns the node of `path` and whether it is new: a path that has no
    /// node yet gets a new node with the next index. Whether or not the path
    /// was new, the map and the nodes agree afterwards and the node returned
    /// carries the path.
    #[verifier::rlimit(50)]
    pub fn get_path_index_or_insert(&mut self, path: &str) -> (r: (u32, bool))
        requires
            old(self).wf(),
            old(self).index().contains_key(path@) || old(self).paths_view().len() < u32::MAX,
        ensures
            final(self).wf(),
            final(self).consistent(),
            r.0 < final(self).paths_view().len(),
            final(self).paths_view()[r.0 as int] == path@,
            final(self).index().contains_key(path@) && final(self).index()[path@] == r.0,
            final(self).endpoints() == old(self).endpoints(),
            final(self).weights() == old(self).weights(),
            old(self).index().contains_key(path@) ==> r == (old(self).index()[path@], false)
                && final(self).paths_view() == old(self).paths_view() && final(self).index() == old(self).index(),
            !old(self).index().contains_key(path@) ==> r == (
                old(self).paths_view().len() as u32,
                true,
            ) && final(self).paths_view() == old(self).paths_view().push(path@) && final(self).index() == old(self).index().insert(path@, r.0),
    {
        match self.node_indices_by_path.get(path) {
            Some(index) => {
                proof {
                    self.lemma_consistency();
                }
                (index, false)
            },
            None => {
                let ghost old_paths = self.paths_view();
                let ghost old_index = self.index();
                let added = graph_add_node(&mut self.path_graph);
                let index = added.unwrap();
                self.paths.push(path.to_owned());
                self.node_indices_by_path.insert(path.to_owned(), index);
                proof {
                    assert(self.paths_view() =~= old_paths.push(path@));
                    assert forall|i: int| 0 <= i < self.paths@.len() implies self.index().contains_key(
                        #[trigger] self.paths_view()[i],
                    ) && self.index()[self.paths_view()[i]] == i by {
                        if i < old_paths.len() {
                            assert(self.paths_view()[i] == old_paths[i]);
                            assert(old_index.contains_key(old_paths[i]));
                        }
                    }
                    assert forall|p: Seq<char>| #[trigger]
                        self.index().contains_key(p) implies self.index()[p] < self.paths@.len()
                        && self.paths_view()[self.index()[p] as int] == p by {
                        if p != path@ {
                            assert(old_index.contains_key(p));
                            assert(self.paths_view()[old_index[p] as int] == old_paths[old_index[p] as int]);
                        }
                    }
                    assert(self.wf());
                    self.lemma_consistency();
                }
                (index, true)
            },
        }
    }

    /// Adds an edge from node `from` to node `to` that carries `edge`. An
    /// edge that is there already is not looked for: parallel edges stay.
    pub fn add_edge(&mut self, from: u32, to: u32, edge: E)
        requires
            old(self).wf(),
            from < old(self).paths_view().len(),
            to < old(self).paths_view().len(),
            old(self).endpoints().len() < u32::MAX,
        ensures
            final(self).wf(),
            final(self).consistent(),
            final(self).paths_view() == old(self).paths_view(),
            final(self).index() == old(self).index(),
            final(self).endpoints() == old(self).endpoints().push((from as int, to as int)),
            final(self).weights() == old(self).weights().push(edge),
    {
        let ghost old_endpoints = self.endpoints();
        let ghost old_index = self.index();
        let added = graph_add_edge(&mut self.path_graph, from, to);
        self.edge_weights.push(edge);
        proof {
            assert(added.is_some());
            assert forall|p: Seq<char>| #[trigger] self.index().contains_key(p) implies self.index()[p]
                < self.paths@.len() && self.paths_view()[self.index()[p] as int] == p by {
                assert(old_index.contains_key(p));
            }
            assert forall|e: int| 0 <= e < self.endpoints().len() implies 0 <= (
            #[trigger] self.endpoints()[e]).0 < self.paths@.len() && 0 <= self.endpoints()[e].1
                < self.paths@.len() by {
                if e < old_endpoints.len() {
                    assert(self.endpoints()[e] == old_endpoints[e]);
                }
            }
            assert(self.wf());
            self.lemma_consistency();
        }
    }

    /// `names` are the paths of the nodes of a simple cycle of the graph, in
    /// the order the cycle visits them.
    #[verifier::opaque]
    pub open spec fn names_simple_cycle(&self, names: Seq<&String>) -> bool {
        exists|c: Seq<u32>| #[trigger] self.names_cycle(c, names)
    }

    /// `c` is a simple cycle of the graph and `names` are the paths of its
    /// nodes, in the same order.
    pub open spec fn names_cycle(&self, c: Seq<u32>, names: Seq<&String>) -> bool {
        &&& is_simple_cycle(arcs_of(self.endpoints()), c)
        &&& c.len() == names.len()
        &&& forall|i: int|
            0 <= i < c.len() ==> (#[trigger] c[i]) < self.paths_view().len() && names[i]@
                == self.paths_view()[c[i] as int]
    }

    /// Every edge leaves a node of the graph.
    spec fn sources_ok(&self) -> bool {
        forall|e: int|
            0 <= e < self.endpoints().len() ==> 0 <= (#[trigger] self.endpoints()[e]).0
                < self.paths@.len()
    }

    /// Every node of a cycle of the graph is a node of the graph.
    proof fn lemma_cycle_nodes(&self, c: Seq<u32>, j: int)
        requires
            self.sources_ok(),
            is_simple_cycle(arcs_of(self.endpoints()), c),
            0 <= j < c.len(),
        ensures
            c[j] < self.paths@.len(),
    {
        let edges = self.endpoints();
        let arcs = arcs_of(edges);
        let next = if j < c.len() - 1 {
            c[j + 1]
        } else {
            c[0]
        };
        let arc = (c[j] as int, next as int);
        assert(arcs.contains(arc)) by {
            if j < c.len() - 1 {
                assert(arcs.contains((c[j] as int, c[j + 1] as int)));
            } else {
                assert(c[j] == c.last());
            }
        }
        assert(edges.contains(arc));
        let e = choose|e: int| 0 <= e < edges.len() && edges[e] == arc;
        assert(0 <= edges[e].0 < self.paths@.len());
    }

    /// The paths of the nodes of a cycle.
    #[verifier::rlimit(50)]
    fn names_of(&self, cycle: &Vec<u32>) -> (names: Vec<&String>)
        requires
            self.sources_ok(),
            is_simple_cycle(arcs_of(self.endpoints()), cycle@),
        ensures
            self.names_simple_cycle(names@),
            self.names_cycle(cycle@, names@),
    {
        let ghost arcs = arcs_of(self.endpoints());
        let mut names: Vec<&String> = Vec::with_capacity(cycle.len());
        let mut i: usize = 0;
        proof {
            assert forall|j: int| 0 <= j < cycle@.len() implies (#[trigger] cycle@[j])
                < self.paths@.len() by {
                self.lemma_cycle_nodes(cycle@, j);
            }
        }
        while i < cycle.len()
            invariant
                0 <= i <= cycle@.len(),
                names@.len() == i,
                forall|j: int| 0 <= j < cycle@.len() ==> (#[trigger] cycle@[j]) < self.paths@.len(),
                forall|j: int|
                    0 <= j < i ==> (#[trigger] names@[j])@ == self.paths@[cycle@[j] as int]@,
            decreases cycle@.len() - i,
        {
            names.push(&self.paths[cycle[i] as usize]);
            i += 1;
        }
        proof {
            assert forall|j: int| 0 <= j < cycle@.len() implies (#[trigger] cycle@[j])
                < self.paths_view().len() && names@[j]@ == self.paths_view()[cycle@[j] as int] by {}
            assert(self.names_cycle(cycle@, names@));
            reveal(DependencyGraph::names_simple_cycle);
        }
        names
    }

    /// `names` lists the cycles `found`, each by the paths of its nodes.
    pub open spec fn names_cycles(&self, found: Seq<Seq<u32>>, names: Seq<Vec<&String>>) -> bool {
        &&& names.len() == found.len()
        &&& forall|k: int| 0 <= k < found.len() ==> #[trigger] self.names_cycle(found[k], names[k]@)
    }

    /// `names` lists the simple cycles of the graph, each once and by the
    /// paths of its nodes.
    #[verifier::opaque]
    pub open spec fn names_all_cycles(&self, names: Seq<Vec<&String>>) -> bool {
        exists|found: Seq<Seq<u32>>| #[trigger]
            self.names_cycles(found, names) && enumerates(arcs_of(self.endpoints()), found)
    }

    /// The simple cycles of the graph, each once, as the paths of the files
    /// it leads through, in the order it visits them.
    #[verifier::rlimit(50)]
    pub fn find_cycles(&self) -> (r: Vec<Vec<&String>>)
        requires
            self.wf(),
        ensures
            forall|k: int| 0 <= k < r@.len() ==> self.names_simple_cycle(#[trigger] r@[k]@),
            self.names_all_cycles(r@),
    {
        let mut cycles = find_simple_cycles(&self.path_graph);
        let mut out: Vec<Vec<&String>> = Vec::new();
        proof {
            assert(self.sources_ok());
        }
        loop
            invariant
                self.sources_ok(),
                cycles.wf(),
                cycles.graph() == self.path_graph,
                forall|k: int| 0 <= k < out@.len() ==> self.names_simple_cycle(#[trigger] out@[k]@),
                self.names_cycles(cycles.found(), out@),
            decreases cycles.pending(), cycles.steps(),
        {
            let ghost before = out@;
            let ghost found_before = cycles.found();
            match cycles.next() {
                None => {
                    proof {
                        cycles.lemma_enumerates();
                        reveal(DependencyGraph::names_all_cycles);
                        assert(self.names_cycles(cycles.found(), out@));
                    }
                    return out;
                },
                Some(cycle) => {
                    let names = self.names_of(&cycle);
                    out.push(names);
                    proof {
                        assert forall|k: int| 0 <= k < out@.len() implies self.names_simple_cycle(
                            #[trigger] out@[k]@,
                        ) by {
                            if k < before.len() {
                                assert(out@[k] == before[k]);
                            }
                        }
                        assert forall|k: int| 0 <= k < cycles.found().len() implies #[trigger] self.names_cycle(
                            cycles.found()[k],
                            out@[k]@,
                        ) by {
                            if k < before.len() {
                                assert(out@[k] == before[k]);
                                assert(cycles.found()[k] == found_before[k]);
                                assert(self.names_cycle(found_before[k], before[k]@));
                            }
                        }
                    }
                },
            }
        }
    }

    /// The edges that lie on a directed cycle, each as the path it leaves
    /// and the path it enters, in the order of the edges.
    #[verifier::rlimit(50)]
    pub fn cycle_edge_paths(&self) -> (r: Vec<(&String, &String)>)
        requires
            self.wf(),
        ensures
            borrowed_pairs_view(r@) == cycle_edge_report(
                self.paths_view(),
                self.endpoints(),
                self.endpoints().len() as int,
            ),
    {
        let mut space = TraversalSpace::new(&self.path_graph);
        let in_cycles = space.find_edges_in_cycles();
        let list = graph_edge_list(&self.path_graph);
        let ghost edges = self.endpoints();
        let ghost paths = self.paths_view();
        let mut out: Vec<(&String, &String)> = Vec::new();
        let mut e: usize = 0;
        proof {
            assert(borrowed_pairs_view(out@) =~= Seq::empty());
        }
        while e < list.len()
            invariant
                self.wf(),
                0 <= e <= list@.len(),
                edges == self.endpoints(),
                paths == self.paths_view(),
                list@.len() == edges.len(),
                list@.len() <= u32::MAX,
                forall|k: int|
                    0 <= k < list@.len() ==> (#[trigger] list@[k]).0 == edges[k].0 && list@[k].1
                        == edges[k].1,
                forall|k: u32| in_cycles@.contains(k) <==> is_cycle_edge(edges, k as int),
                borrowed_pairs_view(out@) == cycle_edge_report(paths, edges, e as int),
            decreases list@.len() - e,
        {
            let ghost before = borrowed_pairs_view(out@);
            if in_cycles.contains(e as u32) {
                let (source, target) = list[e];
                proof {
                    assert(0 <= edges[e as int].0 < self.paths@.len());
                }
                out.push((&self.paths[source as usize], &self.paths[target as usize]));
                proof {
                    assert(borrowed_pairs_view(out@) =~= before.push(
                        (paths[edges[e as int].0], paths[edges[e as int].1]),
                    ));
                }
            }
            e += 1;
        }
        out
    }
}

impl<E> Default for DependencyGraph<E> {
    /// A graph without nodes or edges.
    fn default() -> (g: Self)
        ensures
            g.wf(),
            g.paths_view() == Seq::<Seq<char>>::empty(),
            g.endpoints() == Seq::<(int, int)>::empty(),
            g.weights() == Seq::<E>::empty(),
            g.index() == Map::<Seq<char>, u32>::empty(),
    {
        DependencyGraph::new()
    }
}

/// Pairs of borrowed paths as plain values.
pub open spec fn borrowed_pairs_view(v: Seq<(&String, &String)>) -> Seq<(Seq<char>, Seq<char>)> {
    Seq::new(v.len(), |i: int| (v[i].0@, v[i].1@))
}

/// For each of the first `bound` edges that lies on a cycle, the path the
/// edge leaves and the path it enters, in the order of the edges.
pub open spec fn cycle_edge_report(paths: Seq<Seq<char>>, edges: Seq<(int, int)>, bound: int) -> Seq<
    (Seq<char>, Seq<char>),
>
    decreases bound,
{
    if bound <= 0 {
        Seq::empty()
    } else if is_cycle_edge(edges, bound - 1) {
        cycle_edge_report(paths, edges, bound - 1).push(
            (paths[edges[bound - 1].0], paths[edges[bound - 1].1]),
        )
    } else {
        cycle_edge_report(paths, edges, bound - 1)
    }
}

} // verus!
