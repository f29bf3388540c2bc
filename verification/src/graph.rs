//! Graph primitives: the mathematical model of a directed multigraph, and
//! the petgraph types the analyses run on.
//!
//! A `DiGraph` is petgraph's `Graph` with unit weights; a `SubGraph` is its
//! `StableGraph`, from which nodes can be taken out. The verifier cannot
//! look inside either, so what they hold is named by uninterpreted functions
//! (`graph_node_count` and `graph_edges`; `stable_nodes`, `stable_arcs` and
//! `stable_edge_count`), and every petgraph call goes through a small
//! function whose contract is stated over those names. These contracts, and
//! those of the visit map that petgraph searches with, are trusted, not
//! proved; everything else in this crate is proved from them.
use vstd::prelude::*;
use vstd::set_lib::set_int_range;

verus! {

/// The directed graph the analyses run on: nodes `0 .. n`, edges numbered in
/// the order they were added, parallel edges and self-loops allowed.
pub type DiGraph = petgraph::graph::Graph<(), (), petgraph::Directed, u32>;

/// Makes petgraph's marker for directed graphs known to the verifier.
#[verifier::external_type_specification]
#[verifier::external_body]
pub struct ExDirected(petgraph::Directed);

/// Makes petgraph's `Graph` known to the verifier, as a type of which
/// nothing is known but what the functions below say.
#[verifier::external_type_specification]
#[verifier::external_body]
#[verifier::reject_recursive_types(N)]
#[verifier::reject_recursive_types(E)]
#[verifier::reject_recursive_types(Ty)]
#[verifier::reject_recursive_types(Ix)]
pub struct ExGraph<N, E, Ty, Ix>(petgraph::graph::Graph<N, E, Ty, Ix>);

/// Makes the visit map of petgraph's graphs, a `FixedBitSet`, known to the
/// verifier.
#[verifier::external_type_specification]
#[verifier::external_body]
pub struct ExFixedBitSet(fixedbitset::FixedBitSet);

/// How many nodes the graph has. Its nodes are the indices below this number.
pub uninterp spec fn graph_node_count(
    g: petgraph::graph::Graph<(), (), petgraph::Directed, u32>,
) -> nat;

/// The edges of the graph by edge index, each as `(source, target)`.
pub uninterp spec fn graph_edges(
    g: petgraph::graph::Graph<(), (), petgraph::Directed, u32>,
) -> Seq<(int, int)>;

/// The positions of a visit map whose bit is set.
pub uninterp spec fn visited_bits(m: fixedbitset::FixedBitSet) -> Set<int>;

/// How many positions a visit map has.
pub uninterp spec fn visit_map_len(m: fixedbitset::FixedBitSet) -> nat;

/// The arcs of an edge list: the pairs `(u, v)` joined by at least one edge.
pub open spec fn arcs_of(edges: Seq<(int, int)>) -> Set<(int, int)> {
    Set::new(|a: (int, int)| edges.contains(a))
}

/// `p` is a non-empty sequence of nodes, each joined to the next by an arc.
pub open spec fn is_path(arcs: Set<(int, int)>, p: Seq<int>) -> bool {
    &&& p.len() > 0
    &&& forall|i: int| 0 <= i < p.len() - 1 ==> #[trigger] arcs.contains((p[i], p[i + 1]))
}

/// There is a directed path from `a` to `b`; the path of length zero counts.
pub open spec fn reaches(arcs: Set<(int, int)>, a: int, b: int) -> bool {
    exists|p: Seq<int>| is_path(arcs, p) && p[0] == a && p.last() == b
}

/// Every node reaches itself.
pub proof fn lemma_reaches_refl(arcs: Set<(int, int)>, a: int)
    ensures
        reaches(arcs, a, a),
{
    let p = seq![a];
    assert(is_path(arcs, p) && p[0] == a && p.last() == a);
}

/// A path that ends where another begins makes one path with it.
pub proof fn lemma_path_concat(arcs: Set<(int, int)>, p: Seq<int>, q: Seq<int>)
    requires
        is_path(arcs, p),
        is_path(arcs, q),
        p.last() == q[0],
    ensures
        is_path(arcs, p + q.skip(1)),
        (p + q.skip(1))[0] == p[0],
        (p + q.skip(1)).last() == q.last(),
{
    let r = p + q.skip(1);
    assert forall|i: int| 0 <= i < r.len() - 1 implies #[trigger] arcs.contains((r[i], r[i + 1])) by {
        if i < p.len() - 1 {
            assert(arcs.contains((p[i], p[i + 1])));
        } else {
            let j = i - (p.len() - 1);
            assert(arcs.contains((q[j], q[j + 1])));
        }
    }
}

/// What can be reached from a node that can be reached can be reached.
pub proof fn lemma_reaches_trans(arcs: Set<(int, int)>, a: int, b: int, c: int)
    requires
        reaches(arcs, a, b),
        reaches(arcs, b, c),
    ensures
        reaches(arcs, a, c),
{
    let p = choose|p: Seq<int>| is_path(arcs, p) && p[0] == a && p.last() == b;
    let q = choose|q: Seq<int>| is_path(arcs, q) && q[0] == b && q.last() == c;
    lemma_path_concat(arcs, p, q);
}

/// An arc leads from its source to its target.
pub proof fn lemma_reaches_arc(arcs: Set<(int, int)>, a: int, b: int)
    requires
        arcs.contains((a, b)),
    ensures
        reaches(arcs, a, b),
{
    let p = seq![a, b];
    assert forall|i: int| 0 <= i < p.len() - 1 implies #[trigger] arcs.contains((p[i], p[i + 1])) by {
        assert(i == 0);
    }
    assert(is_path(arcs, p) && p[0] == a && p.last() == b);
}

/// `petgraph::graph::Graph::new`: a graph without nodes or edges.
#[verifier::external_body]
pub(crate) fn graph_new() -> (g: DiGraph)
    ensures
        graph_node_count(g) == 0,
        graph_edges(g) == Seq::<(int, int)>::empty(),
{
    petgraph::graph::Graph::new()
}

/// `petgraph::graph::Graph::node_count`. With 32-bit indices a graph never
/// holds more than `u32::MAX` nodes (`try_add_node` refuses the next one).
#[verifier::external_body]
pub(crate) fn graph_count_nodes(g: &DiGraph) -> (n: usize)
    ensures
        n == graph_node_count(*g),
        n <= u32::MAX,
{
    g.node_count()
}

/// `petgraph::graph::Graph::edge_count`. With 32-bit indices a graph never
/// holds more than `u32::MAX` edges (`try_add_edge` refuses the next one).
#[verifier::external_body]
pub(crate) fn graph_count_edges(g: &DiGraph) -> (n: usize)
    ensures
        n == graph_edges(*g).len(),
        n <= u32::MAX,
{
    g.edge_count()
}

/// `petgraph::graph::Graph::try_add_node`: the new node gets the next free
/// index; the call is refused, and changes nothing, when that index would be
/// `u32::MAX`.
#[verifier::external_body]
pub(crate) fn graph_add_node(g: &mut DiGraph) -> (r: Option<u32>)
    ensures
        graph_edges(*final(g)) == graph_edges(*old(g)),
        graph_node_count(*old(g)) < u32::MAX ==> r == Some(graph_node_count(*old(g)) as u32)
            && graph_node_count(*final(g)) == graph_node_count(*old(g)) + 1,
        graph_node_count(*old(g)) >= u32::MAX ==> r.is_none() && graph_node_count(*final(g))
            == graph_node_count(*old(g)),
{
    match g.try_add_node(()) {
        Ok(i) => Some(i.index() as u32),
        Err(_) => None,
    }
}

/// `petgraph::graph::Graph::try_add_edge`: the new edge gets the next free
/// index and is appended; the call is refused, and changes nothing, when an
/// endpoint is no node or the index would be `u32::MAX`.
#[verifier::external_body]
pub(crate) fn graph_add_edge(g: &mut DiGraph, a: u32, b: u32) -> (r: Option<u32>)
    ensures
        graph_node_count(*final(g)) == graph_node_count(*old(g)),
        (a < graph_node_count(*old(g)) && b < graph_node_count(*old(g)) && graph_edges(
            *old(g),
        ).len() < u32::MAX) ==> r == Some(graph_edges(*old(g)).len() as u32) && graph_edges(
            *final(g),
        ) == graph_edges(*old(g)).push((a as int, b as int)),
        !(a < graph_node_count(*old(g)) && b < graph_node_count(*old(g)) && graph_edges(
            *old(g),
        ).len() < u32::MAX) ==> r.is_none() && graph_edges(*final(g)) == graph_edges(*old(g)),
{
    let a = petgraph::graph::NodeIndex::new(a as usize);
    let b = petgraph::graph::NodeIndex::new(b as usize);
    match g.try_add_edge(a, b, ()) {
        Ok(e) => Some(e.index() as u32),
        Err(_) => None,
    }
}

/// `petgraph::graph::Graph::edge_references`: every edge in index order, as
/// `(source, target)`. Both ends of an edge are nodes of the graph
/// (`try_add_edge` refuses any other edge), and there are at most `u32::MAX`
/// edges.
#[verifier::external_body]
pub(crate) fn graph_edge_list(g: &DiGraph) -> (r: Vec<(u32, u32)>)
    ensures
        r@.len() == graph_edges(*g).len(),
        r@.len() <= u32::MAX,
        forall|e: int|
            0 <= e < r@.len() ==> (#[trigger] r@[e]).0 == graph_edges(*g)[e].0 && r@[e].1
                == graph_edges(*g)[e].1,
        forall|e: int|
            0 <= e < r@.len() ==> (#[trigger] r@[e]).0 < graph_node_count(*g) && r@[e].1
                < graph_node_count(*g),
{
    g.edge_references().map(
        |e|
            (
                petgraph::visit::EdgeRef::source(&e).index() as u32,
                petgraph::visit::EdgeRef::target(&e).index() as u32,
            ),
    ).collect()
}

/// `petgraph::graph::Graph::edges`: the edges that leave `a`, each once, as
/// `(edge index, target)`. Empty when `a` is no node.
#[verifier::external_body]
pub(crate) fn graph_out_edges(g: &DiGraph, a: u32) -> (r: Vec<(u32, u32)>)
    ensures
        forall|k: int|
            0 <= k < r@.len() ==> (#[trigger] r@[k]).0 < graph_edges(*g).len() && graph_edges(
                *g,
            )[r@[k].0 as int] == (a as int, r@[k].1 as int),
        forall|e: int|
            0 <= e < graph_edges(*g).len() && (#[trigger] graph_edges(*g)[e]).0 == a ==> exists|
                k: int,
            |
                0 <= k < r@.len() && (#[trigger] r@[k]).0 == e,
        forall|i: int, j: int|
            0 <= i < j < r@.len() ==> (#[trigger] r@[i]).0 != (#[trigger] r@[j]).0,
        forall|k: int| 0 <= k < r@.len() ==> (#[trigger] r@[k]).1 < graph_node_count(*g),
{
    let a = petgraph::graph::NodeIndex::new(a as usize);
    g.edges(a).map(
        |e|
            (
                petgraph::visit::EdgeRef::id(&e).index() as u32,
                petgraph::visit::EdgeRef::target(&e).index() as u32,
            ),
    ).collect()
}

/// `fixedbitset::FixedBitSet::default`, the visit map a traversal starts
/// with: no positions at all.
#[verifier::external_body]
pub(crate) fn visit_map_empty() -> (m: fixedbitset::FixedBitSet)
    ensures
        visit_map_len(m) == 0,
        visited_bits(m) == Set::<int>::empty(),
{
    fixedbitset::FixedBitSet::default()
}

/// `petgraph::visit::Visitable::reset_map` of `Graph`: clears every bit and
/// grows the map to one position per node; a map never shrinks.
#[verifier::external_body]
pub(crate) fn visit_map_reset(g: &DiGraph, m: &mut fixedbitset::FixedBitSet)
    ensures
        visited_bits(*final(m)) == Set::<int>::empty(),
        visit_map_len(*final(m)) == if visit_map_len(*old(m)) > graph_node_count(*g) {
            visit_map_len(*old(m))
        } else {
            graph_node_count(*g)
        },
{
    petgraph::visit::Visitable::reset_map(g, m)
}

/// `petgraph::visit::VisitMap::visit` of `FixedBitSet`: sets the bit of `x`
/// and says whether it was clear before. It panics on a position the map does
/// not have.
#[verifier::external_body]
pub(crate) fn visit_map_visit(m: &mut fixedbitset::FixedBitSet, x: u32) -> (first: bool)
    requires
        x < visit_map_len(*old(m)),
    ensures
        first == !visited_bits(*old(m)).contains(x as int),
        visited_bits(*final(m)) == visited_bits(*old(m)).insert(x as int),
        visit_map_len(*final(m)) == visit_map_len(*old(m)),
{
    petgraph::visit::VisitMap::visit(m, x)
}

/// `petgraph::visit::VisitMap::is_visited` of `FixedBitSet`: whether the bit
/// of `x` is set; a position the map does not have counts as clear.
#[verifier::external_body]
pub(crate) fn visit_map_is_visited(m: &fixedbitset::FixedBitSet, x: u32) -> (r: bool)
    ensures
        r == visited_bits(*m).contains(x as int),
{
    petgraph::visit::VisitMap::is_visited(m, &x)
}

/// A directed graph whose nodes can be removed without renumbering the
/// others: petgraph's `StableGraph` with unit weights.
pub type SubGraph = petgraph::stable_graph::StableGraph<(), (), petgraph::Directed, u32>;

/// Makes petgraph's `StableGraph` known to the verifier, as a type of which
/// nothing is known but what the functions below say.
#[verifier::external_type_specification]
#[verifier::external_body]
#[verifier::reject_recursive_types(N)]
#[verifier::reject_recursive_types(E)]
#[verifier::reject_recursive_types(Ty)]
#[verifier::reject_recursive_types(Ix)]
pub struct ExStableGraph<N, E, Ty, Ix>(petgraph::stable_graph::StableGraph<N, E, Ty, Ix>);

/// The indices of the nodes that a stable graph holds.
pub uninterp spec fn stable_nodes(
    g: petgraph::stable_graph::StableGraph<(), (), petgraph::Directed, u32>,
) -> Set<int>;

/// The arcs of a stable graph: the pairs `(u, v)` joined by at least one
/// edge.
pub uninterp spec fn stable_arcs(
    g: petgraph::stable_graph::StableGraph<(), (), petgraph::Directed, u32>,
) -> Set<(int, int)>;

/// How many edges a stable graph holds, parallel edges counted each.
pub uninterp spec fn stable_edge_count(
    g: petgraph::stable_graph::StableGraph<(), (), petgraph::Directed, u32>,
) -> nat;

/// The components, each as a sequence of node indices.
pub open spec fn components(r: Vec<Vec<u32>>) -> Seq<Seq<u32>> {
    Seq::new(r@.len(), |i: int| r@[i]@)
}

/// The components one after the other.
pub open spec fn concat_all(comps: Seq<Seq<u32>>) -> Seq<u32>
    decreases comps.len(),
{
    if comps.len() == 0 {
        Seq::empty()
    } else {
        concat_all(comps.drop_last()) + comps.last()
    }
}

/// `comps` lists the strongly connected components of the graph, later
/// components before the ones they can be reached from: every arc joins
/// nodes of the graph; every node stands in exactly one component and there
/// once, no component is empty, two nodes share a component exactly when
/// each reaches the other, and no arc leads from a component to a later one.
pub open spec fn is_scc_list(nodes: Set<int>, arcs: Set<(int, int)>, comps: Seq<Seq<u32>>) -> bool {
    &&& forall|a: int, b: int| #[trigger] arcs.contains((a, b)) ==> nodes.contains(a) && nodes.contains(b)
    &&& concat_all(comps).no_duplicates()
    &&& forall|v: u32| nodes.contains(v as int) <==> #[trigger] concat_all(comps).contains(v)
    &&& forall|i: int| 0 <= i < comps.len() ==> (#[trigger] comps[i]).len() > 0
    &&& forall|i1: int, j1: int, i2: int, j2: int|
        0 <= i1 < comps.len() && 0 <= j1 < comps[i1].len() && 0 <= i2 < comps.len() && 0 <= j2
            < comps[i2].len() ==> ((i1 == i2) <==> (reaches(
            arcs,
            #[trigger] comps[i1][j1] as int,
            #[trigger] comps[i2][j2] as int,
        ) && reaches(arcs, comps[i2][j2] as int, comps[i1][j1] as int)))
    &&& forall|i1: int, j1: int, i2: int, j2: int|
        0 <= i1 < i2 < comps.len() && 0 <= j1 < comps[i1].len() && 0 <= j2 < comps[i2].len()
            ==> !arcs.contains((#[trigger] comps[i1][j1] as int, #[trigger] comps[i2][j2] as int))
}

/// `petgraph::algo::kosaraju_scc` on a `Graph`: its strongly connected
/// components in postorder. That every edge joins nodes of the graph holds
/// of every `Graph` (`try_add_edge` refuses any other edge).
#[verifier::external_body]
pub(crate) fn graph_scc(g: &DiGraph) -> (r: Vec<Vec<u32>>)
    ensures
        is_scc_list(
            set_int_range(0, graph_node_count(*g) as int),
            arcs_of(graph_edges(*g)),
            components(r),
        ),
{
    petgraph::algo::kosaraju_scc(g).into_iter().map(
        |c| c.into_iter().map(|n| n.index() as u32).collect(),
    ).collect()
}

/// `petgraph::algo::kosaraju_scc` on a `StableGraph`: its strongly connected
/// components in postorder. That every edge joins nodes of the graph holds
/// of every `StableGraph` (`try_add_edge` refuses any other edge, and
/// `remove_node` removes the edges of the node).
#[verifier::external_body]
pub(crate) fn stable_scc(g: &SubGraph) -> (r: Vec<Vec<u32>>)
    ensures
        is_scc_list(stable_nodes(*g), stable_arcs(*g), components(r)),
{
    petgraph::algo::kosaraju_scc(g).into_iter().map(
        |c| c.into_iter().map(|n| n.index() as u32).collect(),
    ).collect()
}

/// `petgraph::stable_graph::StableGraph::with_capacity`: a graph without
/// nodes or edges; the two numbers only size its storage.
#[verifier::external_body]
pub(crate) fn stable_with_capacity(nodes: usize, edges: usize) -> (g: SubGraph)
    ensures
        stable_nodes(g) == Set::<int>::empty(),
        stable_arcs(g) == Set::<(int, int)>::empty(),
        stable_edge_count(g) == 0,
{
    petgraph::stable_graph::StableGraph::with_capacity(nodes, edges)
}

/// `petgraph::stable_graph::StableGraph::try_add_node`: the new node gets an
/// index that no node of the graph has. The call is refused, and changes
/// nothing, only when the graph is full, which a graph with fewer than
/// `u32::MAX` nodes is not.
#[verifier::external_body]
pub(crate) fn stable_add_node(g: &mut SubGraph) -> (r: Option<u32>)
    ensures
        stable_arcs(*final(g)) == stable_arcs(*old(g)),
        stable_edge_count(*final(g)) == stable_edge_count(*old(g)),
        match r {
            Some(i) => !stable_nodes(*old(g)).contains(i as int) && stable_nodes(*final(g))
                == stable_nodes(*old(g)).insert(i as int),
            None => stable_nodes(*final(g)) == stable_nodes(*old(g)),
        },
        stable_nodes(*old(g)).len() < u32::MAX ==> r.is_some(),
{
    match g.try_add_node(()) {
        Ok(i) => Some(i.index() as u32),
        Err(_) => None,
    }
}

/// `petgraph::stable_graph::StableGraph::try_add_edge`, for endpoints that
/// are nodes of the graph: adds an edge from `a` to `b`. The call is refused,
/// and changes nothing, only when the graph is full, which a graph with
/// fewer than `u32::MAX` edges is not.
#[verifier::external_body]
pub(crate) fn stable_add_edge(g: &mut SubGraph, a: u32, b: u32) -> (r: Option<u32>)
    requires
        stable_nodes(*old(g)).contains(a as int),
        stable_nodes(*old(g)).contains(b as int),
    ensures
        stable_nodes(*final(g)) == stable_nodes(*old(g)),
        r.is_some() ==> stable_arcs(*final(g)) == stable_arcs(*old(g)).insert(
            (a as int, b as int),
        ) && stable_edge_count(*final(g)) == stable_edge_count(*old(g)) + 1,
        r.is_none() ==> stable_arcs(*final(g)) == stable_arcs(*old(g)) && stable_edge_count(
            *final(g),
        ) == stable_edge_count(*old(g)),
        stable_edge_count(*old(g)) < u32::MAX ==> r.is_some(),
{
    let a = petgraph::stable_graph::NodeIndex::new(a as usize);
    let b = petgraph::stable_graph::NodeIndex::new(b as usize);
    match g.try_add_edge(a, b, ()) {
        Ok(e) => Some(e.index() as u32),
        Err(_) => None,
    }
}

/// `petgraph::stable_graph::StableGraph::neighbors`: the targets of the edges
/// that leave `a`, one for each edge. Empty when `a` is no node.
#[verifier::external_body]
pub(crate) fn stable_neighbors(g: &SubGraph, a: u32) -> (r: Vec<u32>)
    ensures
        forall|k: int| 0 <= k < r@.len() ==> stable_arcs(*g).contains((a as int, #[trigger] r@[k] as int)),
        forall|b: u32| #[trigger] stable_arcs(*g).contains((a as int, b as int)) ==> r@.contains(b),
{
    let a = petgraph::stable_graph::NodeIndex::new(a as usize);
    g.neighbors(a).map(|n| n.index() as u32).collect()
}

/// The arcs that neither leave nor enter `a`.
pub open spec fn arcs_without(arcs: Set<(int, int)>, a: int) -> Set<(int, int)> {
    Set::new(|p: (int, int)| arcs.contains(p) && p.0 != a && p.1 != a)
}

/// `petgraph::stable_graph::StableGraph::remove_node`: removes node `a` and
/// every edge that leaves or enters it; the other nodes keep their indices.
/// True when `a` was a node.
#[verifier::external_body]
pub(crate) fn stable_remove_node(g: &mut SubGraph, a: u32) -> (was_node: bool)
    ensures
        was_node == stable_nodes(*old(g)).contains(a as int),
        stable_nodes(*final(g)) == stable_nodes(*old(g)).remove(a as int),
        stable_arcs(*final(g)) == arcs_without(stable_arcs(*old(g)), a as int),
        stable_edge_count(*final(g)) <= stable_edge_count(*old(g)),
{
    g.remove_node(petgraph::stable_graph::NodeIndex::new(a as usize)).is_some()
}

} // verus!
