//! What the enumeration of simple cycles has found and what it has yet to
//! find.
//!
//! Simple cycles are told apart up to the node they are begun at. Every
//! simple cycle lies within one strongly connected component. Of the cycles
//! within a component, those through the start node are found by the search
//! in that component; the others lie within what is left of the component
//! when the start node is taken out, and so within one of its strongly
//! connected components. This file keeps the books: at every moment each
//! simple cycle of the graph is found, or lies within a component that
//! waits, or lies within the component being searched.
use crate::algorithms::johnson_simple_cycles::is_simple_cycle;
use crate::algorithms::path_edges::{is_cycle_edge, is_simple_edge_cycle};
use crate::graph::{arcs_of, concat_all, is_scc_list, reaches};
use vstd::prelude::*;

verus! {

/// `a` begun at its place `r`.
pub open spec fn rotated(a: Seq<u32>, r: int) -> Seq<u32> {
    a.skip(r) + a.take(r)
}

/// `b` is the cycle `a` begun at another of its nodes, or `a` itself.
pub open spec fn is_rotation(a: Seq<u32>, b: Seq<u32>) -> bool {
    exists|r: int| 0 <= r < a.len() && #[trigger] rotated(a, r) == b
}

/// Every node of `c` is one of `comp`.
pub open spec fn within(c: Seq<u32>, comp: Seq<u32>) -> bool {
    forall|j: int| 0 <= j < c.len() ==> comp.contains(#[trigger] c[j])
}

/// Every node of `c` is in `live`.
pub open spec fn within_set(c: Seq<u32>, live: Set<u32>) -> bool {
    forall|j: int| 0 <= j < c.len() ==> live.contains(#[trigger] c[j])
}

/// Some node of `c` is in `dead`.
pub open spec fn touches(c: Seq<u32>, dead: Set<u32>) -> bool {
    exists|i: int| 0 <= i < c.len() && dead.contains(#[trigger] c[i])
}

/// A cycle begun elsewhere has the same nodes.
pub proof fn lemma_rotated_members(a: Seq<u32>, r: int, x: u32)
    requires
        0 <= r < a.len(),
    ensures
        rotated(a, r).contains(x) <==> a.contains(x),
        rotated(a, r).len() == a.len(),
        rotated(a, r)[0] == a[r],
{
    let b = rotated(a, r);
    if b.contains(x) {
        let i = choose|i: int| 0 <= i < b.len() && b[i] == x;
        if i < a.len() - r {
            assert(a[r + i] == x);
        } else {
            assert(a[i - (a.len() - r)] == x);
        }
    }
    if a.contains(x) {
        let i = choose|i: int| 0 <= i < a.len() && a[i] == x;
        if i >= r {
            assert(b[i - r] == x);
        } else {
            assert(b[a.len() - r + i] == x);
        }
    }
}

/// The place in `a` of what stands at place `i` of `a` begun at `r`.
pub open spec fn turned(n: int, r: int, i: int) -> int {
    if i < n - r {
        r + i
    } else {
        i - (n - r)
    }
}

/// What stands at place `i` of a sequence begun at `r`.
pub proof fn lemma_rotated_index(a: Seq<u32>, r: int, i: int)
    requires
        0 <= r < a.len(),
        0 <= i < a.len(),
    ensures
        0 <= turned(a.len() as int, r, i) < a.len(),
        rotated(a, r)[i] == a[turned(a.len() as int, r, i)],
{
}

/// A simple cycle begun elsewhere is a simple cycle.
#[verifier::rlimit(50)]
pub proof fn lemma_rotated_cycle(arcs: Set<(int, int)>, c: Seq<u32>, r: int)
    requires
        is_simple_cycle(arcs, c),
        0 <= r < c.len(),
    ensures
        is_simple_cycle(arcs, rotated(c, r)),
{
    let b = rotated(c, r);
    let n = c.len() as int;
    assert(b.len() == n);
    assert(b.no_duplicates()) by {
        assert forall|i: int, j: int| 0 <= i < b.len() && 0 <= j < b.len() && i != j implies b[i]
            != b[j] by {
            lemma_rotated_index(c, r, i);
            lemma_rotated_index(c, r, j);
            assert(turned(n, r, i) != turned(n, r, j));
        }
    }
    assert forall|i: int| 0 <= i < b.len() - 1 implies #[trigger] arcs.contains(
        (b[i] as int, b[i + 1] as int),
    ) by {
        lemma_rotated_index(c, r, i);
        lemma_rotated_index(c, r, i + 1);
        let k = turned(n, r, i);
        if k == n - 1 {
            assert(c[k] == c.last());
            assert(turned(n, r, i + 1) == 0);
        } else {
            assert(turned(n, r, i + 1) == k + 1);
            assert(arcs.contains((c[k] as int, c[k + 1] as int)));
        }
    }
    assert(arcs.contains((b.last() as int, b[0] as int))) by {
        lemma_rotated_index(c, r, n - 1);
        lemma_rotated_index(c, r, 0);
        if r == 0 {
            assert(b.last() == c.last());
            assert(b[0] == c[0]);
        } else {
            assert(b.last() == c[r - 1]);
            assert(b[0] == c[r - 1 + 1]);
            assert(arcs.contains((c[r - 1] as int, c[r - 1 + 1] as int)));
        }
    }
}

/// Two simple cycles that are the same up to where they begin, and begin at
/// the same node, are the same.
pub proof fn lemma_rotation_same_start(a: Seq<u32>, b: Seq<u32>)
    requires
        a.no_duplicates(),
        is_rotation(a, b),
        a.len() > 0,
        a[0] == b[0],
    ensures
        a == b,
{
    let r = choose|r: int| 0 <= r < a.len() && #[trigger] rotated(a, r) == b;
    assert(b[0] == a[r]);
    assert(r == 0);
    assert(rotated(a, 0) =~= a);
}

/// `found` lists the simple cycles of the graph: each entry is a simple
/// cycle, no two entries are the same cycle, begun at the same node or at
/// another, and every simple cycle of the graph is an entry, begun at one of
/// its nodes.
pub open spec fn enumerates(arcs: Set<(int, int)>, found: Seq<Seq<u32>>) -> bool {
    &&& forall|k: int| 0 <= k < found.len() ==> is_simple_cycle(arcs, #[trigger] found[k])
    &&& forall|j: int, k: int|
        0 <= j < found.len() && 0 <= k < found.len() && j != k ==> !is_rotation(
            #[trigger] found[j],
            #[trigger] found[k],
        )
    &&& forall|c: Seq<u32>| #[trigger]
        is_simple_cycle(arcs, c) ==> exists|k: int|
            0 <= k < found.len() && is_rotation(c, #[trigger] found[k])
}

/// The books of the enumeration.
pub struct Books {
    /// The arcs of the graph.
    pub arcs: Set<(int, int)>,
    /// The cycles found, in the order they were found.
    pub found: Seq<Seq<u32>>,
    /// How many cycles were found before the search that is under way.
    pub base: nat,
    /// The nodes that were start nodes of searches that have ended.
    pub dead: Set<u32>,
    /// The components that wait to be searched.
    pub waiting: Seq<Seq<u32>>,
    /// The nodes of the component being searched; empty between searches.
    pub live: Set<u32>,
    /// The start node of the search that is under way.
    pub start: u32,
}

impl Books {
    /// `c` is found, or lies within a component that waits, or lies within
    /// the component being searched.
    pub open spec fn covers(self, c: Seq<u32>) -> bool {
        ||| exists|k: int| 0 <= k < self.found.len() && is_rotation(c, #[trigger] self.found[k])
        ||| exists|i: int| 0 <= i < self.waiting.len() && within(c, #[trigger] self.waiting[i])
        ||| within_set(c, self.live)
    }

    /// The books are in order: every simple cycle of the graph is covered;
    /// what was found are simple cycles of the graph, no two of them the
    /// same up to where they begin; the cycles found before the search under
    /// way each pass through a dead node, those found by it begin at its
    /// start node and lie within its component; dead nodes are in no
    /// component that waits or is searched; and no node is in two of those
    /// components or twice in one.
    #[verifier::opaque]
    pub open spec fn ok(self) -> bool {
        &&& self.base <= self.found.len()
        &&& forall|c: Seq<u32>| #[trigger] is_simple_cycle(self.arcs, c) ==> self.covers(c)
        &&& forall|k: int|
            0 <= k < self.found.len() ==> is_simple_cycle(self.arcs, #[trigger] self.found[k])
        &&& forall|j: int, k: int|
            0 <= j < self.found.len() && 0 <= k < self.found.len() && j != k ==> !is_rotation(
                #[trigger] self.found[j],
                #[trigger] self.found[k],
            )
        &&& forall|j: int| 0 <= j < self.base ==> touches(#[trigger] self.found[j], self.dead)
        &&& forall|j: int|
            self.base <= j < self.found.len() ==> (#[trigger] self.found[j])[0] == self.start
                && within_set(self.found[j], self.live)
        &&& forall|x: u32| #[trigger] self.dead.contains(x) ==> !self.live.contains(x)
        &&& forall|i: int, j: int|
            0 <= i < self.waiting.len() && 0 <= j < self.waiting[i].len() ==> !self.dead.contains(
                #[trigger] self.waiting[i][j],
            ) && !self.live.contains(self.waiting[i][j])
        &&& concat_all(self.waiting).no_duplicates()
    }

    /// When no component waits and none is searched, every simple cycle of
    /// the graph has been found, and found once.
    pub proof fn lemma_all_found(self, c: Seq<u32>)
        requires
            self.ok(),
            self.waiting.len() == 0,
            self.live == Set::<u32>::empty(),
            is_simple_cycle(self.arcs, c),
        ensures
            exists|k: int| 0 <= k < self.found.len() && is_rotation(c, #[trigger] self.found[k]),
    {
        reveal(Books::ok);
        assert(self.covers(c));
        if within_set(c, self.live) {
            assert(self.live.contains(c[0]));
        }
    }

    /// What was found are simple cycles of the graph, no two of them the
    /// same up to where they begin.
    pub proof fn lemma_found_once(self)
        requires
            self.ok(),
        ensures
            forall|k: int|
                0 <= k < self.found.len() ==> is_simple_cycle(self.arcs, #[trigger] self.found[k]),
            forall|j: int, k: int|
                0 <= j < self.found.len() && 0 <= k < self.found.len() && j != k ==> !is_rotation(
                    #[trigger] self.found[j],
                    #[trigger] self.found[k],
                ),
    {
        reveal(Books::ok);
    }
}

/// From the first node of a simple cycle every node of it can be reached.
proof fn lemma_cycle_forward(arcs: Set<(int, int)>, c: Seq<u32>, k: int)
    requires
        is_simple_cycle(arcs, c),
        0 <= k < c.len(),
    ensures
        reaches(arcs, c[0] as int, c[k] as int),
    decreases k,
{
    if k == 0 {
        crate::graph::lemma_reaches_refl(arcs, c[0] as int);
    } else {
        lemma_cycle_forward(arcs, c, k - 1);
        assert(arcs.contains((c[k - 1] as int, c[k - 1 + 1] as int)));
        crate::graph::lemma_reaches_arc(arcs, c[k - 1] as int, c[k] as int);
        crate::graph::lemma_reaches_trans(arcs, c[0] as int, c[k - 1] as int, c[k] as int);
    }
}

/// From every node of a simple cycle its first node can be reached.
proof fn lemma_cycle_back(arcs: Set<(int, int)>, c: Seq<u32>, k: int)
    requires
        is_simple_cycle(arcs, c),
        0 <= k < c.len(),
    ensures
        reaches(arcs, c[k] as int, c[0] as int),
    decreases c.len() - k,
{
    if k == c.len() - 1 {
        assert(c[k] == c.last());
        crate::graph::lemma_reaches_arc(arcs, c[k] as int, c[0] as int);
    } else {
        lemma_cycle_back(arcs, c, k + 1);
        assert(arcs.contains((c[k] as int, c[k + 1] as int)));
        crate::graph::lemma_reaches_arc(arcs, c[k] as int, c[k + 1] as int);
        crate::graph::lemma_reaches_trans(arcs, c[k] as int, c[k + 1] as int, c[0] as int);
    }
}

/// A node among the nodes of all components is a node of one of them.
pub proof fn lemma_concat_member(comps: Seq<Seq<u32>>, x: u32) -> (r: (int, int))
    requires
        concat_all(comps).contains(x),
    ensures
        0 <= r.0 < comps.len(),
        0 <= r.1 < comps[r.0].len(),
        comps[r.0][r.1] == x,
    decreases comps.len(),
{
    let all = concat_all(comps);
    let front = concat_all(comps.drop_last());
    let k = choose|k: int| 0 <= k < all.len() && all[k] == x;
    if k < front.len() {
        assert(front[k] == x);
        let r = lemma_concat_member(comps.drop_last(), x);
        assert(comps.drop_last()[r.0] == comps[r.0]);
        r
    } else {
        assert(comps.last()[k - front.len()] == x);
        (comps.len() - 1, k - front.len())
    }
}

/// Where a node of a component stands among the nodes of all components.
pub proof fn lemma_concat_place(comps: Seq<Seq<u32>>, i: int, j: int) -> (k: int)
    requires
        0 <= i < comps.len(),
        0 <= j < comps[i].len(),
    ensures
        0 <= k < concat_all(comps).len(),
        concat_all(comps)[k] == comps[i][j],
        k == concat_all(comps.take(i)).len() + j,
    decreases comps.len(),
{
    let all = concat_all(comps);
    let front = concat_all(comps.drop_last());
    if i == comps.len() - 1 {
        assert(comps.take(i) =~= comps.drop_last());
        assert(all[front.len() + j] == comps[i][j]);
        front.len() + j
    } else {
        let k = lemma_concat_place(comps.drop_last(), i, j);
        assert(comps.drop_last().take(i) =~= comps.take(i));
        assert(all[k] == comps[i][j]);
        k
    }
}

/// The nodes of the first components stand before those of the later ones.
pub proof fn lemma_concat_take_len(comps: Seq<Seq<u32>>, i: int)
    requires
        0 <= i < comps.len(),
    ensures
        concat_all(comps.take(i)).len() + comps[i].len() == concat_all(comps.take(i + 1)).len(),
        concat_all(comps.take(i + 1)).len() <= concat_all(comps).len(),
    decreases comps.len() - i,
{
    assert(comps.take(i + 1).drop_last() =~= comps.take(i));
    assert(comps.take(i + 1).last() == comps[i]);
    if i + 1 < comps.len() {
        lemma_concat_take_len(comps, i + 1);
    } else {
        assert(comps.take(i + 1) =~= comps);
    }
}

/// The first `i` components hold no more nodes than the first `k`, for
/// `i <= k`.
pub proof fn lemma_concat_take_mono(comps: Seq<Seq<u32>>, i: int, k: int)
    requires
        0 <= i <= k <= comps.len(),
    ensures
        concat_all(comps.take(i)).len() <= concat_all(comps.take(k)).len(),
    decreases k - i,
{
    if i < k {
        lemma_concat_take_len(comps, i);
        lemma_concat_take_mono(comps, i + 1, k);
    }
}

/// When no node stands twice among the nodes of all components, nodes at
/// different places of the components differ.
pub proof fn lemma_concat_apart(comps: Seq<Seq<u32>>, i1: int, j1: int, i2: int, j2: int)
    requires
        concat_all(comps).no_duplicates(),
        0 <= i1 < comps.len(),
        0 <= j1 < comps[i1].len(),
        0 <= i2 < comps.len(),
        0 <= j2 < comps[i2].len(),
        i1 != i2 || j1 != j2,
    ensures
        comps[i1][j1] != comps[i2][j2],
{
    let k1 = lemma_concat_place(comps, i1, j1);
    let k2 = lemma_concat_place(comps, i2, j2);
    if i1 < i2 {
        lemma_concat_take_len(comps, i1);
        lemma_concat_take_mono(comps, i1 + 1, i2);
    } else if i2 < i1 {
        lemma_concat_take_len(comps, i2);
        lemma_concat_take_mono(comps, i2 + 1, i1);
    }
    assert(k1 != k2);
}

/// Every simple cycle lies within one strongly connected component.
#[verifier::rlimit(50)]
pub proof fn lemma_cycle_in_component(
    nodes: Set<int>,
    arcs: Set<(int, int)>,
    comps: Seq<Seq<u32>>,
    c: Seq<u32>,
) -> (i: int)
    requires
        is_scc_list(nodes, arcs, comps),
        is_simple_cycle(arcs, c),
    ensures
        0 <= i < comps.len(),
        within(c, comps[i]),
{
    assert(nodes.contains(c[0] as int)) by {
        if c.len() > 1 {
            assert(arcs.contains((c[0int] as int, c[0int + 1] as int)));
        } else {
            assert(c.last() == c[0]);
        }
    }
    let first = lemma_concat_member(comps, c[0]);
    assert forall|k: int| 0 <= k < c.len() implies comps[first.0].contains(#[trigger] c[k]) by {
        lemma_cycle_forward(arcs, c, k);
        lemma_cycle_back(arcs, c, k);
        assert(nodes.contains(c[k] as int)) by {
            if k < c.len() - 1 {
                assert(arcs.contains((c[k] as int, c[k + 1] as int)));
            } else {
                assert(c.last() == c[k]);
            }
        }
        let here = lemma_concat_member(comps, c[k]);
        assert(comps[first.0][first.1] == c[0]);
        assert(comps[here.0][here.1] == c[k]);
        assert(first.0 == here.0);
    }
    first.0
}

impl Books {
    /// The books with which an enumeration starts: nothing found, and the
    /// strongly connected components of the graph waiting.
    pub proof fn lemma_start(self, nodes: Set<int>)
        requires
            is_scc_list(nodes, self.arcs, self.waiting),
            self.found.len() == 0,
            self.base == 0,
            self.dead == Set::<u32>::empty(),
            self.live == Set::<u32>::empty(),
        ensures
            self.ok(),
    {
        reveal(Books::ok);
        assert forall|c: Seq<u32>| #[trigger] is_simple_cycle(self.arcs, c) implies self.covers(
            c,
        ) by {
            let i = lemma_cycle_in_component(nodes, self.arcs, self.waiting, c);
            assert(within(c, self.waiting[i]));
        }
    }

    /// Taking the last waiting component up for search keeps the books in
    /// order.
    #[verifier::rlimit(50)]
    pub proof fn lemma_begin(self, s2: Self)
        requires
            self.ok(),
            self.live == Set::<u32>::empty(),
            self.base == self.found.len(),
            self.waiting.len() > 0,
            s2.arcs == self.arcs,
            s2.found == self.found,
            s2.base == self.base,
            s2.dead == self.dead,
            s2.waiting == self.waiting.drop_last(),
            forall|x: u32| s2.live.contains(x) <==> self.waiting.last().contains(x),
        ensures
            s2.ok(),
    {
        reveal(Books::ok);
        let n = self.waiting.len() - 1;
        let comp = self.waiting.last();
        assert(self.waiting[n] == comp);
        assert forall|c: Seq<u32>| #[trigger] is_simple_cycle(s2.arcs, c) implies s2.covers(c) by {
            assert(self.covers(c));
            if exists|i: int| 0 <= i < self.waiting.len() && within(c, #[trigger] self.waiting[i]) {
                let i = choose|i: int|
                    0 <= i < self.waiting.len() && within(c, #[trigger] self.waiting[i]);
                if i < n {
                    assert(s2.waiting[i] == self.waiting[i]);
                } else {
                    assert(within_set(c, s2.live));
                }
            } else if within_set(c, self.live) {
                assert(self.live.contains(c[0]));
            }
        }
        assert forall|x: u32| #[trigger] s2.dead.contains(x) implies !s2.live.contains(x) by {
            if s2.live.contains(x) {
                let j = choose|j: int| 0 <= j < comp.len() && comp[j] == x;
                assert(!self.dead.contains(self.waiting[n][j]));
            }
        }
        assert forall|i: int, j: int|
            0 <= i < s2.waiting.len() && 0 <= j < s2.waiting[i].len() implies !s2.dead.contains(
            #[trigger] s2.waiting[i][j],
        ) && !s2.live.contains(s2.waiting[i][j]) by {
            assert(s2.waiting[i] == self.waiting[i]);
            assert(!self.dead.contains(self.waiting[i][j]));
            if s2.live.contains(s2.waiting[i][j]) {
                let k = choose|k: int| 0 <= k < comp.len() && comp[k] == s2.waiting[i][j];
                lemma_concat_apart(self.waiting, i, j, n, k);
            }
        }
        assert(concat_all(s2.waiting).no_duplicates()) by {
            let all = concat_all(self.waiting);
            let front = concat_all(s2.waiting);
            assert forall|a: int, b: int|
                0 <= a < front.len() && 0 <= b < front.len() && a != b implies front[a]
                != front[b] by {
                assert(all[a] == front[a] && all[b] == front[b]);
            }
        }
    }

    /// One more cycle found by the search under way keeps the books in
    /// order.
    #[verifier::rlimit(50)]
    pub proof fn lemma_yield(self, s2: Self, c: Seq<u32>)
        requires
            self.ok(),
            is_simple_cycle(self.arcs, c),
            c[0] == self.start,
            within_set(c, self.live),
            forall|j: int| self.base <= j < self.found.len() ==> #[trigger] self.found[j] != c,
            s2 == (Books { found: self.found.push(c), ..self }),
        ensures
            s2.ok(),
    {
        reveal(Books::ok);
        let n = self.found.len() as int;
        assert(s2.found[n] == c);
        assert(s2.waiting == self.waiting && s2.live == self.live && s2.arcs == self.arcs);
        assert forall|x: Seq<u32>| #[trigger] is_simple_cycle(s2.arcs, x) implies s2.covers(x) by {
            assert(self.covers(x));
            if exists|k: int| 0 <= k < self.found.len() && is_rotation(x, #[trigger] self.found[k]) {
                let k = choose|k: int|
                    0 <= k < self.found.len() && is_rotation(x, #[trigger] self.found[k]);
                assert(s2.found[k] == self.found[k]);
                assert(is_rotation(x, s2.found[k]));
            } else if exists|i: int|
                0 <= i < self.waiting.len() && within(x, #[trigger] self.waiting[i]) {
                let i = choose|i: int|
                    0 <= i < self.waiting.len() && within(x, #[trigger] self.waiting[i]);
                assert(within(x, s2.waiting[i]));
            } else {
                assert(within_set(x, s2.live));
            }
        }
        assert forall|k: int| 0 <= k < s2.found.len() implies is_simple_cycle(
            s2.arcs,
            #[trigger] s2.found[k],
        ) by {
            if k < n {
                assert(s2.found[k] == self.found[k]);
            }
        }
        assert forall|j: int| 0 <= j < n implies !is_rotation(self.found[j], c) && !is_rotation(
            c,
            #[trigger] self.found[j],
        ) by {
            let f = self.found[j];
            assert(is_simple_cycle(self.arcs, f));
            if j < self.base {
                assert(touches(f, self.dead));
                let i = choose|i: int| 0 <= i < f.len() && self.dead.contains(#[trigger] f[i]);
                assert(f.contains(f[i]));
                if is_rotation(f, c) {
                    let r = choose|r: int| 0 <= r < f.len() && #[trigger] rotated(f, r) == c;
                    lemma_rotated_members(f, r, f[i]);
                    let k = choose|k: int| 0 <= k < c.len() && c[k] == f[i];
                    assert(self.live.contains(c[k]));
                }
                if is_rotation(c, f) {
                    let r = choose|r: int| 0 <= r < c.len() && #[trigger] rotated(c, r) == f;
                    lemma_rotated_members(c, r, f[i]);
                    let k = choose|k: int| 0 <= k < c.len() && c[k] == f[i];
                    assert(self.live.contains(c[k]));
                }
            } else {
                assert(f[0] == self.start);
                assert(f != c);
                if is_rotation(f, c) {
                    lemma_rotation_same_start(f, c);
                }
                if is_rotation(c, f) {
                    lemma_rotation_same_start(c, f);
                }
            }
        }
        assert forall|j: int, k: int|
            0 <= j < s2.found.len() && 0 <= k < s2.found.len() && j != k implies !is_rotation(
            #[trigger] s2.found[j],
            #[trigger] s2.found[k],
        ) by {
            if j < n && k < n {
                assert(s2.found[j] == self.found[j] && s2.found[k] == self.found[k]);
            } else if j < n {
                assert(s2.found[j] == self.found[j]);
            } else {
                assert(s2.found[k] == self.found[k]);
            }
        }
        assert forall|j: int| 0 <= j < s2.base implies touches(#[trigger] s2.found[j], s2.dead) by {
            assert(s2.found[j] == self.found[j]);
        }
        assert forall|j: int| s2.base <= j < s2.found.len() implies (#[trigger] s2.found[j])[0]
            == s2.start && within_set(s2.found[j], s2.live) by {
            if j < n {
                assert(s2.found[j] == self.found[j]);
            }
        }
    }
}

/// The nodes of two rows of components are the nodes of the first row and
/// then those of the second.
pub proof fn lemma_concat_add(a: Seq<Seq<u32>>, b: Seq<Seq<u32>>)
    ensures
        concat_all(a + b) == concat_all(a) + concat_all(b),
    decreases b.len(),
{
    if b.len() == 0 {
        assert(a + b =~= a);
        assert(concat_all(a) + concat_all(b) =~= concat_all(a));
    } else {
        lemma_concat_add(a, b.drop_last());
        assert((a + b).drop_last() =~= a + b.drop_last());
        assert((a + b).last() == b.last());
        assert(concat_all(a + b) =~= concat_all(a) + concat_all(b));
    }
}

impl Books {
    /// Ending the search of a component keeps the books in order: its start
    /// node is dead, the cycles through the start node are found, and what
    /// is left of the component waits, taken apart into `subs`.
    #[verifier::rlimit(50)]
    pub proof fn lemma_end(self, s2: Self, subs: Seq<Seq<u32>>)
        requires
            self.ok(),
            forall|x: u32| #[trigger] self.live.contains(x) ==> self.live.contains(self.start),
            forall|c: Seq<u32>|
                #[trigger] is_simple_cycle(self.arcs, c) && within_set(c, self.live) && c[0]
                    == self.start ==> self.found.contains(c),
            forall|c: Seq<u32>|
                #[trigger] is_simple_cycle(self.arcs, c) && within_set(c, self.live) && !c.contains(
                    self.start,
                ) ==> exists|i: int| 0 <= i < subs.len() && within(c, #[trigger] subs[i]),
            forall|i: int, j: int|
                0 <= i < subs.len() && 0 <= j < subs[i].len() ==> self.live.contains(
                    #[trigger] subs[i][j],
                ) && subs[i][j] != self.start,
            concat_all(subs).no_duplicates(),
            s2.arcs == self.arcs,
            s2.found == self.found,
            s2.base == self.found.len(),
            s2.waiting == self.waiting + subs,
            s2.live == Set::<u32>::empty(),
            forall|x: u32|
                s2.dead.contains(x) <==> self.dead.contains(x) || (x == self.start
                    && self.live.contains(self.start)),
        ensures
            s2.ok(),
    {
        reveal(Books::ok);
        let n = self.waiting.len() as int;
        assert forall|i: int| 0 <= i < n implies s2.waiting[i] == #[trigger] self.waiting[i] by {}
        assert forall|i: int| 0 <= i < subs.len() implies s2.waiting[n + i] == #[trigger] subs[i] by {}
        assert forall|c: Seq<u32>| #[trigger] is_simple_cycle(s2.arcs, c) implies s2.covers(c) by {
            assert(self.covers(c));
            if exists|k: int| 0 <= k < self.found.len() && is_rotation(c, #[trigger] self.found[k]) {
                let k = choose|k: int|
                    0 <= k < self.found.len() && is_rotation(c, #[trigger] self.found[k]);
                assert(is_rotation(c, s2.found[k]));
            } else if exists|i: int|
                0 <= i < self.waiting.len() && within(c, #[trigger] self.waiting[i]) {
                let i = choose|i: int|
                    0 <= i < self.waiting.len() && within(c, #[trigger] self.waiting[i]);
                assert(s2.waiting[i] == self.waiting[i]);
                assert(within(c, s2.waiting[i]));
            } else {
                assert(within_set(c, self.live));
                if c.contains(self.start) {
                    let r = choose|r: int| 0 <= r < c.len() && c[r] == self.start;
                    let turned_c = rotated(c, r);
                    lemma_rotated_cycle(self.arcs, c, r);
                    lemma_rotated_members(c, r, self.start);
                    assert(within_set(turned_c, self.live)) by {
                        assert forall|j: int| 0 <= j < turned_c.len() implies self.live.contains(
                            #[trigger] turned_c[j],
                        ) by {
                            lemma_rotated_members(c, r, turned_c[j]);
                            assert(turned_c.contains(turned_c[j]));
                            let k = choose|k: int| 0 <= k < c.len() && c[k] == turned_c[j];
                            assert(self.live.contains(c[k]));
                        }
                    }
                    assert(self.found.contains(turned_c));
                    let k = choose|k: int| 0 <= k < self.found.len() && self.found[k] == turned_c;
                    assert(rotated(c, r) == s2.found[k]);
                    assert(is_rotation(c, s2.found[k]));
                } else {
                    let i = choose|i: int| 0 <= i < subs.len() && within(c, #[trigger] subs[i]);
                    assert(s2.waiting[n + i] == subs[i]);
                    assert(within(c, s2.waiting[n + i]));
                }
            }
        }
        assert forall|j: int| 0 <= j < s2.base implies touches(#[trigger] s2.found[j], s2.dead) by {
            let f = self.found[j];
            if j < self.base {
                assert(touches(f, self.dead));
                let i = choose|i: int| 0 <= i < f.len() && self.dead.contains(#[trigger] f[i]);
                assert(s2.dead.contains(f[i]));
            } else {
                assert(is_simple_cycle(self.arcs, f));
                assert(f[0] == self.start && within_set(f, self.live));
                assert(self.live.contains(f[0]));
                assert(s2.dead.contains(f[0]));
            }
        }
        assert forall|i: int, j: int|
            0 <= i < s2.waiting.len() && 0 <= j < s2.waiting[i].len() implies !s2.dead.contains(
            #[trigger] s2.waiting[i][j],
        ) && !s2.live.contains(s2.waiting[i][j]) by {
            if i < n {
                assert(s2.waiting[i] == self.waiting[i]);
                assert(!self.dead.contains(self.waiting[i][j]));
                assert(!self.live.contains(self.waiting[i][j]));
            } else {
                assert(s2.waiting[n + (i - n)] == subs[i - n]);
                assert(self.live.contains(subs[i - n][j]));
            }
        }
        assert(concat_all(s2.waiting).no_duplicates()) by {
            lemma_concat_add(self.waiting, subs);
            let a = concat_all(self.waiting);
            let b = concat_all(subs);
            let all = a + b;
            assert forall|x: int, y: int|
                0 <= x < all.len() && 0 <= y < all.len() && x != y implies all[x] != all[y] by {
                if x < a.len() && y < a.len() {
                    assert(a[x] != a[y]);
                } else if x >= a.len() && y >= a.len() {
                    assert(b[x - a.len()] != b[y - a.len()]);
                } else {
                    let (lo, hi) = if x < y {
                        (x, y)
                    } else {
                        (y, x)
                    };
                    assert(a.contains(a[lo]));
                    assert(b.contains(b[hi - a.len()]));
                    let p = lemma_concat_member(self.waiting, a[lo]);
                    let q = lemma_concat_member(subs, b[hi - a.len()]);
                    assert(!self.live.contains(self.waiting[p.0][p.1]));
                    assert(self.live.contains(subs[q.0][q.1]));
                }
            }
        }
    }
}

/// The place that a cycle of `n` nodes visits after place `i`.
pub open spec fn next_place(n: int, i: int) -> int {
    if i + 1 < n {
        i + 1
    } else {
        0
    }
}

/// Edge `e` leads from a node of the cycle `c` to the node that `c` visits
/// next.
pub open spec fn is_edge_of_cycle(edges: Seq<(int, int)>, c: Seq<u32>, e: int) -> bool {
    exists|i: int|
        0 <= i < c.len() && edges[e].0 == #[trigger] c[i] && edges[e].1 == c[next_place(
            c.len() as int,
            i,
        )]
}

/// An edge of a cycle is an edge of the same cycle begun elsewhere.
proof fn lemma_edge_of_rotated(edges: Seq<(int, int)>, c: Seq<u32>, r: int, e: int)
    requires
        0 <= r < c.len(),
        is_edge_of_cycle(edges, c, e),
    ensures
        is_edge_of_cycle(edges, rotated(c, r), e),
{
    let n = c.len() as int;
    let b = rotated(c, r);
    let i = choose|i: int|
        0 <= i < c.len() && edges[e].0 == #[trigger] c[i] && edges[e].1 == c[next_place(n, i)];
    let t = if i >= r {
        i - r
    } else {
        i + n - r
    };
    lemma_rotated_index(c, r, t);
    lemma_rotated_index(c, r, next_place(n, t));
    assert(turned(n, r, t) == i);
    assert(turned(n, r, next_place(n, t)) == next_place(n, i));
    assert(b[t] == c[i]);
    assert(b[next_place(n, t)] == c[next_place(n, i)]);
    assert(b.len() == n);
}

/// Parity of the two analyses: an edge lies on a cycle exactly when it is
/// an edge of one of the simple cycles of the graph, as an enumeration of
/// them lists them.
#[verifier::rlimit(50)]
pub proof fn lemma_cycle_edges_are_edges_of_cycles(
    edges: Seq<(int, int)>,
    found: Seq<Seq<u32>>,
    e: int,
)
    requires
        enumerates(arcs_of(edges), found),
        0 <= e < edges.len(),
        forall|k: int|
            0 <= k < edges.len() ==> 0 <= (#[trigger] edges[k]).0 <= u32::MAX && 0 <= edges[k].1
                <= u32::MAX,
    ensures
        is_cycle_edge(edges, e) <==> exists|k: int|
            0 <= k < found.len() && is_edge_of_cycle(edges, #[trigger] found[k], e),
{
    let arcs = arcs_of(edges);
    if exists|k: int| 0 <= k < found.len() && is_edge_of_cycle(edges, #[trigger] found[k], e) {
        let k = choose|k: int|
            0 <= k < found.len() && is_edge_of_cycle(edges, #[trigger] found[k], e);
        let c = found[k];
        let n = c.len() as int;
        let i = choose|i: int|
            0 <= i < c.len() && edges[e].0 == #[trigger] c[i] && edges[e].1 == c[next_place(n, i)];
        assert(is_simple_cycle(arcs, c));
        lemma_cycle_back(arcs, c, next_place(n, i));
        lemma_cycle_forward(arcs, c, i);
        crate::graph::lemma_reaches_trans(arcs, edges[e].1, c[0] as int, edges[e].0);
    }
    if is_cycle_edge(edges, e) {
        crate::algorithms::path_edges::lemma_cycle_edge_on_simple_cycle(edges, e);
        let es = choose|es: Seq<int>|
            is_simple_edge_cycle(edges, es) && #[trigger] es.contains(e);
        let i = choose|i: int| 0 <= i < es.len() && es[i] == e;
        let n = es.len() as int;
        let c = Seq::new(es.len(), |j: int| edges[es[j]].0 as u32);
        assert(is_simple_cycle(arcs, c)) by {
            assert forall|a: int, b: int| 0 <= a < c.len() && 0 <= b < c.len() && a != b implies c[a]
                != c[b] by {
                assert(edges[es[a]].0 != edges[es[b]].0);
            }
            assert forall|j: int| 0 <= j < c.len() - 1 implies #[trigger] arcs.contains(
                (c[j] as int, c[j + 1] as int),
            ) by {
                assert(edges[es[j]].1 == edges[es[j + 1]].0);
                assert(edges.contains(edges[es[j]]));
                assert(edges[es[j]] == (c[j] as int, c[j + 1] as int));
            }
            assert(arcs.contains((c.last() as int, c[0] as int))) by {
                assert(es[n - 1] == es.last());
                assert(edges.contains(edges[es[n - 1]]));
                assert(edges[es[n - 1]] == (c.last() as int, c[0] as int));
            }
        }
        assert(is_edge_of_cycle(edges, c, e)) by {
            if i + 1 < n {
                assert(edges[es[i]].1 == edges[es[i + 1]].0);
            } else {
                assert(es[i] == es.last());
            }
            assert(edges[e].0 == c[i] && edges[e].1 == c[next_place(n, i)]);
        }
        let k = choose|k: int| 0 <= k < found.len() && is_rotation(c, #[trigger] found[k]);
        let r = choose|r: int| 0 <= r < c.len() && #[trigger] rotated(c, r) == found[k];
        lemma_edge_of_rotated(edges, c, r, e);
        assert(is_edge_of_cycle(edges, found[k], e));
    }
}

/// The cycle begun at its least node, so that the same cycle always looks
/// the same, wherever an enumeration began it.
#[verifier::rlimit(50)]
pub fn normalize_cycle(cycle: &Vec<u32>) -> (r: Vec<u32>)
    ensures
        cycle@.len() == 0 ==> r@.len() == 0,
        cycle@.len() > 0 ==> is_rotation(cycle@, r@) && forall|i: int|
            0 <= i < r@.len() ==> r@[0] <= #[trigger] r@[i],
{
    let n = cycle.len();
    if n == 0 {
        return Vec::new();
    }
    let mut least: usize = 0;
    let mut i: usize = 1;
    while i < n
        invariant
            n == cycle@.len(),
            0 <= least < i <= n,
            forall|k: int| 0 <= k < i ==> cycle@[least as int] <= #[trigger] cycle@[k],
        decreases n - i,
    {
        if cycle[i] < cycle[least] {
            least = i;
        }
        i += 1;
    }
    let mut out: Vec<u32> = Vec::with_capacity(n);
    let mut j: usize = least;
    while j < n
        invariant
            n == cycle@.len(),
            least <= j <= n,
            out@ == cycle@.subrange(least as int, j as int),
        decreases n - j,
    {
        out.push(cycle[j]);
        proof {
            assert(out@ =~= cycle@.subrange(least as int, j + 1));
        }
        j += 1;
    }
    let mut k: usize = 0;
    while k < least
        invariant
            n == cycle@.len(),
            0 <= k <= least < n,
            out@ == cycle@.skip(least as int) + cycle@.take(k as int),
        decreases least - k,
    {
        out.push(cycle[k]);
        proof {
            assert(out@ =~= cycle@.skip(least as int) + cycle@.take(k + 1));
        }
        k += 1;
    }
    proof {
        assert(out@ == rotated(cycle@, least as int));
        assert forall|i: int| 0 <= i < out@.len() implies out@[0] <= #[trigger] out@[i] by {
            lemma_rotated_index(cycle@, least as int, i);
            lemma_rotated_index(cycle@, least as int, 0);
        }
    }
    out
}

} // verus!
