//! The blocking discipline of the simple-cycle search, as plain values.
//!
//! The search walks from a start node along arcs and keeps the nodes it
//! stands on in `path`. A node is *blocked* while it is on the path and stays
//! blocked after it is left when no cycle was found through it; it is set
//! free again together with everything that was waiting for it once a cycle
//! is found through a node it leads to. This file states what holds between
//! two steps of the search and proves that each step keeps it. The one thing
//! the rest of the search needs from here is that a node on the path is never
//! set free, so that the path never meets itself.
use vstd::prelude::*;

verus! {

/// The state of the search in one component.
pub struct SearchModel {
    /// The nodes of the component.
    pub nodes: Set<u32>,
    /// The arcs of the component.
    pub arcs: Set<(int, int)>,
    /// The node where every cycle of this search starts and ends.
    pub start: u32,
    /// The nodes the search stands on, the start node first.
    pub path: Seq<u32>,
    /// For each node of the path, its successors that still wait to be tried,
    /// the next one last.
    pub remaining: Seq<Seq<u32>>,
    pub blocked: Set<u32>,
    /// The nodes through which a cycle was found since they were entered.
    pub closed: Set<u32>,
    /// For each node, the nodes that wait for it to be set free.
    pub block: Map<u32, Set<u32>>,
    /// For each blocked node that is not on the path, a position of the path
    /// below which it has nothing to wait for.
    pub lvl: spec_fn(u32) -> int,
    /// The cycles found so far, each as the path that the search stood on
    /// when it found the cycle.
    pub yielded: Seq<Seq<u32>>,
}

impl SearchModel {
    /// An arc leads from `v` to `w`.
    pub open spec fn succ(self, v: u32, w: u32) -> bool {
        self.arcs.contains((v as int, w as int))
    }

    /// Blocked and not on the path.
    pub open spec fn parked(self, v: u32) -> bool {
        self.blocked.contains(v) && !self.path.contains(v)
    }

    /// The position of a node of the path, the recorded level of any other.
    pub open spec fn level(self, v: u32) -> int {
        if self.path.contains(v) {
            self.path.index_of(v)
        } else {
            (self.lvl)(v)
        }
    }

    /// The nodes that wait for `v`.
    pub open spec fn block_of(self, v: u32) -> Set<u32> {
        if self.block.contains_key(v) {
            self.block[v]
        } else {
            Set::empty()
        }
    }

    /// The path is a path of the component from the start node, without
    /// repetition, all of it blocked; what waits at a node are successors of
    /// that node, none twice.
    pub open spec fn frames_ok(self) -> bool {
        &&& self.nodes.finite()
        &&& self.blocked.finite()
        &&& self.path.len() == self.remaining.len()
        &&& self.path.no_duplicates()
        &&& self.path.len() > 0 ==> self.path[0] == self.start
        &&& forall|a: u32, b: u32| #[trigger]
            self.succ(a, b) ==> self.nodes.contains(a) && self.nodes.contains(b)
        &&& forall|i: int|
            0 <= i < self.path.len() ==> self.blocked.contains(#[trigger] self.path[i])
                && self.nodes.contains(self.path[i])
        &&& forall|i: int|
            0 <= i < self.path.len() - 1 ==> #[trigger] self.succ(self.path[i], self.path[i + 1])
        &&& forall|i: int|
            0 <= i < self.remaining.len() ==> (#[trigger] self.remaining[i]).no_duplicates()
        &&& forall|i: int, k: int|
            0 <= i < self.remaining.len() && 0 <= k < self.remaining[i].len() ==> self.succ(
                self.path[i],
                #[trigger] self.remaining[i][k],
            )
    }

    /// Below a closed node of the path all are closed; every successor of a
    /// node of the path that is not closed still waits to be tried or is
    /// blocked.
    pub open spec fn closed_ok(self) -> bool {
        &&& forall|i: int, j: int|
            0 <= i < j < self.path.len() && self.closed.contains(#[trigger] self.path[j])
                ==> self.closed.contains(#[trigger] self.path[i])
        &&& forall|i: int, w: u32|
            0 <= i < self.path.len() && !self.closed.contains(self.path[i]) && #[trigger] self.succ(
                self.path[i],
                w,
            ) ==> self.remaining[i].contains(w) || self.blocked.contains(w)
    }

    /// Only blocked nodes are waited for, and only by their predecessors.
    pub open spec fn block_ok(self) -> bool {
        forall|v: u32, u: u32| #[trigger]
            self.block_of(v).contains(u) ==> self.blocked.contains(v) && self.succ(u, v)
    }

    /// A parked node waits for each of its successors, all of which are
    /// blocked and stand no higher than it; and it stands no higher than the
    /// top of the path.
    pub open spec fn parked_ok(self) -> bool {
        &&& forall|v: u32, w: u32|
            self.parked(v) && #[trigger] self.succ(v, w) ==> self.blocked.contains(w)
                && self.block_of(w).contains(v) && self.level(w) <= (self.lvl)(v)
        &&& forall|v: u32| #[trigger] self.parked(v) ==> (self.lvl)(v) <= self.path.len() - 1
    }

    /// A node of the path waits only for nodes that stand below it.
    pub open spec fn stale_ok(self) -> bool {
        forall|y: u32, q: int|
            0 <= q < self.path.len() && #[trigger] self.block_of(y).contains(self.path[q])
                ==> self.level(y) < q
    }

    /// What holds between two steps of the search.
    #[verifier::opaque]
    pub open spec fn inv(self) -> bool {
        &&& self.frames_ok()
        &&& self.closed_ok()
        &&& self.block_ok()
        &&& self.parked_ok()
        &&& self.stale_ok()
    }

    /// The level of a node of the path is its position.
    pub proof fn lemma_level_on_path(self, i: int)
        requires
            self.path.no_duplicates(),
            0 <= i < self.path.len(),
        ensures
            self.path.contains(self.path[i]),
            self.level(self.path[i]) == i,
    {
        let j = self.path.index_of(self.path[i]);
        assert(0 <= j < self.path.len() && self.path[j] == self.path[i]);
    }

    /// The state in which the search of a component starts has what holds
    /// between steps: the start node alone on the path and alone blocked, all
    /// of its successors waiting, nothing closed, nothing waited for.
    pub proof fn lemma_initial(self)
        requires
            self.nodes.finite(),
            self.nodes.contains(self.start),
            self.path == seq![self.start],
            self.remaining.len() == 1,
            self.remaining[0].no_duplicates(),
            self.blocked == set![self.start],
            self.closed == Set::<u32>::empty(),
            self.block == Map::<u32, Set<u32>>::empty(),
            forall|a: u32, b: u32| #[trigger]
                self.succ(a, b) ==> self.nodes.contains(a) && self.nodes.contains(b),
            forall|k: int|
                0 <= k < self.remaining[0].len() ==> self.succ(
                    self.start,
                    #[trigger] self.remaining[0][k],
                ),
            forall|w: u32| #[trigger] self.succ(self.start, w) ==> self.remaining[0].contains(w),
        ensures
            self.inv(),
    {
        reveal(SearchModel::inv);
        reveal(SearchModel::full_inv);
        assert(self.path.no_duplicates());
        assert forall|v: u32| !(#[trigger] self.parked(v)) by {
            if self.blocked.contains(v) {
                assert(self.path[0] == v);
            }
        }
        assert forall|i: int, w: u32|
            0 <= i < self.path.len() && !self.closed.contains(self.path[i])
                && #[trigger] self.succ(self.path[i], w) implies self.remaining[i].contains(w)
            || self.blocked.contains(w) by {
            assert(self.remaining[0].contains(w));
        }
        assert(self.frames_ok());
        assert(self.closed_ok());
        assert(self.block_ok());
        assert(self.parked_ok());
        assert(self.stale_ok());
    }
}

impl SearchModel {
    /// The same component and start node.
    pub open spec fn same_graph(self, other: Self) -> bool {
        self.nodes == other.nodes && self.arcs == other.arcs && self.start == other.start
    }

    /// The node at the top of the path.
    pub open spec fn top(self) -> u32 {
        self.path.last()
    }

    /// Taking the next waiting successor of the top node off its frame keeps
    /// the invariant when that successor is blocked.
    #[verifier::rlimit(50)]
    pub proof fn lemma_take(self, s2: Self)
        requires
            self.inv(),
            self.path.len() > 0,
            self.remaining.last().len() > 0,
            self.blocked.contains(self.remaining.last().last()),
            s2.same_graph(self),
            s2.path == self.path,
            s2.remaining == self.remaining.update(
                self.path.len() - 1,
                self.remaining.last().drop_last(),
            ),
            s2.blocked == self.blocked,
            s2.closed == self.closed,
            s2.block == self.block,
            s2.lvl == self.lvl,
        ensures
            s2.inv(),
    {
        reveal(SearchModel::inv);
        reveal(SearchModel::full_inv);
        let p = self.path.len() - 1;
        let w = self.remaining.last().last();
        let old_top = self.remaining.last();
        assert forall|a: u32, b: u32|
            #![trigger s2.succ(a, b)]
            #![trigger self.succ(a, b)]
            s2.succ(a, b) == self.succ(a, b) by {}
        assert forall|v: u32| #[trigger] s2.block_of(v) == self.block_of(v) by {}
        assert forall|v: u32| #[trigger] s2.parked(v) == self.parked(v) by {}
        assert forall|v: u32| #[trigger] s2.level(v) == self.level(v) by {}
        assert forall|i: int| 0 <= i < s2.remaining.len() implies (
        #[trigger] s2.remaining[i]).no_duplicates() by {
            if i == p {
                assert(old_top.no_duplicates());
                assert forall|a: int, b: int|
                    0 <= a < s2.remaining[i].len() && 0 <= b < s2.remaining[i].len() && a
                        != b implies s2.remaining[i][a] != s2.remaining[i][b] by {
                    assert(s2.remaining[i][a] == old_top[a]);
                    assert(s2.remaining[i][b] == old_top[b]);
                }
            } else {
                assert(s2.remaining[i] == self.remaining[i]);
            }
        }
        assert forall|i: int, k: int|
            0 <= i < s2.remaining.len() && 0 <= k < s2.remaining[i].len() implies s2.succ(
            s2.path[i],
            #[trigger] s2.remaining[i][k],
        ) by {
            assert(s2.remaining[i][k] == self.remaining[i][k]);
        }
        assert forall|i: int, x: u32|
            0 <= i < s2.path.len() && !s2.closed.contains(s2.path[i]) && #[trigger] s2.succ(
                s2.path[i],
                x,
            ) implies s2.remaining[i].contains(x) || s2.blocked.contains(x) by {
            assert(self.succ(self.path[i], x));
            if self.remaining[i].contains(x) && !self.blocked.contains(x) {
                let k = choose|k: int| 0 <= k < self.remaining[i].len() && self.remaining[i][k] == x;
                if i == p {
                    assert(k < old_top.len() - 1);
                    assert(s2.remaining[i][k] == x);
                } else {
                    assert(s2.remaining[i][k] == x);
                }
            }
        }
        assert(s2.frames_ok());
        assert(s2.closed_ok());
        assert(s2.block_ok()) by {
            assert forall|v: u32, u: u32| #[trigger] s2.block_of(v).contains(u) implies s2.blocked.contains(
                v,
            ) && s2.succ(u, v) by {
                assert(self.block_of(v).contains(u));
            }
        }
        assert(s2.parked_ok()) by {
            assert forall|v: u32, x: u32| s2.parked(v) && #[trigger] s2.succ(v, x) implies s2.blocked.contains(
                x,
            ) && s2.block_of(x).contains(v) && s2.level(x) <= (s2.lvl)(v) by {
                assert(self.parked(v) && self.succ(v, x));
            }
            assert forall|v: u32| #[trigger] s2.parked(v) implies (s2.lvl)(v) <= s2.path.len() - 1 by {
                assert(self.parked(v));
            }
        }
        assert(s2.stale_ok()) by {
            assert forall|y: u32, q: int|
                0 <= q < s2.path.len() && #[trigger] s2.block_of(y).contains(
                    s2.path[q],
                ) implies s2.level(y) < q by {
                assert(self.block_of(y).contains(self.path[q]));
            }
        }
    }

    /// Marking every node of the path closed keeps the invariant.
    #[verifier::rlimit(50)]
    pub proof fn lemma_close(self, s2: Self)
        requires
            self.inv(),
            s2.same_graph(self),
            s2.path == self.path,
            s2.remaining == self.remaining,
            s2.blocked == self.blocked,
            forall|v: u32|
                s2.closed.contains(v) <==> self.closed.contains(v) || self.path.contains(v),
            s2.block == self.block,
            s2.lvl == self.lvl,
        ensures
            s2.inv(),
    {
        reveal(SearchModel::inv);
        reveal(SearchModel::full_inv);
        assert forall|a: u32, b: u32|
            #![trigger s2.succ(a, b)]
            #![trigger self.succ(a, b)]
            s2.succ(a, b) == self.succ(a, b) by {}
        assert forall|v: u32| #[trigger] s2.block_of(v) == self.block_of(v) by {}
        assert forall|v: u32| #[trigger] s2.parked(v) == self.parked(v) by {}
        assert forall|v: u32| #[trigger] s2.level(v) == self.level(v) by {}
        assert(s2.frames_ok());
        assert(s2.closed_ok()) by {
            assert forall|i: int| 0 <= i < s2.path.len() implies s2.closed.contains(
                #[trigger] s2.path[i],
            ) by {
                assert(self.path.contains(self.path[i]));
            }
        }
        assert(s2.block_ok()) by {
            assert forall|v: u32, u: u32| #[trigger] s2.block_of(v).contains(u) implies s2.blocked.contains(
                v,
            ) && s2.succ(u, v) by {
                assert(self.block_of(v).contains(u));
            }
        }
        assert(s2.parked_ok()) by {
            assert forall|v: u32, x: u32| s2.parked(v) && #[trigger] s2.succ(v, x) implies s2.blocked.contains(
                x,
            ) && s2.block_of(x).contains(v) && s2.level(x) <= (s2.lvl)(v) by {
                assert(self.parked(v) && self.succ(v, x));
            }
            assert forall|v: u32| #[trigger] s2.parked(v) implies (s2.lvl)(v) <= s2.path.len() - 1 by {
                assert(self.parked(v));
            }
        }
        assert(s2.stale_ok()) by {
            assert forall|y: u32, q: int|
                0 <= q < s2.path.len() && #[trigger] s2.block_of(y).contains(
                    s2.path[q],
                ) implies s2.level(y) < q by {
                assert(self.block_of(y).contains(self.path[q]));
            }
        }
    }
}

/// The smaller of two levels.
pub open spec fn at_most(a: int, b: int) -> int {
    if a < b {
        a
    } else {
        b
    }
}

impl SearchModel {
    /// Entering the next waiting successor of the top node keeps the
    /// invariant when that successor is not blocked.
    #[verifier::rlimit(50)]
    pub proof fn lemma_push(self, s2: Self, w: u32, rem: Seq<u32>)
        requires
            self.inv(),
            self.path.len() > 0,
            self.remaining.last().len() > 0,
            w == self.remaining.last().last(),
            !self.blocked.contains(w),
            rem.no_duplicates(),
            forall|k: int| 0 <= k < rem.len() ==> self.succ(w, #[trigger] rem[k]),
            forall|x: u32| #[trigger] self.succ(w, x) ==> rem.contains(x),
            s2.same_graph(self),
            s2.path == self.path.push(w),
            s2.remaining == self.remaining.update(
                self.path.len() - 1,
                self.remaining.last().drop_last(),
            ).push(rem),
            s2.blocked == self.blocked.insert(w),
            s2.closed == self.closed.remove(w),
            s2.block == self.block,
            s2.lvl == self.lvl,
        ensures
            s2.inv(),
            !self.path.contains(w),
    {
        reveal(SearchModel::inv);
        reveal(SearchModel::full_inv);
        let p = self.path.len() - 1;
        let old_top = self.remaining.last();
        assert(!self.path.contains(w)) by {
            if self.path.contains(w) {
                let i = choose|i: int| 0 <= i < self.path.len() && self.path[i] == w;
                assert(self.blocked.contains(self.path[i]));
            }
        }
        assert(self.succ(self.path[p], old_top[old_top.len() - 1]));
        assert forall|a: u32, b: u32|
            #![trigger s2.succ(a, b)]
            #![trigger self.succ(a, b)]
            s2.succ(a, b) == self.succ(a, b) by {}
        assert forall|v: u32| #[trigger] s2.block_of(v) == self.block_of(v) by {}
        assert forall|v: u32| #[trigger]
            s2.path.contains(v) == (self.path.contains(v) || v == w) by {
            if self.path.contains(v) {
                let i = choose|i: int| 0 <= i < self.path.len() && self.path[i] == v;
                assert(s2.path[i] == v);
            }
            if v == w {
                assert(s2.path[p + 1] == w);
            }
            if s2.path.contains(v) {
                let i = choose|i: int| 0 <= i < s2.path.len() && s2.path[i] == v;
                if i <= p {
                    assert(self.path[i] == v);
                }
            }
        }
        assert forall|v: u32| #[trigger] s2.parked(v) == self.parked(v) by {
            assert(s2.path.contains(v) == (self.path.contains(v) || v == w));
        }
        assert(s2.path.no_duplicates()) by {
            assert forall|i: int, j: int|
                0 <= i < s2.path.len() && 0 <= j < s2.path.len() && i != j implies s2.path[i]
                != s2.path[j] by {
                if i <= p && j <= p {
                    assert(self.path[i] != self.path[j]);
                } else if i <= p {
                    assert(self.path.contains(self.path[i]));
                } else {
                    assert(self.path.contains(self.path[j]));
                }
            }
        }
        assert forall|i: int| 0 <= i < s2.path.len() implies #[trigger] s2.level(s2.path[i]) == i by {
            s2.lemma_level_on_path(i);
        }
        assert forall|i: int| 0 <= i < self.path.len() implies #[trigger] self.level(self.path[i])
            == i by {
            self.lemma_level_on_path(i);
        }
        assert forall|v: u32| v != w implies #[trigger] s2.level(v) == self.level(v) by {
            assert(s2.path.contains(v) == (self.path.contains(v) || v == w));
            if self.path.contains(v) {
                let i = choose|i: int| 0 <= i < self.path.len() && self.path[i] == v;
                assert(s2.path[i] == v);
                assert(s2.level(s2.path[i]) == i);
                assert(self.level(self.path[i]) == i);
            }
        }
        assert(s2.frames_ok()) by {
            assert forall|i: int| 0 <= i < s2.path.len() implies s2.blocked.contains(
                #[trigger] s2.path[i],
            ) && s2.nodes.contains(s2.path[i]) by {
                if i <= p {
                    assert(s2.path[i] == self.path[i]);
                }
            }
            assert forall|i: int| 0 <= i < s2.path.len() - 1 implies s2.succ(
                #[trigger] s2.path[i],
                s2.path[i + 1],
            ) by {
                if i < p {
                    assert(self.succ(self.path[i], self.path[i + 1]));
                }
            }
            assert forall|i: int| 0 <= i < s2.remaining.len() implies (
            #[trigger] s2.remaining[i]).no_duplicates() by {
                if i == p {
                    assert(old_top.no_duplicates());
                    assert forall|a: int, b: int|
                        0 <= a < s2.remaining[i].len() && 0 <= b < s2.remaining[i].len() && a
                            != b implies s2.remaining[i][a] != s2.remaining[i][b] by {
                        assert(s2.remaining[i][a] == old_top[a]);
                        assert(s2.remaining[i][b] == old_top[b]);
                    }
                } else if i < p {
                    assert(s2.remaining[i] == self.remaining[i]);
                }
            }
            assert forall|i: int, k: int|
                0 <= i < s2.remaining.len() && 0 <= k < s2.remaining[i].len() implies s2.succ(
                s2.path[i],
                #[trigger] s2.remaining[i][k],
            ) by {
                if i <= p {
                    assert(s2.remaining[i][k] == self.remaining[i][k]);
                    assert(self.succ(self.path[i], self.remaining[i][k]));
                }
            }
        }
        assert(s2.closed_ok()) by {
            assert forall|i: int, j: int|
                0 <= i < j < s2.path.len() && s2.closed.contains(
                    #[trigger] s2.path[j],
                ) implies s2.closed.contains(#[trigger] s2.path[i]) by {
                assert(self.closed.contains(self.path[j]));
                assert(self.closed.contains(self.path[i]));
                assert(self.path.contains(self.path[i]));
            }
            assert forall|i: int, x: u32|
                0 <= i < s2.path.len() && !s2.closed.contains(s2.path[i]) && #[trigger] s2.succ(
                    s2.path[i],
                    x,
                ) implies s2.remaining[i].contains(x) || s2.blocked.contains(x) by {
                if i <= p {
                    assert(self.path.contains(self.path[i]));
                    assert(self.succ(self.path[i], x));
                    if self.remaining[i].contains(x) && !self.blocked.contains(x) && x != w {
                        let k = choose|k: int|
                            0 <= k < self.remaining[i].len() && self.remaining[i][k] == x;
                        assert(s2.remaining[i][k] == x);
                    }
                } else {
                    assert(self.succ(w, x));
                }
            }
        }
        assert(s2.block_ok()) by {
            assert forall|v: u32, u: u32| #[trigger] s2.block_of(v).contains(u) implies s2.blocked.contains(
                v,
            ) && s2.succ(u, v) by {
                assert(self.block_of(v).contains(u));
            }
        }
        assert(s2.parked_ok()) by {
            assert forall|v: u32, x: u32| s2.parked(v) && #[trigger] s2.succ(v, x) implies s2.blocked.contains(
                x,
            ) && s2.block_of(x).contains(v) && s2.level(x) <= (s2.lvl)(v) by {
                assert(self.parked(v) && self.succ(v, x));
                assert(x != w);
                assert(s2.level(x) == self.level(x));
            }
            assert forall|v: u32| #[trigger] s2.parked(v) implies (s2.lvl)(v) <= s2.path.len() - 1 by {
                assert(self.parked(v));
            }
        }
        assert(s2.stale_ok()) by {
            assert forall|y: u32, q: int|
                0 <= q < s2.path.len() && #[trigger] s2.block_of(y).contains(
                    s2.path[q],
                ) implies s2.level(y) < q by {
                assert(self.block_of(y).contains(s2.path[q]));
                assert(self.blocked.contains(y));
                assert(y != w);
                assert(s2.level(y) == self.level(y));
                if q <= p {
                    assert(self.block_of(y).contains(self.path[q]));
                } else {
                    if self.path.contains(y) {
                        let i = choose|i: int| 0 <= i < self.path.len() && self.path[i] == y;
                        assert(self.level(self.path[i]) == i);
                    } else {
                        assert(self.parked(y));
                    }
                }
            }
        }
    }

    /// Leaving the top node keeps the invariant when no cycle was found
    /// through it, every successor of it has been tried, and it now waits for
    /// each of them.
    #[verifier::rlimit(50)]
    pub proof fn lemma_retire(self, s2: Self)
        requires
            self.inv(),
            self.path.len() > 0,
            self.remaining.last().len() == 0,
            !self.closed.contains(self.top()),
            s2.same_graph(self),
            s2.path == self.path.drop_last(),
            s2.remaining == self.remaining.drop_last(),
            s2.blocked == self.blocked,
            s2.closed == self.closed,
            forall|v: u32| #[trigger]
                s2.block_of(v) == (if self.succ(self.top(), v) {
                    self.block_of(v).insert(self.top())
                } else {
                    self.block_of(v)
                }),
            forall|v: u32| #[trigger]
                (s2.lvl)(v) == (if v == self.top() {
                    self.path.len() - 2
                } else {
                    at_most((self.lvl)(v), self.path.len() - 2)
                }),
        ensures
            s2.inv(),
    {
        reveal(SearchModel::inv);
        reveal(SearchModel::full_inv);
        let p = self.path.len() - 1;
        let t = self.top();
        self.lemma_level_on_path(p);
        assert forall|a: u32, b: u32|
            #![trigger s2.succ(a, b)]
            #![trigger self.succ(a, b)]
            s2.succ(a, b) == self.succ(a, b) by {}
        assert forall|x: u32| #[trigger] self.succ(t, x) implies self.blocked.contains(x) by {
            assert(self.succ(self.path[p], x));
            assert(!self.remaining[p].contains(x));
        }
        assert forall|v: u32| #[trigger]
            self.path.contains(v) == (s2.path.contains(v) || v == t) by {
            if self.path.contains(v) {
                let i = choose|i: int| 0 <= i < self.path.len() && self.path[i] == v;
                if i < p {
                    assert(s2.path[i] == v);
                }
            }
            if s2.path.contains(v) {
                let i = choose|i: int| 0 <= i < s2.path.len() && s2.path[i] == v;
                assert(self.path[i] == v);
            }
        }
        assert(!s2.path.contains(t)) by {
            if s2.path.contains(t) {
                let i = choose|i: int| 0 <= i < s2.path.len() && s2.path[i] == t;
                assert(self.path[i] == self.path[p]);
            }
        }
        assert forall|v: u32| #[trigger] s2.parked(v) == (self.parked(v) || v == t) by {
            assert(self.path.contains(v) == (s2.path.contains(v) || v == t));
            assert(self.blocked.contains(self.path[p]));
        }
        assert(s2.path.no_duplicates()) by {
            assert forall|i: int, j: int|
                0 <= i < s2.path.len() && 0 <= j < s2.path.len() && i != j implies s2.path[i]
                != s2.path[j] by {
                assert(self.path[i] != self.path[j]);
            }
        }
        assert forall|i: int| 0 <= i < s2.path.len() implies #[trigger] s2.level(s2.path[i]) == i
            && self.level(s2.path[i]) == i by {
            s2.lemma_level_on_path(i);
            self.lemma_level_on_path(i);
        }
        assert forall|v: u32| #[trigger] s2.level(v) <= self.level(v) && s2.level(v) <= p - 1 by {
            assert(self.path.contains(v) == (s2.path.contains(v) || v == t));
            if s2.path.contains(v) {
                let i = choose|i: int| 0 <= i < s2.path.len() && s2.path[i] == v;
                assert(s2.level(s2.path[i]) == i);
            }
        }
        assert(s2.frames_ok()) by {
            assert forall|i: int| 0 <= i < s2.path.len() implies s2.blocked.contains(
                #[trigger] s2.path[i],
            ) && s2.nodes.contains(s2.path[i]) by {
                assert(s2.path[i] == self.path[i]);
            }
            assert forall|i: int| 0 <= i < s2.path.len() - 1 implies s2.succ(
                #[trigger] s2.path[i],
                s2.path[i + 1],
            ) by {
                assert(self.succ(self.path[i], self.path[i + 1]));
            }
            assert forall|i: int| 0 <= i < s2.remaining.len() implies (
            #[trigger] s2.remaining[i]).no_duplicates() by {
                assert(s2.remaining[i] == self.remaining[i]);
            }
            assert forall|i: int, k: int|
                0 <= i < s2.remaining.len() && 0 <= k < s2.remaining[i].len() implies s2.succ(
                s2.path[i],
                #[trigger] s2.remaining[i][k],
            ) by {
                assert(s2.remaining[i][k] == self.remaining[i][k]);
                assert(self.succ(self.path[i], self.remaining[i][k]));
            }
        }
        assert(s2.closed_ok()) by {
            assert forall|i: int, j: int|
                0 <= i < j < s2.path.len() && s2.closed.contains(
                    #[trigger] s2.path[j],
                ) implies s2.closed.contains(#[trigger] s2.path[i]) by {
                assert(self.closed.contains(self.path[j]));
                assert(self.closed.contains(self.path[i]));
            }
            assert forall|i: int, x: u32|
                0 <= i < s2.path.len() && !s2.closed.contains(s2.path[i]) && #[trigger] s2.succ(
                    s2.path[i],
                    x,
                ) implies s2.remaining[i].contains(x) || s2.blocked.contains(x) by {
                assert(self.succ(self.path[i], x));
                assert(s2.remaining[i] == self.remaining[i]);
            }
        }
        assert(s2.block_ok()) by {
            assert forall|v: u32, u: u32| #[trigger] s2.block_of(v).contains(u) implies s2.blocked.contains(
                v,
            ) && s2.succ(u, v) by {
                if self.block_of(v).contains(u) {
                } else {
                    assert(self.succ(t, v));
                }
            }
        }
        assert(s2.parked_ok()) by {
            assert forall|v: u32, x: u32| s2.parked(v) && #[trigger] s2.succ(v, x) implies s2.blocked.contains(
                x,
            ) && s2.block_of(x).contains(v) && s2.level(x) <= (s2.lvl)(v) by {
                assert(self.succ(v, x));
                assert(s2.level(x) <= self.level(x) && s2.level(x) <= p - 1);
                if v == t {
                    assert(self.blocked.contains(x));
                } else {
                    assert(self.parked(v));
                    assert(self.block_of(x).contains(v));
                    assert(self.level(x) <= (self.lvl)(v));
                    if x == t {
                        assert(self.level(t) == p);
                    } else if self.path.contains(x) {
                    } else {
                        assert(s2.level(x) == (s2.lvl)(x));
                    }
                }
            }
            assert forall|v: u32| #[trigger] s2.parked(v) implies (s2.lvl)(v) <= s2.path.len() - 1 by {}
        }
        assert(s2.stale_ok()) by {
            assert forall|y: u32, q: int|
                0 <= q < s2.path.len() && #[trigger] s2.block_of(y).contains(
                    s2.path[q],
                ) implies s2.level(y) < q by {
                assert(s2.path[q] == self.path[q]);
                assert(self.path[q] != t);
                assert(self.block_of(y).contains(self.path[q]));
                assert(self.level(y) < q);
                assert(s2.level(y) <= self.level(y));
            }
        }
    }

    /// What a cascade that sets the top node free may have changed: nodes
    /// were only set free, the top node among them and no other node of the
    /// path; nothing waits any more for a node set free, and nothing that
    /// waited for one is still blocked.
    pub open spec fn released(self, s2: Self) -> bool {
        &&& s2.blocked.finite()
        &&& forall|v: u32| #[trigger] s2.blocked.contains(v) ==> self.blocked.contains(v)
        &&& !s2.blocked.contains(self.top())
        &&& forall|v: u32|
            self.blocked.contains(v) && !(#[trigger] s2.blocked.contains(v)) && v != self.top()
                ==> !self.path.contains(v)
        &&& forall|v: u32| #[trigger]
            s2.block_of(v) == (if s2.blocked.contains(v) {
                self.block_of(v)
            } else {
                Set::empty()
            })
        &&& forall|x: u32, v: u32|
            self.blocked.contains(x) && !s2.blocked.contains(x) && #[trigger] self.block_of(
                x,
            ).contains(v) ==> !s2.blocked.contains(v)
    }

    /// Leaving the top node keeps the invariant when a cycle was found
    /// through it, every successor of it has been tried, and a cascade has set
    /// it free.
    #[verifier::rlimit(50)]
    pub proof fn lemma_release(self, s2: Self)
        requires
            self.inv(),
            self.path.len() > 0,
            self.remaining.last().len() == 0,
            self.closed.contains(self.top()),
            s2.same_graph(self),
            s2.path == self.path.drop_last(),
            s2.remaining == self.remaining.drop_last(),
            s2.closed == self.closed,
            self.released(s2),
            forall|v: u32| #[trigger] (s2.lvl)(v) == at_most((self.lvl)(v), self.path.len() - 2),
        ensures
            s2.inv(),
    {
        reveal(SearchModel::inv);
        reveal(SearchModel::full_inv);
        let p = self.path.len() - 1;
        let t = self.top();
        self.lemma_level_on_path(p);
        assert forall|a: u32, b: u32|
            #![trigger s2.succ(a, b)]
            #![trigger self.succ(a, b)]
            s2.succ(a, b) == self.succ(a, b) by {}
        assert forall|v: u32| #[trigger]
            self.path.contains(v) == (s2.path.contains(v) || v == t) by {
            if self.path.contains(v) {
                let i = choose|i: int| 0 <= i < self.path.len() && self.path[i] == v;
                if i < p {
                    assert(s2.path[i] == v);
                }
            }
            if s2.path.contains(v) {
                let i = choose|i: int| 0 <= i < s2.path.len() && s2.path[i] == v;
                assert(self.path[i] == v);
            }
        }
        assert(!s2.path.contains(t)) by {
            if s2.path.contains(t) {
                let i = choose|i: int| 0 <= i < s2.path.len() && s2.path[i] == t;
                assert(self.path[i] == self.path[p]);
            }
        }
        assert forall|v: u32| #[trigger] s2.parked(v) implies self.parked(v) && v != t by {
            assert(s2.blocked.contains(v));
            assert(self.path.contains(v) == (s2.path.contains(v) || v == t));
        }
        assert(s2.path.no_duplicates()) by {
            assert forall|i: int, j: int|
                0 <= i < s2.path.len() && 0 <= j < s2.path.len() && i != j implies s2.path[i]
                != s2.path[j] by {
                assert(self.path[i] != self.path[j]);
            }
        }
        assert forall|i: int| 0 <= i < s2.path.len() implies #[trigger] s2.level(s2.path[i]) == i
            && self.level(s2.path[i]) == i by {
            s2.lemma_level_on_path(i);
            self.lemma_level_on_path(i);
        }
        assert forall|v: u32| v != t implies #[trigger] s2.level(v) <= self.level(v) && s2.level(v)
            <= p - 1 by {
            assert(self.path.contains(v) == (s2.path.contains(v) || v == t));
            if s2.path.contains(v) {
                let i = choose|i: int| 0 <= i < s2.path.len() && s2.path[i] == v;
                assert(s2.level(s2.path[i]) == i);
            }
        }
        assert(s2.frames_ok()) by {
            assert forall|i: int| 0 <= i < s2.path.len() implies s2.blocked.contains(
                #[trigger] s2.path[i],
            ) && s2.nodes.contains(s2.path[i]) by {
                assert(s2.path[i] == self.path[i]);
                assert(self.path.contains(self.path[i]));
                assert(self.path[i] != self.path[p]);
                assert(self.blocked.contains(self.path[i]));
            }
            assert forall|i: int| 0 <= i < s2.path.len() - 1 implies s2.succ(
                #[trigger] s2.path[i],
                s2.path[i + 1],
            ) by {
                assert(self.succ(self.path[i], self.path[i + 1]));
            }
            assert forall|i: int| 0 <= i < s2.remaining.len() implies (
            #[trigger] s2.remaining[i]).no_duplicates() by {
                assert(s2.remaining[i] == self.remaining[i]);
            }
            assert forall|i: int, k: int|
                0 <= i < s2.remaining.len() && 0 <= k < s2.remaining[i].len() implies s2.succ(
                s2.path[i],
                #[trigger] s2.remaining[i][k],
            ) by {
                assert(s2.remaining[i][k] == self.remaining[i][k]);
                assert(self.succ(self.path[i], self.remaining[i][k]));
            }
        }
        assert(s2.closed_ok()) by {
            assert forall|i: int| 0 <= i < s2.path.len() implies s2.closed.contains(
                #[trigger] s2.path[i],
            ) by {
                assert(self.closed.contains(self.path[p]));
                assert(self.closed.contains(self.path[i]));
            }
        }
        assert(s2.block_ok()) by {
            assert forall|v: u32, u: u32| #[trigger] s2.block_of(v).contains(u) implies s2.blocked.contains(
                v,
            ) && s2.succ(u, v) by {
                assert(self.block_of(v).contains(u));
            }
        }
        assert(s2.parked_ok()) by {
            assert forall|v: u32, x: u32| s2.parked(v) && #[trigger] s2.succ(v, x) implies s2.blocked.contains(
                x,
            ) && s2.block_of(x).contains(v) && s2.level(x) <= (s2.lvl)(v) by {
                assert(self.parked(v) && v != t);
                assert(self.succ(v, x));
                assert(self.block_of(x).contains(v));
                assert(self.level(x) <= (self.lvl)(v));
                if !s2.blocked.contains(x) {
                    assert(!s2.blocked.contains(v));
                }
                assert(x != t);
                assert(s2.level(x) <= self.level(x) && s2.level(x) <= p - 1);
                if !s2.path.contains(x) {
                    assert(s2.level(x) == (s2.lvl)(x));
                }
            }
            assert forall|v: u32| #[trigger] s2.parked(v) implies (s2.lvl)(v) <= s2.path.len() - 1 by {}
        }
        assert(s2.stale_ok()) by {
            assert forall|y: u32, q: int|
                0 <= q < s2.path.len() && #[trigger] s2.block_of(y).contains(
                    s2.path[q],
                ) implies s2.level(y) < q by {
                assert(s2.path[q] == self.path[q]);
                assert(s2.blocked.contains(y));
                assert(y != t);
                assert(self.block_of(y).contains(self.path[q]));
                assert(self.level(y) < q);
                assert(s2.level(y) <= self.level(y));
            }
        }
    }
}

impl SearchModel {
    /// Parked with nothing to wait for below the top of the path.
    pub open spec fn loose(self, v: u32) -> bool {
        self.parked(v) && (self.lvl)(v) >= self.path.len() - 1
    }

    /// The state with other blocked nodes and waiting sets.
    pub open spec fn with_blocking(self, blocked: Set<u32>, block: Map<u32, Set<u32>>) -> Self {
        SearchModel { blocked, block, ..self }
    }

    /// `c` is a chain of blocked nodes in which each node but the first
    /// waits for the node before it.
    pub open spec fn is_release_chain(self, c: Seq<u32>) -> bool {
        &&& c.len() > 0
        &&& forall|i: int| 0 <= i < c.len() ==> self.blocked.contains(#[trigger] c[i])
        &&& forall|i: int|
            0 <= i < c.len() - 1 ==> #[trigger] self.block_of(c[i]).contains(c[i + 1])
    }

    /// Setting `node` free sets `v` free: `v` is reached from `node` through
    /// the waiting sets, by blocked nodes only. These nodes are the least
    /// set that holds `node`, if it is blocked, and every blocked node that
    /// waits for a node of the set.
    pub open spec fn frees(self, node: u32, v: u32) -> bool {
        exists|c: Seq<u32>| #[trigger] self.is_release_chain(c) && c[0] == node && c.last() == v
    }

    /// `s2` is the state after `node` was set free: exactly the nodes that
    /// `node` sets free have left the blocked nodes, nothing waits for them
    /// any more, and every other waiting set is as it was.
    pub open spec fn unblocked(self, node: u32, s2: Self) -> bool {
        &&& forall|v: u32| #[trigger]
            s2.blocked.contains(v) <==> self.blocked.contains(v) && !self.frees(node, v)
        &&& forall|v: u32| #[trigger]
            s2.block_of(v) == (if self.frees(node, v) {
                Set::empty()
            } else {
                self.block_of(v)
            })
    }

    /// A blocked node sets itself free.
    pub proof fn lemma_frees_itself(self, node: u32)
        requires
            self.blocked.contains(node),
        ensures
            self.frees(node, node),
    {
        let c = seq![node];
        assert(c[0] == node);
        assert(self.is_release_chain(c));
        assert(c.last() == node);
    }

    /// A node that is not blocked sets nothing free.
    pub proof fn lemma_frees_nothing(self, node: u32, v: u32)
        requires
            !self.blocked.contains(node),
        ensures
            !self.frees(node, v),
    {
        if self.frees(node, v) {
            let c = choose|c: Seq<u32>| #[trigger]
                self.is_release_chain(c) && c[0] == node && c.last() == v;
            assert(self.blocked.contains(c[0]));
        }
    }

    /// What is set free sets free the blocked nodes that wait for it.
    pub proof fn lemma_frees_step(self, node: u32, x: u32, v: u32)
        requires
            self.frees(node, x),
            self.block_of(x).contains(v),
            self.blocked.contains(v),
        ensures
            self.frees(node, v),
    {
        let c = choose|c: Seq<u32>| #[trigger]
            self.is_release_chain(c) && c[0] == node && c.last() == x;
        let longer = c.push(v);
        assert forall|i: int| 0 <= i < longer.len() implies self.blocked.contains(
            #[trigger] longer[i],
        ) by {
            if i < c.len() {
                assert(longer[i] == c[i]);
            }
        }
        assert forall|i: int| 0 <= i < longer.len() - 1 implies #[trigger] self.block_of(
            longer[i],
        ).contains(longer[i + 1]) by {
            assert(longer[i] == c[i]);
            if i < c.len() - 1 {
                assert(self.block_of(c[i]).contains(c[i + 1]));
                assert(longer[i + 1] == c[i + 1]);
            } else {
                assert(longer[i + 1] == v);
            }
        }
        assert(longer[0] == c[0]);
        assert(self.is_release_chain(longer));
        assert(longer.last() == v);
    }

    /// What holds while a cascade sets nodes free, starting at `node` in the
    /// state `self`: `blocked` and `block` are what the cascade has made of
    /// the blocked nodes and the waiting sets, and `work` are the nodes it
    /// still has to look at.
    pub open spec fn cascading(
        self,
        node: u32,
        blocked: Set<u32>,
        block: Map<u32, Set<u32>>,
        work: Seq<u32>,
    ) -> bool {
        let cur = self.with_blocking(blocked, block);
        &&& forall|v: u32| #[trigger] blocked.contains(v) ==> self.blocked.contains(v)
        &&& forall|v: u32|
            self.blocked.contains(v) && !(#[trigger] blocked.contains(v)) ==> self.frees(node, v)
        &&& forall|k: int|
            0 <= k < work.len() && blocked.contains(#[trigger] work[k]) ==> self.frees(
                node,
                work[k],
            )
        &&& forall|v: u32| #[trigger]
            cur.block_of(v) == (if self.blocked.contains(v) && !blocked.contains(v) {
                Set::empty()
            } else {
                self.block_of(v)
            })
        &&& forall|x: u32, v: u32|
            self.blocked.contains(x) && !blocked.contains(x) && #[trigger] self.block_of(
                x,
            ).contains(v) ==> !blocked.contains(v) || work.contains(v)
        &&& work.contains(node) || !blocked.contains(node)
    }

    /// A cascade may start with `node` as its only work.
    pub proof fn lemma_cascade_start(self, node: u32)
        ensures
            self.cascading(node, self.blocked, self.block, seq![node]),
    {
        let work = seq![node];
        assert(work[0] == node);
        if self.blocked.contains(node) {
            self.lemma_frees_itself(node);
        }
        let cur = self.with_blocking(self.blocked, self.block);
        assert forall|v: u32| #[trigger] cur.block_of(v) == self.block_of(v) by {}
    }

    /// Work that is not blocked can be dropped.
    pub proof fn lemma_cascade_idle(
        self,
        node: u32,
        blocked: Set<u32>,
        block: Map<u32, Set<u32>>,
        work: Seq<u32>,
    )
        requires
            self.cascading(node, blocked, block, work),
            work.len() > 0,
            !blocked.contains(work.last()),
        ensures
            self.cascading(node, blocked, block, work.drop_last()),
    {
        let rest = work.drop_last();
        assert forall|v: u32| work.contains(v) && v != work.last() implies rest.contains(v) by {
            let k = choose|k: int| 0 <= k < work.len() && work[k] == v;
            assert(rest[k] == v);
        }
        assert forall|k: int| 0 <= k < rest.len() && blocked.contains(#[trigger] rest[k]) implies self.frees(
            node,
            rest[k],
        ) by {
            assert(rest[k] == work[k]);
        }
        assert forall|x: u32, v: u32|
            self.blocked.contains(x) && !blocked.contains(x) && #[trigger] self.block_of(
                x,
            ).contains(v) implies !blocked.contains(v) || rest.contains(v) by {
            if blocked.contains(v) {
                assert(work.contains(v));
            }
        }
    }

    /// Setting a blocked node of the work free, and taking what waited for
    /// it as new work, keeps the cascade in order.
    #[verifier::rlimit(50)]
    pub proof fn lemma_cascade_free(
        self,
        node: u32,
        blocked: Set<u32>,
        block: Map<u32, Set<u32>>,
        work: Seq<u32>,
        block2: Map<u32, Set<u32>>,
        work2: Seq<u32>,
    )
        requires
            self.cascading(node, blocked, block, work),
            work.len() > 0,
            blocked.contains(work.last()),
            forall|v: u32| #[trigger]
                self.with_blocking(blocked.remove(work.last()), block2).block_of(v) == (if v
                    == work.last() {
                    Set::empty()
                } else {
                    self.with_blocking(blocked, block).block_of(v)
                }),
            forall|v: u32| #[trigger]
                work2.contains(v) <==> work.drop_last().contains(v) || self.block_of(
                    work.last(),
                ).contains(v),
        ensures
            self.cascading(node, blocked.remove(work.last()), block2, work2),
    {
        let x = work.last();
        let b2 = blocked.remove(x);
        let cur = self.with_blocking(blocked, block);
        let cur2 = self.with_blocking(b2, block2);
        let rest = work.drop_last();
        assert(work[work.len() - 1] == x);
        assert(self.frees(node, x));
        assert(self.blocked.contains(x));
        assert forall|v: u32| work.contains(v) && v != x implies rest.contains(v) by {
            let k = choose|k: int| 0 <= k < work.len() && work[k] == v;
            assert(rest[k] == v);
        }
        assert forall|k: int| 0 <= k < work2.len() && b2.contains(#[trigger] work2[k]) implies self.frees(
            node,
            work2[k],
        ) by {
            let v = work2[k];
            assert(work2.contains(v));
            if rest.contains(v) {
                let j = choose|j: int| 0 <= j < rest.len() && rest[j] == v;
                assert(work[j] == v);
            } else {
                assert(self.block_of(x).contains(v));
                assert(self.blocked.contains(v));
                self.lemma_frees_step(node, x, v);
            }
        }
        assert forall|v: u32| #[trigger]
            cur2.block_of(v) == (if self.blocked.contains(v) && !b2.contains(v) {
                Set::empty()
            } else {
                self.block_of(v)
            }) by {
            assert(cur.block_of(v) == (if self.blocked.contains(v) && !blocked.contains(v) {
                Set::empty()
            } else {
                self.block_of(v)
            }));
        }
        assert forall|y: u32, v: u32|
            self.blocked.contains(y) && !b2.contains(y) && #[trigger] self.block_of(y).contains(
                v,
            ) implies !b2.contains(v) || work2.contains(v) by {
            if y == x {
                assert(work2.contains(v));
            } else {
                if blocked.contains(v) && v != x {
                    assert(work.contains(v));
                    assert(rest.contains(v));
                    assert(work2.contains(v));
                }
            }
        }
        assert(work2.contains(node) || !b2.contains(node)) by {
            if x != node && blocked.contains(node) {
                assert(work.contains(node));
                assert(rest.contains(node));
                assert(work2.contains(node));
            }
        }
    }

    /// When no work is left, every node of a chain from `node` has been set
    /// free.
    proof fn lemma_chain_freed(
        self,
        node: u32,
        blocked: Set<u32>,
        block: Map<u32, Set<u32>>,
        c: Seq<u32>,
        i: int,
    )
        requires
            self.cascading(node, blocked, block, Seq::empty()),
            self.is_release_chain(c),
            c[0] == node,
            0 <= i < c.len(),
        ensures
            !blocked.contains(c[i]),
        decreases i,
    {
        let none = Seq::<u32>::empty();
        if i == 0 {
            assert(!none.contains(node));
        } else {
            self.lemma_chain_freed(node, blocked, block, c, i - 1);
            assert(self.blocked.contains(c[i - 1]));
            assert(self.block_of(c[i - 1]).contains(c[i - 1 + 1]));
            assert(!none.contains(c[i]));
        }
    }

    /// When no work is left, the cascade has set free exactly what `node`
    /// sets free.
    pub proof fn lemma_cascade_done(self, node: u32, s2: Self)
        requires
            self.cascading(node, s2.blocked, s2.block, Seq::empty()),
        ensures
            self.unblocked(node, s2),
    {
        let cur = self.with_blocking(s2.blocked, s2.block);
        assert forall|v: u32| #[trigger] s2.block_of(v) == cur.block_of(v) by {}
        assert forall|v: u32| self.frees(node, v) implies self.blocked.contains(v)
            && !s2.blocked.contains(v) by {
            let c = choose|c: Seq<u32>| #[trigger]
                self.is_release_chain(c) && c[0] == node && c.last() == v;
            self.lemma_chain_freed(node, s2.blocked, s2.block, c, c.len() - 1);
            assert(self.blocked.contains(c[c.len() - 1]));
        }
        assert forall|v: u32| #[trigger]
            s2.blocked.contains(v) <==> self.blocked.contains(v) && !self.frees(node, v) by {}
        assert forall|v: u32| #[trigger]
            s2.block_of(v) == (if self.frees(node, v) {
                Set::empty()
            } else {
                self.block_of(v)
            }) by {
            assert(cur.block_of(v) == (if self.blocked.contains(v) && !s2.blocked.contains(v) {
                Set::empty()
            } else {
                self.block_of(v)
            }));
        }
    }

    /// Under the invariant, a chain from the top of the path goes on through
    /// loose nodes only.
    proof fn lemma_chain_loose(self, c: Seq<u32>, i: int)
        requires
            self.inv(),
            self.path.len() > 0,
            self.is_release_chain(c),
            c[0] == self.top(),
            0 <= i < c.len(),
        ensures
            c[i] == self.top() || self.loose(c[i]),
        decreases i,
    {
        reveal(SearchModel::inv);
        if i > 0 {
            self.lemma_chain_loose(c, i - 1);
            let x = c[i - 1];
            let u = c[i];
            let p = self.path.len() - 1;
            self.lemma_level_on_path(p);
            assert(self.block_of(c[i - 1]).contains(c[i - 1 + 1]));
            assert(self.block_of(x).contains(u));
            assert(self.blocked.contains(u));
            assert(self.level(x) >= p) by {
                if x != self.top() {
                    assert(self.parked(x));
                }
            }
            if self.path.contains(u) {
                let q = choose|q: int| 0 <= q < self.path.len() && self.path[q] == u;
                assert(self.block_of(x).contains(self.path[q]));
                assert(self.level(x) < q);
            }
            assert(self.succ(u, x));
            assert(self.parked(u));
            assert(self.level(x) <= (self.lvl)(u));
        }
    }

    /// Under the invariant, setting the top of the path free releases in
    /// the way that leaving the top node asks for.
    #[verifier::rlimit(50)]
    pub proof fn lemma_unblocked_released(self, s2: Self)
        requires
            self.inv(),
            self.path.len() > 0,
            self.unblocked(self.top(), s2),
            s2.blocked.finite(),
        ensures
            self.released(s2),
    {
        reveal(SearchModel::inv);
        let t = self.top();
        assert(self.path[self.path.len() - 1] == t);
        assert(self.blocked.contains(t));
        self.lemma_frees_itself(t);
        assert forall|v: u32| self.frees(t, v) implies v == t || self.loose(v) by {
            let c = choose|c: Seq<u32>| #[trigger]
                self.is_release_chain(c) && c[0] == t && c.last() == v;
            self.lemma_chain_loose(c, c.len() - 1);
        }
        assert forall|v: u32|
            self.blocked.contains(v) && !(#[trigger] s2.blocked.contains(v)) && v
                != t implies !self.path.contains(v) by {
            assert(self.frees(t, v));
            assert(self.loose(v));
        }
        assert forall|v: u32| #[trigger]
            s2.block_of(v) == (if s2.blocked.contains(v) {
                self.block_of(v)
            } else {
                Set::empty()
            }) by {
            if !s2.blocked.contains(v) && !self.frees(t, v) {
                assert(!self.blocked.contains(v));
                assert forall|u: u32| !self.block_of(v).contains(u) by {
                    if self.block_of(v).contains(u) {
                        assert(self.blocked.contains(v));
                    }
                }
                assert(self.block_of(v) =~= Set::empty());
            }
        }
        assert forall|x: u32, v: u32|
            self.blocked.contains(x) && !s2.blocked.contains(x) && #[trigger] self.block_of(
                x,
            ).contains(v) implies !s2.blocked.contains(v) by {
            assert(self.frees(t, x));
            if self.blocked.contains(v) {
                self.lemma_frees_step(t, x, v);
            }
        }
    }
}

/// `base` to the power `e`.
pub open spec fn power(base: nat, e: nat) -> nat
    decreases e,
{
    if e == 0 {
        1
    } else {
        base * power(base, (e - 1) as nat)
    }
}

/// A power of a positive number is positive.
pub proof fn lemma_power_positive(base: nat, e: nat)
    requires
        base > 0,
    ensures
        power(base, e) > 0,
    decreases e,
{
    if e > 0 {
        lemma_power_positive(base, (e - 1) as nat);
        assert(base * power(base, (e - 1) as nat) > 0) by (nonlinear_arith)
            requires
                base > 0,
                power(base, (e - 1) as nat) > 0,
        ;
    }
}

/// The work left on the frames of a search in a component of `k` nodes: the
/// frames read as the digits of a number in base `k + 2`, the lowest frame
/// the most significant, each digit one more than the number of successors
/// that wait on the frame. Every step of the search makes it smaller.
pub open spec fn weight(rems: Seq<Seq<u32>>, k: nat) -> nat
    decreases rems.len(),
{
    if rems.len() == 0 {
        0
    } else {
        weight(rems.drop_last(), k) + (rems.last().len() + 1) * power(
            k + 2,
            (k - (rems.len() - 1)) as nat,
        )
    }
}

/// Leaving the top frame makes the weight smaller.
pub proof fn lemma_weight_pop(rems: Seq<Seq<u32>>, k: nat)
    requires
        rems.len() > 0,
    ensures
        weight(rems.drop_last(), k) < weight(rems, k),
{
    let e = (k - (rems.len() - 1)) as nat;
    lemma_power_positive(k + 2, e);
    assert((rems.last().len() + 1) * power(k + 2, e) > 0) by (nonlinear_arith)
        requires
            power(k + 2, e) > 0,
            rems.last().len() >= 0,
    ;
}

/// Taking a successor off the top frame makes the weight smaller by one
/// unit of that frame.
pub proof fn lemma_weight_take(rems: Seq<Seq<u32>>, k: nat)
    requires
        rems.len() > 0,
        rems.last().len() > 0,
    ensures
        weight(rems.update(rems.len() - 1, rems.last().drop_last()), k) + power(
            k + 2,
            (k - (rems.len() - 1)) as nat,
        ) == weight(rems, k),
        weight(rems.update(rems.len() - 1, rems.last().drop_last()), k) < weight(rems, k),
{
    let rems2 = rems.update(rems.len() - 1, rems.last().drop_last());
    let e = (k - (rems.len() - 1)) as nat;
    lemma_power_positive(k + 2, e);
    assert(rems2.drop_last() =~= rems.drop_last());
    assert(rems2.last() == rems.last().drop_last());
    let n = rems.last().len();
    let unit = power(k + 2, e);
    assert((n - 1 + 1) * unit + unit == (n + 1) * unit) by (nonlinear_arith);
}

/// Taking a successor off the top frame and entering it makes the weight
/// smaller, as long as the path fits in the component.
#[verifier::rlimit(50)]
pub proof fn lemma_weight_push(rems: Seq<Seq<u32>>, k: nat, rem: Seq<u32>)
    requires
        0 < rems.len() < k,
        rems.last().len() > 0,
        rem.len() <= k,
    ensures
        weight(rems.update(rems.len() - 1, rems.last().drop_last()).push(rem), k) < weight(
            rems,
            k,
        ),
{
    let rems2 = rems.update(rems.len() - 1, rems.last().drop_last());
    let rems3 = rems2.push(rem);
    lemma_weight_take(rems, k);
    assert(rems3.drop_last() =~= rems2);
    assert(rems3.last() == rem);
    let e = (k - rems.len()) as nat;
    let unit = power(k + 2, e);
    lemma_power_positive(k + 2, e);
    assert(power(k + 2, (e + 1) as nat) == (k + 2) * unit);
    assert((k - (rems.len() - 1)) as nat == e + 1);
    assert((k - (rems3.len() - 1)) as nat == e);
    assert((rem.len() + 1) * unit < (k + 2) * unit) by (nonlinear_arith)
        requires
            rem.len() <= k,
            unit > 0,
    ;
}

/// Different nodes of a finite set are no more than the set holds.
pub proof fn lemma_distinct_within(s: Seq<u32>, nodes: Set<u32>)
    requires
        s.no_duplicates(),
        nodes.finite(),
        forall|i: int| 0 <= i < s.len() ==> nodes.contains(#[trigger] s[i]),
    ensures
        s.len() <= nodes.len(),
{
    s.unique_seq_to_set();
    assert(s.to_set().subset_of(nodes)) by {
        assert forall|v: u32| s.to_set().contains(v) implies nodes.contains(v) by {
            let i = choose|i: int| 0 <= i < s.len() && s[i] == v;
        }
    }
    vstd::set_lib::lemma_len_subset(s.to_set(), nodes);
}

/// `c` and `path` are the same up to place `d` and no further.
pub open spec fn agrees_to(c: Seq<u32>, path: Seq<u32>, d: int) -> bool {
    &&& 0 <= d <= c.len()
    &&& d <= path.len()
    &&& forall|i: int| 0 <= i < d ==> c[i] == path[i]
    &&& d == c.len() || d == path.len() || c[d] != path[d]
}

/// The first place from `i` on where `c` and `path` differ or one of them
/// ends.
pub open spec fn agree_from(c: Seq<u32>, path: Seq<u32>, i: int) -> int
    decreases c.len() - i,
{
    if 0 <= i < c.len() && i < path.len() && c[i] == path[i] {
        agree_from(c, path, i + 1)
    } else {
        i
    }
}

/// How far `c` and `path` are the same.
pub open spec fn agree(c: Seq<u32>, path: Seq<u32>) -> int {
    agree_from(c, path, 0)
}

/// From a place up to which `c` and `path` agree, `agree_from` finds the
/// place up to which they agree and no further.
proof fn lemma_agree_from(c: Seq<u32>, path: Seq<u32>, i: int)
    requires
        0 <= i <= c.len(),
        i <= path.len(),
        forall|k: int| 0 <= k < i ==> c[k] == path[k],
    ensures
        agrees_to(c, path, agree_from(c, path, i)),
    decreases c.len() - i,
{
    if i < c.len() && i < path.len() && c[i] == path[i] {
        lemma_agree_from(c, path, i + 1);
    }
}

/// `agree` is the one place up to which `c` and `path` agree.
pub proof fn lemma_agree(c: Seq<u32>, path: Seq<u32>, d: int)
    ensures
        agrees_to(c, path, agree(c, path)),
        agrees_to(c, path, d) ==> d == agree(c, path),
{
    lemma_agree_from(c, path, 0);
    let a = agree(c, path);
    if agrees_to(c, path, d) && d != a {
        if d < a {
            assert(c[d] == path[d]);
        } else {
            assert(c[a] == path[a]);
        }
    }
}

impl SearchModel {
    /// `c` is a simple cycle of the component that starts at the start node.
    pub open spec fn is_start_cycle(self, c: Seq<u32>) -> bool {
        &&& c.len() > 0
        &&& c[0] == self.start
        &&& c.no_duplicates()
        &&& forall|i: int| 0 <= i < c.len() - 1 ==> #[trigger] self.succ(c[i], c[i + 1])
        &&& self.succ(c.last(), self.start)
    }

    /// The node that `c` visits after its first `d` nodes.
    pub open spec fn next_after(self, c: Seq<u32>, d: int) -> u32 {
        if d < c.len() {
            c[d]
        } else {
            self.start
        }
    }

    /// The search is past the cycle `c`: where `c` leaves the path of the
    /// search, the step that `c` takes has been tried.
    pub open spec fn passed(self, c: Seq<u32>) -> bool {
        self.path.len() == 0 || (agree(c, self.path) >= 1 && !self.remaining[agree(c, self.path)
            - 1].contains(self.next_after(c, agree(c, self.path))))
    }

    /// No parked node has an arc to the start node; a node of the path that
    /// has one and is not closed has not tried it yet; and the step from a
    /// node of the path to the next has been tried.
    pub open spec fn escape_ok(self) -> bool {
        &&& forall|x: u32| #[trigger] self.parked(x) ==> !self.succ(x, self.start)
        &&& forall|i: int|
            0 <= i < self.path.len() && !self.closed.contains(#[trigger] self.path[i]) && self.succ(
                self.path[i],
                self.start,
            ) ==> self.remaining[i].contains(self.start)
        &&& forall|i: int|
            0 <= i < self.path.len() - 1 ==> !(#[trigger] self.remaining[i]).contains(
                self.path[i + 1],
            )
    }

    /// The cycles found are the cycles through the start node that the
    /// search is past, each found once.
    pub open spec fn yielded_ok(self) -> bool {
        &&& self.yielded.no_duplicates()
        &&& forall|k: int| 0 <= k < self.yielded.len() ==> self.is_start_cycle(#[trigger] self.yielded[k])
        &&& forall|c: Seq<u32>| #[trigger]
            self.is_start_cycle(c) ==> (self.yielded.contains(c) <==> self.passed(c))
    }

    /// What holds between two steps of the search, with what it has found.
    #[verifier::opaque]
    pub open spec fn full_inv(self) -> bool {
        &&& self.inv()
        &&& self.escape_ok()
        &&& self.yielded_ok()
    }

    /// From a parked node no path leads to the start node that stays off the
    /// path of the search.
    pub proof fn lemma_no_escape(self, q: Seq<u32>, i: int)
        requires
            self.inv(),
            self.escape_ok(),
            q.len() > 0,
            self.parked(q[0]),
            forall|k: int| 0 <= k < q.len() ==> !self.path.contains(#[trigger] q[k]),
            forall|k: int| 0 <= k < q.len() - 1 ==> #[trigger] self.succ(q[k], q[k + 1]),
            0 <= i < q.len(),
        ensures
            self.parked(q[i]),
            !self.succ(q[i], self.start),
        decreases i,
    {
        reveal(SearchModel::inv);
        reveal(SearchModel::full_inv);
        if i > 0 {
            self.lemma_no_escape(q, i - 1);
            assert(self.succ(q[i - 1], q[i - 1 + 1]));
        }
    }
}

impl SearchModel {
    /// What the full invariant says of the path and the frames.
    pub proof fn lemma_full_frames(self)
        requires
            self.full_inv(),
        ensures
            self.inv(),
            self.frames_ok(),
    {
        reveal(SearchModel::inv);
        reveal(SearchModel::full_inv);
    }
}

impl SearchModel {
    /// What the full invariant says of the cycles found.
    pub proof fn lemma_yielded(self)
        requires
            self.full_inv(),
        ensures
            self.yielded.no_duplicates(),
            forall|k: int| 0 <= k < self.yielded.len() ==> self.is_start_cycle(#[trigger] self.yielded[k]),
    {
        reveal(SearchModel::full_inv);
    }
}

} // verus!
