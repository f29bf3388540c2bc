//! Which cycles the simple-cycle search is past.
//!
//! The search in one component tries the simple paths from the start node
//! in a fixed order and leaves out those that begin with a step to a blocked
//! node. This file shows that nothing is lost by that: when the search ends,
//! it has found every simple cycle through the start node, and each one
//! once.
use crate::algorithms::blocking::{agree, agrees_to, lemma_agree, SearchModel};
use vstd::prelude::*;

verus! {

/// What is left of a sequence without repetition when its last item is
/// taken off.
pub proof fn lemma_drop_last_contains(s: Seq<u32>, x: u32)
    requires
        s.no_duplicates(),
        s.len() > 0,
    ensures
        s.drop_last().contains(x) <==> s.contains(x) && x != s.last(),
{
    let front = s.drop_last();
    if front.contains(x) {
        let i = choose|i: int| 0 <= i < front.len() && front[i] == x;
        assert(s[i] == x);
        assert(s[i] != s[s.len() - 1]);
    }
    if s.contains(x) && x != s.last() {
        let i = choose|i: int| 0 <= i < s.len() && s[i] == x;
        assert(front[i] == x);
    }
}

impl SearchModel {
    /// A cycle through the start node agrees with a path of the search in
    /// its first node at least.
    pub proof fn lemma_agree_start(self, c: Seq<u32>)
        requires
            self.frames_ok(),
            self.path.len() > 0,
            self.is_start_cycle(c),
        ensures
            1 <= agree(c, self.path) <= c.len(),
            agree(c, self.path) <= self.path.len(),
            agrees_to(c, self.path, agree(c, self.path)),
    {
        lemma_agree(c, self.path, 0);
        let d = agree(c, self.path);
        if d == 0 {
            assert(c[0] == self.path[0]);
        }
    }

    /// No cycle through the start node goes on from the path of the search
    /// with a step to a blocked node.
    #[verifier::rlimit(50)]
    pub proof fn lemma_blocked_step(self, c: Seq<u32>)
        requires
            self.inv(),
            self.escape_ok(),
            self.path.len() > 0,
            self.is_start_cycle(c),
            agree(c, self.path) == self.path.len(),
            self.path.len() < c.len(),
        ensures
            !self.blocked.contains(c[self.path.len() as int]),
    {
        reveal(SearchModel::inv);
        reveal(SearchModel::full_inv);
        let d = self.path.len() as int;
        let w = c[d];
        self.lemma_agree_start(c);
        if self.blocked.contains(w) {
            if self.path.contains(w) {
                let j = choose|j: int| 0 <= j < self.path.len() && self.path[j] == w;
                assert(c[j] == self.path[j]);
                assert(c[j] == c[d]);
            } else {
                let q = c.skip(d);
                assert(q[0] == w);
                assert forall|k: int| 0 <= k < q.len() implies !self.path.contains(
                    #[trigger] q[k],
                ) by {
                    if self.path.contains(q[k]) {
                        let j = choose|j: int| 0 <= j < self.path.len() && self.path[j] == q[k];
                        assert(c[j] == self.path[j]);
                        assert(c[j] == c[d + k]);
                    }
                }
                assert forall|k: int| 0 <= k < q.len() - 1 implies #[trigger] self.succ(
                    q[k],
                    q[k + 1],
                ) by {
                    assert(self.succ(c[d + k], c[d + k + 1]));
                }
                self.lemma_no_escape(q, q.len() - 1);
                assert(q[q.len() - 1] == c.last());
            }
        }
    }

    /// Taking a blocked successor off the top frame keeps the full
    /// invariant: no cycle went that way.
    #[verifier::rlimit(50)]
    pub proof fn lemma_skip_full(self, s2: Self)
        requires
            self.full_inv(),
            self.path.len() > 0,
            self.remaining.last().len() > 0,
            self.blocked.contains(self.remaining.last().last()),
            self.remaining.last().last() != self.start,
            s2.same_graph(self),
            s2.path == self.path,
            s2.remaining == self.remaining.update(
                self.path.len() - 1,
                self.remaining.last().drop_last(),
            ),
            s2.blocked == self.blocked,
            s2.closed == self.closed,
            s2.block == self.block,
            s2.lvl == self.lvl,
            s2.yielded == self.yielded,
        ensures
            s2.full_inv(),
    {
        reveal(SearchModel::inv);
        reveal(SearchModel::full_inv);
        let p = self.path.len() - 1;
        let top = self.remaining.last();
        let w = top.last();
        self.lemma_take(s2);
        assert(self.remaining[p] == top);
        assert forall|a: u32, b: u32|
            #![trigger s2.succ(a, b)]
            #![trigger self.succ(a, b)]
            s2.succ(a, b) == self.succ(a, b) by {}
        assert forall|v: u32| #[trigger] s2.parked(v) == self.parked(v) by {}
        assert forall|i: int, x: u32|
            0 <= i < s2.remaining.len() && x != w implies (#[trigger] s2.remaining[i].contains(x)
            <==> self.remaining[i].contains(x)) by {
            if i == p {
                lemma_drop_last_contains(top, x);
            }
        }
        assert(s2.escape_ok()) by {
            assert forall|i: int|
                0 <= i < s2.path.len() && !s2.closed.contains(#[trigger] s2.path[i]) && s2.succ(
                    s2.path[i],
                    s2.start,
                ) implies s2.remaining[i].contains(s2.start) by {
                assert(self.remaining[i].contains(self.start));
                assert(s2.remaining[i].contains(s2.start) <==> self.remaining[i].contains(
                    s2.start,
                ));
            }
            assert forall|i: int| 0 <= i < s2.path.len() - 1 implies !(
            #[trigger] s2.remaining[i]).contains(s2.path[i + 1]) by {
                assert(!self.remaining[i].contains(self.path[i + 1]));
                assert(s2.remaining[i] == self.remaining[i]);
            }
        }
        assert(s2.yielded_ok()) by {
            assert forall|c: Seq<u32>| #[trigger] s2.is_start_cycle(c) implies (s2.yielded.contains(
                c,
            ) <==> s2.passed(c)) by {
                assert(self.is_start_cycle(c));
                self.lemma_agree_start(c);
                let d = agree(c, self.path);
                let next = self.next_after(c, d);
                assert(s2.next_after(c, d) == next);
                if d - 1 == p && next == w {
                    assert(d < c.len());
                    self.lemma_blocked_step(c);
                }
                if next != w {
                    assert(s2.remaining[d - 1].contains(next) <==> self.remaining[d - 1].contains(
                        next,
                    ));
                } else {
                    assert(d - 1 != p);
                    assert(s2.remaining[d - 1] == self.remaining[d - 1]);
                }
            }
            assert forall|k: int| 0 <= k < s2.yielded.len() implies s2.is_start_cycle(
                #[trigger] s2.yielded[k],
            ) by {
                assert(self.is_start_cycle(self.yielded[k]));
            }
        }
    }
}

impl SearchModel {
    /// The path of the search is a cycle through the start node when an arc
    /// leads from its top back to the start node.
    pub proof fn lemma_path_is_start_cycle(self)
        requires
            self.frames_ok(),
            self.path.len() > 0,
            self.succ(self.path.last(), self.start),
        ensures
            self.is_start_cycle(self.path),
            agree(self.path, self.path) == self.path.len(),
    {
        lemma_agree(self.path, self.path, self.path.len() as int);
    }

    /// A cycle through the start node that is as long as the path of the
    /// search and agrees with it all the way is that path.
    pub proof fn lemma_agree_all(self, c: Seq<u32>)
        requires
            agree(c, self.path) == self.path.len(),
            c.len() == self.path.len(),
        ensures
            c == self.path,
    {
        lemma_agree(c, self.path, 0);
        assert(c =~= self.path);
    }

    /// Finding a cycle keeps the full invariant: the step back to the start
    /// node is taken off the top frame, every node of the path is closed,
    /// and the path is the one cycle found.
    #[verifier::rlimit(50)]
    pub proof fn lemma_cycle_full(self, s2: Self)
        requires
            self.full_inv(),
            self.path.len() > 0,
            self.remaining.last().len() > 0,
            self.remaining.last().last() == self.start,
            s2.same_graph(self),
            s2.path == self.path,
            s2.remaining == self.remaining.update(
                self.path.len() - 1,
                self.remaining.last().drop_last(),
            ),
            s2.blocked == self.blocked,
            forall|v: u32|
                s2.closed.contains(v) <==> self.closed.contains(v) || self.path.contains(v),
            s2.block == self.block,
            s2.lvl == self.lvl,
            s2.yielded == self.yielded.push(self.path),
        ensures
            s2.full_inv(),
            self.is_start_cycle(self.path),
    {
        reveal(SearchModel::inv);
        reveal(SearchModel::full_inv);
        let p = self.path.len() - 1;
        let top = self.remaining.last();
        assert(self.remaining[p] == top);
        assert(self.path[0] == self.start);
        assert(self.blocked.contains(self.path[0]));
        let mid = SearchModel { remaining: s2.remaining, ..self };
        self.lemma_take(mid);
        mid.lemma_close(s2);
        assert(self.succ(self.path[p], top[top.len() - 1]));
        self.lemma_path_is_start_cycle();
        assert forall|a: u32, b: u32|
            #![trigger s2.succ(a, b)]
            #![trigger self.succ(a, b)]
            s2.succ(a, b) == self.succ(a, b) by {}
        assert forall|v: u32| #[trigger] s2.parked(v) == self.parked(v) by {}
        assert forall|i: int, x: u32|
            0 <= i < s2.remaining.len() && x != self.start implies (
        #[trigger] s2.remaining[i].contains(x) <==> self.remaining[i].contains(x)) by {
            if i == p {
                lemma_drop_last_contains(top, x);
            }
        }
        assert(s2.escape_ok()) by {
            assert forall|i: int| 0 <= i < s2.path.len() implies s2.closed.contains(
                #[trigger] s2.path[i],
            ) by {
                assert(self.path.contains(self.path[i]));
            }
            assert forall|i: int| 0 <= i < s2.path.len() - 1 implies !(
            #[trigger] s2.remaining[i]).contains(s2.path[i + 1]) by {
                assert(!self.remaining[i].contains(self.path[i + 1]));
                assert(s2.remaining[i] == self.remaining[i]);
            }
        }
        assert(!self.passed(self.path)) by {
            assert(top.contains(top[top.len() - 1]));
        }
        assert(!self.yielded.contains(self.path));
        assert(s2.yielded.no_duplicates()) by {
            assert forall|a: int, b: int|
                0 <= a < s2.yielded.len() && 0 <= b < s2.yielded.len() && a
                    != b implies s2.yielded[a] != s2.yielded[b] by {
                if a < self.yielded.len() && b < self.yielded.len() {
                    assert(self.yielded[a] != self.yielded[b]);
                } else if a < self.yielded.len() {
                    assert(self.yielded.contains(self.yielded[a]));
                } else {
                    assert(self.yielded.contains(self.yielded[b]));
                }
            }
        }
        assert forall|k: int| 0 <= k < s2.yielded.len() implies s2.is_start_cycle(
            #[trigger] s2.yielded[k],
        ) by {
            if k < self.yielded.len() {
                assert(self.is_start_cycle(self.yielded[k]));
            }
        }
        assert forall|c: Seq<u32>| #[trigger] s2.is_start_cycle(c) implies (s2.yielded.contains(c)
            <==> s2.passed(c)) by {
            assert(self.is_start_cycle(c));
            self.lemma_agree_start(c);
            let d = agree(c, self.path);
            let next = self.next_after(c, d);
            assert(s2.next_after(c, d) == next);
            assert(s2.yielded.contains(c) <==> self.yielded.contains(c) || c == self.path) by {
                if self.yielded.contains(c) {
                    let k = choose|k: int| 0 <= k < self.yielded.len() && self.yielded[k] == c;
                    assert(s2.yielded[k] == c);
                }
                if c == self.path {
                    assert(s2.yielded[self.yielded.len() as int] == c);
                }
                if s2.yielded.contains(c) {
                    let k = choose|k: int| 0 <= k < s2.yielded.len() && s2.yielded[k] == c;
                    if k < self.yielded.len() {
                        assert(self.yielded[k] == c);
                    }
                }
            }
            if c == self.path {
                lemma_drop_last_contains(top, self.start);
                assert(s2.remaining[p] == top.drop_last());
            } else {
                if next == self.start {
                    assert(d == c.len()) by {
                        if d < c.len() {
                            assert(c[d] != c[0]);
                        }
                    }
                    if d - 1 == p {
                        self.lemma_agree_all(c);
                    }
                    assert(s2.remaining[d - 1] == self.remaining[d - 1]);
                } else {
                    assert(s2.remaining[d - 1].contains(next) <==> self.remaining[d - 1].contains(
                        next,
                    ));
                }
            }
        }
    }

    /// Entering a node keeps the full invariant.
    #[verifier::rlimit(50)]
    pub proof fn lemma_push_full(self, s2: Self, w: u32, rem: Seq<u32>)
        requires
            self.full_inv(),
            self.path.len() > 0,
            self.remaining.last().len() > 0,
            w == self.remaining.last().last(),
            !self.blocked.contains(w),
            rem.no_duplicates(),
            forall|k: int| 0 <= k < rem.len() ==> self.succ(w, #[trigger] rem[k]),
            forall|x: u32| #[trigger] self.succ(w, x) ==> rem.contains(x),
            s2.same_graph(self),
            s2.path == self.path.push(w),
            s2.remaining == self.remaining.update(
                self.path.len() - 1,
                self.remaining.last().drop_last(),
            ).push(rem),
            s2.blocked == self.blocked.insert(w),
            s2.closed == self.closed.remove(w),
            s2.block == self.block,
            s2.lvl == self.lvl,
            s2.yielded == self.yielded,
        ensures
            s2.full_inv(),
    {
        reveal(SearchModel::inv);
        reveal(SearchModel::full_inv);
        let p = self.path.len() - 1;
        let top = self.remaining.last();
        self.lemma_push(s2, w, rem);
        assert(self.remaining[p] == top);
        assert(self.path[0] == self.start);
        assert(self.blocked.contains(self.path[0]));
        assert(w != self.start);
        assert forall|a: u32, b: u32|
            #![trigger s2.succ(a, b)]
            #![trigger self.succ(a, b)]
            s2.succ(a, b) == self.succ(a, b) by {}
        assert forall|v: u32| #[trigger] s2.parked(v) == self.parked(v) by {
            if v == w {
                assert(s2.path[p + 1] == w);
            } else {
                if self.path.contains(v) {
                    let i = choose|i: int| 0 <= i < self.path.len() && self.path[i] == v;
                    assert(s2.path[i] == v);
                }
                if s2.path.contains(v) {
                    let i = choose|i: int| 0 <= i < s2.path.len() && s2.path[i] == v;
                    assert(self.path[i] == v);
                }
            }
        }
        assert forall|i: int, x: u32|
            0 <= i <= p && x != w implies (#[trigger] s2.remaining[i].contains(x)
            <==> self.remaining[i].contains(x)) by {
            if i == p {
                lemma_drop_last_contains(top, x);
            }
        }
        assert(s2.escape_ok()) by {
            assert forall|i: int|
                0 <= i < s2.path.len() && !s2.closed.contains(#[trigger] s2.path[i]) && s2.succ(
                    s2.path[i],
                    s2.start,
                ) implies s2.remaining[i].contains(s2.start) by {
                if i <= p {
                    assert(s2.path[i] == self.path[i]);
                    assert(self.path.contains(self.path[i]));
                    assert(self.remaining[i].contains(self.start));
                    assert(s2.remaining[i].contains(s2.start) <==> self.remaining[i].contains(
                        s2.start,
                    ));
                }
            }
            assert forall|i: int| 0 <= i < s2.path.len() - 1 implies !(
            #[trigger] s2.remaining[i]).contains(s2.path[i + 1]) by {
                if i < p {
                    assert(!self.remaining[i].contains(self.path[i + 1]));
                    assert(s2.remaining[i] == self.remaining[i]);
                } else {
                    lemma_drop_last_contains(top, w);
                }
            }
        }
        assert forall|c: Seq<u32>| #[trigger] s2.is_start_cycle(c) implies (s2.yielded.contains(c)
            <==> s2.passed(c)) by {
            assert(self.is_start_cycle(c));
            self.lemma_agree_start(c);
            let d = agree(c, self.path);
            if d <= p || d == c.len() || c[d] != w {
                assert(agrees_to(c, s2.path, d)) by {
                    assert forall|i: int| 0 <= i < d implies c[i] == s2.path[i] by {
                        assert(c[i] == self.path[i]);
                    }
                }
                lemma_agree(c, s2.path, d);
                let next = self.next_after(c, d);
                assert(s2.remaining[d - 1].contains(next) <==> self.remaining[d - 1].contains(
                    next,
                )) by {
                    if d - 1 < p {
                        assert(s2.remaining[d - 1] == self.remaining[d - 1]);
                    } else {
                        assert(next != w);
                    }
                }
            } else {
                // `c` goes on from the path with a step to `w`.
                let d2 = d + 1;
                assert(agrees_to(c, s2.path, d2)) by {
                    assert forall|i: int| 0 <= i < d2 implies c[i] == s2.path[i] by {
                        if i < d {
                            assert(c[i] == self.path[i]);
                        }
                    }
                }
                lemma_agree(c, s2.path, d2);
                let next2 = s2.next_after(c, d2);
                assert(s2.succ(w, next2)) by {
                    if d2 < c.len() {
                        assert(self.succ(c[d], c[d + 1]));
                    } else {
                        assert(c.last() == c[d]);
                    }
                }
                assert(s2.remaining[d2 - 1] == rem);
                assert(!s2.passed(c));
                assert(top.contains(top[top.len() - 1]));
                assert(!self.passed(c));
            }
        }
        assert forall|k: int| 0 <= k < s2.yielded.len() implies s2.is_start_cycle(
            #[trigger] s2.yielded[k],
        ) by {
            assert(self.is_start_cycle(self.yielded[k]));
        }
    }

    /// Leaving the top node loses no cycle: the search is past the same
    /// cycles before and after.
    #[verifier::rlimit(50)]
    pub proof fn lemma_pop_passed(self, s2: Self, c: Seq<u32>)
        requires
            self.inv(),
            self.escape_ok(),
            self.path.len() > 0,
            self.remaining.last().len() == 0,
            s2.same_graph(self),
            s2.path == self.path.drop_last(),
            s2.remaining == self.remaining.drop_last(),
            self.is_start_cycle(c),
        ensures
            s2.passed(c) <==> self.passed(c),
    {
        reveal(SearchModel::inv);
        reveal(SearchModel::full_inv);
        let p = self.path.len() - 1;
        self.lemma_agree_start(c);
        let d = agree(c, self.path);
        assert(self.remaining[p] == self.remaining.last());
        if p == 0 {
            assert(d == 1);
        } else if d <= p {
            assert(agrees_to(c, s2.path, d)) by {
                assert forall|i: int| 0 <= i < d implies c[i] == s2.path[i] by {
                    assert(c[i] == self.path[i]);
                }
            }
            lemma_agree(c, s2.path, d);
            assert(s2.remaining[d - 1] == self.remaining[d - 1]);
        } else {
            assert(agrees_to(c, s2.path, p)) by {
                assert forall|i: int| 0 <= i < p implies c[i] == s2.path[i] by {
                    assert(c[i] == self.path[i]);
                }
            }
            lemma_agree(c, s2.path, p);
            assert(s2.next_after(c, p) == self.path[p]);
            assert(s2.remaining[p - 1] == self.remaining[p - 1]);
            assert(!self.remaining[p - 1].contains(self.path[p - 1 + 1]));
        }
    }

    /// Leaving a node that is not closed keeps the full invariant.
    #[verifier::rlimit(50)]
    pub proof fn lemma_retire_full(self, s2: Self)
        requires
            self.full_inv(),
            self.path.len() > 0,
            self.remaining.last().len() == 0,
            !self.closed.contains(self.top()),
            s2.same_graph(self),
            s2.path == self.path.drop_last(),
            s2.remaining == self.remaining.drop_last(),
            s2.blocked == self.blocked,
            s2.closed == self.closed,
            forall|v: u32| #[trigger]
                s2.block_of(v) == (if self.succ(self.top(), v) {
                    self.block_of(v).insert(self.top())
                } else {
                    self.block_of(v)
                }),
            forall|v: u32| #[trigger]
                (s2.lvl)(v) == (if v == self.top() {
                    self.path.len() - 2
                } else {
                    crate::algorithms::blocking::at_most((self.lvl)(v), self.path.len() - 2)
                }),
            s2.yielded == self.yielded,
        ensures
            s2.full_inv(),
    {
        reveal(SearchModel::inv);
        reveal(SearchModel::full_inv);
        let p = self.path.len() - 1;
        let t = self.top();
        self.lemma_retire(s2);
        assert(self.remaining[p] == self.remaining.last());
        assert forall|a: u32, b: u32|
            #![trigger s2.succ(a, b)]
            #![trigger self.succ(a, b)]
            s2.succ(a, b) == self.succ(a, b) by {}
        assert(!self.succ(t, self.start)) by {
            if self.succ(self.path[p], self.start) {
                assert(self.remaining[p].contains(self.start));
            }
        }
        assert forall|v: u32| #[trigger] s2.parked(v) implies self.parked(v) || v == t by {
            if self.path.contains(v) && v != t {
                let i = choose|i: int| 0 <= i < self.path.len() && self.path[i] == v;
                assert(s2.path[i] == v);
            }
        }
        self.lemma_pop_rest(s2);
    }

    /// Leaving a closed node that a cascade has set free keeps the full
    /// invariant.
    #[verifier::rlimit(50)]
    pub proof fn lemma_release_full(self, s2: Self)
        requires
            self.full_inv(),
            self.path.len() > 0,
            self.remaining.last().len() == 0,
            self.closed.contains(self.top()),
            s2.same_graph(self),
            s2.path == self.path.drop_last(),
            s2.remaining == self.remaining.drop_last(),
            s2.closed == self.closed,
            self.released(s2),
            forall|v: u32| #[trigger]
                (s2.lvl)(v) == crate::algorithms::blocking::at_most(
                    (self.lvl)(v),
                    self.path.len() - 2,
                ),
            s2.yielded == self.yielded,
        ensures
            s2.full_inv(),
    {
        reveal(SearchModel::inv);
        reveal(SearchModel::full_inv);
        let p = self.path.len() - 1;
        let t = self.top();
        self.lemma_release(s2);
        assert forall|a: u32, b: u32|
            #![trigger s2.succ(a, b)]
            #![trigger self.succ(a, b)]
            s2.succ(a, b) == self.succ(a, b) by {}
        assert forall|v: u32| #[trigger] s2.parked(v) implies self.parked(v) by {
            assert(s2.blocked.contains(v));
            assert(v != t);
            if self.path.contains(v) {
                let i = choose|i: int| 0 <= i < self.path.len() && self.path[i] == v;
                assert(s2.path[i] == v);
            }
        }
        self.lemma_pop_rest(s2);
    }

    /// What leaving the top node keeps of the full invariant, given that no
    /// parked node has an arc to the start node afterwards.
    proof fn lemma_pop_rest(self, s2: Self)
        requires
            self.full_inv(),
            s2.inv(),
            self.path.len() > 0,
            self.remaining.last().len() == 0,
            s2.same_graph(self),
            s2.path == self.path.drop_last(),
            s2.remaining == self.remaining.drop_last(),
            s2.closed == self.closed,
            s2.yielded == self.yielded,
            forall|v: u32| #[trigger] s2.parked(v) ==> !s2.succ(v, s2.start),
        ensures
            s2.full_inv(),
    {
        reveal(SearchModel::inv);
        reveal(SearchModel::full_inv);
        assert forall|a: u32, b: u32|
            #![trigger s2.succ(a, b)]
            #![trigger self.succ(a, b)]
            s2.succ(a, b) == self.succ(a, b) by {}
        assert(s2.escape_ok()) by {
            assert forall|i: int|
                0 <= i < s2.path.len() && !s2.closed.contains(#[trigger] s2.path[i]) && s2.succ(
                    s2.path[i],
                    s2.start,
                ) implies s2.remaining[i].contains(s2.start) by {
                assert(s2.path[i] == self.path[i]);
                assert(s2.remaining[i] == self.remaining[i]);
                assert(self.remaining[i].contains(self.start));
            }
            assert forall|i: int| 0 <= i < s2.path.len() - 1 implies !(
            #[trigger] s2.remaining[i]).contains(s2.path[i + 1]) by {
                assert(s2.remaining[i] == self.remaining[i]);
                assert(!self.remaining[i].contains(self.path[i + 1]));
            }
        }
        assert forall|c: Seq<u32>| #[trigger] s2.is_start_cycle(c) implies (s2.yielded.contains(c)
            <==> s2.passed(c)) by {
            assert(self.is_start_cycle(c));
            self.lemma_pop_passed(s2, c);
        }
        assert forall|k: int| 0 <= k < s2.yielded.len() implies s2.is_start_cycle(
            #[trigger] s2.yielded[k],
        ) by {
            assert(self.is_start_cycle(self.yielded[k]));
        }
    }

    /// The state in which the search of a component starts has the full
    /// invariant when nothing is found yet.
    pub proof fn lemma_initial_full(self)
        requires
            self.nodes.finite(),
            self.nodes.contains(self.start),
            self.path == seq![self.start],
            self.remaining.len() == 1,
            self.remaining[0].no_duplicates(),
            self.blocked == set![self.start],
            self.closed == Set::<u32>::empty(),
            self.block == Map::<u32, Set<u32>>::empty(),
            self.yielded == Seq::<Seq<u32>>::empty(),
            forall|a: u32, b: u32| #[trigger]
                self.succ(a, b) ==> self.nodes.contains(a) && self.nodes.contains(b),
            forall|k: int|
                0 <= k < self.remaining[0].len() ==> self.succ(
                    self.start,
                    #[trigger] self.remaining[0][k],
                ),
            forall|w: u32| #[trigger] self.succ(self.start, w) ==> self.remaining[0].contains(w),
        ensures
            self.full_inv(),
    {
        reveal(SearchModel::inv);
        reveal(SearchModel::full_inv);
        self.lemma_initial();
        assert forall|v: u32| !(#[trigger] self.parked(v)) by {
            if self.blocked.contains(v) {
                assert(self.path[0] == v);
            }
        }
        assert forall|c: Seq<u32>| #[trigger] self.is_start_cycle(c) implies (
        self.yielded.contains(c) <==> self.passed(c)) by {
            self.lemma_agree_start(c);
            let d = agree(c, self.path);
            assert(d == 1);
            let next = self.next_after(c, d);
            assert(self.succ(self.start, next)) by {
                if 1 < c.len() {
                    assert(self.succ(c[0int], c[0int + 1]));
                } else {
                    assert(c.last() == c[0]);
                }
            }
            assert(self.remaining[0].contains(next));
        }
    }

    /// When the search has ended, every simple cycle through the start node
    /// has been found.
    pub proof fn lemma_all_found(self, c: Seq<u32>)
        requires
            self.full_inv(),
            self.path.len() == 0,
            self.is_start_cycle(c),
        ensures
            self.yielded.contains(c),
    {
        reveal(SearchModel::inv);
        reveal(SearchModel::full_inv);
    }
}

} // verus!
