//! The backtracking search for a Hamiltonian cycle.
//!
//! The search fills a path position by position. In a graph whose edges all have
//! an odd sum the vertices of a path alternate between odd and even, so each
//! position takes vertices of one parity only. They are tried from the largest
//! down: a path that is grown from the cycle of a smaller graph has used up the
//! small vertices.

use crate::hankel::bipartite::lemma_search_is_complete;
use crate::hankel::Hankel;
use vstd::prelude::*;

verus! {

/// `p` is found by the search before `q`, or is `q` itself: where the two first
/// differ, `p` holds the larger vertex.
pub open spec fn tried_before(p: Seq<usize>, q: Seq<usize>) -> bool {
    p =~= q || exists|k: int|
        0 <= k < p.len() && k < q.len() && #[trigger] p[k] > q[k] && forall|j: int|
            0 <= j < k ==> p[j] == q[j]
}

/// No vertex occurs twice in `p`.
pub open spec fn distinct(p: Seq<usize>) -> bool {
    forall|i: int, j: int| 0 <= i < j < p.len() ==> p[i] != p[j]
}

impl Hankel {
    /// The largest vertex that the search tries at position `k`.
    pub open spec fn first_candidate(&self, k: int) -> int {
        self.order() - (k + 1) % 2
    }

    /// `v` is one of the vertices that the search tries at position `k`: those
    /// above 1 that differ from the first candidate by an even number.
    pub open spec fn candidate(&self, k: int, v: int) -> bool {
        &&& 1 < v <= self.first_candidate(k)
        &&& (self.first_candidate(k) - v) % 2 == 0
    }

    /// `v` may stand at position `k` behind the first `k` members of `p`: it is a
    /// candidate there, it is joined to the vertex before it, and it does not
    /// occur at an earlier position of the same parity.
    pub open spec fn fits(&self, p: Seq<usize>, k: int, v: int) -> bool {
        &&& self.candidate(k, v)
        &&& self.adjacent(p[k - 1] as int, v)
        &&& forall|j: int| 0 <= j < k && (k - j) % 2 == 0 ==> #[trigger] p[j] != v
    }

    /// `q` starts with the first `pos` members of `p0` and goes on with vertices
    /// that fit.
    pub open spec fn continues(&self, p0: Seq<usize>, pos: int, q: Seq<usize>) -> bool {
        &&& pos <= q.len() <= self.order()
        &&& forall|j: int| 0 <= j < pos ==> #[trigger] q[j] == p0[j]
        &&& forall|k: int| pos <= k < q.len() ==> #[trigger] self.fits(q, k, q[k] as int)
    }

    /// `q` continues the first `pos` members of `p0` through all positions of the
    /// graph, and its last vertex is joined to its first.
    pub open spec fn closes(&self, p0: Seq<usize>, pos: int, q: Seq<usize>) -> bool {
        &&& self.continues(p0, pos, q)
        &&& q.len() == self.order()
        &&& self.adjacent(q[0] as int, q[q.len() - 1] as int)
    }

    /// The first `pos` members of `p0` have a closing continuation.
    pub open spec fn closable(&self, p0: Seq<usize>, pos: int) -> bool {
        exists|q: Seq<usize>| #[trigger] self.closes(p0, pos, q)
    }

    /// `c` is the first closing continuation in the order of the search.
    pub open spec fn first_closing(&self, p0: Seq<usize>, pos: int, c: Seq<usize>) -> bool {
        &&& self.closes(p0, pos, c)
        &&& forall|q: Seq<usize>| #[trigger] self.closes(p0, pos, q) ==> tried_before(c, q)
    }

    /// Some continuation of the first `pos` members of `p0` gets as far as position `k`.
    pub open spec fn reached(&self, p0: Seq<usize>, pos: int, k: int) -> bool {
        exists|q: Seq<usize>| #[trigger] self.continues(p0, pos, q) && pos <= k && q.len() == k + 1
    }

    /// What a failed search leaves of `p0`: the positions that it reached are
    /// empty, the others are as they were.
    pub open spec fn cleared(&self, p0: Seq<usize>, pos: int, p: Seq<usize>) -> bool {
        &&& p.len() == p0.len()
        &&& forall|k: int|
            0 <= k < p.len() ==> #[trigger] p[k] == if self.reached(p0, pos, k) {
                0
            } else {
                p0[k]
            }
    }

    /// The vertex `v` is in place at position `k`: it is vertex 1, which the search
    /// never tries, or it has the parity of the candidates for that position.
    pub open spec fn in_place(&self, k: int, v: int) -> bool {
        self.has_vertex(v) && (v == 1 || (self.first_candidate(k) - v) % 2 == 0)
    }

    /// The path `p` is one that the search can grow into a Hamiltonian cycle: its
    /// distinct vertices are each in place and each joined to the next.
    pub open spec fn orderly(&self, p: Seq<usize>) -> bool {
        &&& distinct(p)
        &&& self.is_path(p)
        &&& forall|k: int| 0 <= k < p.len() ==> self.in_place(k, #[trigger] p[k] as int)
    }

    /// `c` is a Hamiltonian cycle: a cycle through every vertex of the graph once.
    pub open spec fn is_hamiltonian_cycle(&self, c: Seq<usize>) -> bool {
        &&& c.len() == self.order()
        &&& self.has_vertices(c)
        &&& distinct(c)
        &&& self.is_cycle(c)
    }

    /// No closing continuation holds a vertex above `n` at position `pos`.
    #[verifier::opaque]
    spec fn none_above(&self, p0: Seq<usize>, pos: int, n: int) -> bool {
        forall|q: Seq<usize>| #[trigger] self.closes(p0, pos, q) ==> q[pos] <= n
    }

    /// Some continuation with a vertex above `n` at position `pos` gets as far as
    /// position `k`.
    #[verifier::opaque]
    spec fn reached_above(&self, p0: Seq<usize>, pos: int, k: int, n: int) -> bool {
        exists|q: Seq<usize>|
            #[trigger] self.continues(p0, pos, q) && pos <= k && q.len() == k + 1 && q[pos] > n
    }

    /// What the search has left of `p0` once the candidates above `n` have failed
    /// at position `pos`.
    #[verifier::opaque]
    spec fn cleared_above(&self, p0: Seq<usize>, pos: int, n: int, p: Seq<usize>) -> bool {
        &&& p.len() == p0.len()
        &&& forall|k: int|
            0 <= k < p.len() ==> #[trigger] p[k] == if self.reached_above(p0, pos, k, n) {
                0
            } else {
                p0[k]
            }
    }

    /// A continuation behind the candidate `n` continues the shorter start as well.
    proof fn lemma_descend(&self, p0: Seq<usize>, cur: Seq<usize>, pos: int, n: int, q: Seq<usize>)
        requires
            1 <= pos < cur.len(),
            forall|j: int| 0 <= j < pos ==> cur[j] == p0[j],
            cur[pos] == n,
            self.fits(cur, pos, n),
            self.continues(cur, pos + 1, q),
        ensures
            self.continues(p0, pos, q),
            pos < q.len(),
            q[pos] == n,
    {
        assert(q[pos] == cur[pos]);
        assert forall|j: int| 0 <= j < pos implies #[trigger] q[j] == p0[j] by {
            assert(q[j] == cur[j]);
        }
        assert(q[pos - 1] == cur[pos - 1]);
        assert forall|j: int| 0 <= j < pos && (pos - j) % 2 == 0 implies #[trigger] q[j] != n by {
            assert(q[j] == cur[j]);
            assert(cur[j] != n);
        }
        assert(self.fits(q, pos, q[pos] as int));
    }

    /// A continuation that holds the candidate `n` at `pos` continues the start
    /// that was lengthened by `n`.
    proof fn lemma_ascend(&self, p0: Seq<usize>, cur: Seq<usize>, pos: int, n: int, q: Seq<usize>)
        requires
            1 <= pos < cur.len(),
            forall|j: int| 0 <= j < pos ==> cur[j] == p0[j],
            cur[pos] == n,
            self.continues(p0, pos, q),
            pos < q.len(),
            q[pos] == n,
        ensures
            self.continues(cur, pos + 1, q),
    {
        assert forall|j: int| 0 <= j < pos + 1 implies #[trigger] q[j] == cur[j] by {
            if j < pos {
                assert(q[j] == p0[j]);
            }
        }
    }

    /// Whether a vertex fits at `pos` depends on the members before `pos` only.
    proof fn lemma_fits_start(&self, p: Seq<usize>, q: Seq<usize>, pos: int, v: int)
        requires
            1 <= pos,
            forall|j: int| 0 <= j < pos ==> #[trigger] q[j] == p[j],
            self.fits(q, pos, v),
        ensures
            self.fits(p, pos, v),
    {
        assert(q[pos - 1] == p[pos - 1]);
        assert forall|j: int| 0 <= j < pos && (pos - j) % 2 == 0 implies #[trigger] p[j] != v by {
            assert(q[j] == p[j]);
            assert(q[j] != v);
        }
    }

    /// A continuation that goes beyond `pos` holds a candidate there, which fits
    /// behind every path with the same start.
    proof fn lemma_holds_candidate(&self, p0: Seq<usize>, pos: int, q: Seq<usize>)
        requires
            1 <= pos,
            self.continues(p0, pos, q),
            pos < q.len(),
        ensures
            self.candidate(pos, q[pos] as int),
            self.fits(p0, pos, q[pos] as int),
    {
        assert(self.fits(q, pos, q[pos] as int));
        self.lemma_fits_start(p0, q, pos, q[pos] as int);
    }

    /// A continuation that was reached above `n` is given.
    proof fn lemma_above_witness(&self, p0: Seq<usize>, pos: int, k: int, n: int) -> (q: Seq<usize>)
        requires
            self.reached_above(p0, pos, k, n),
        ensures
            self.continues(p0, pos, q),
            pos <= k,
            q.len() == k + 1,
            q[pos] > n,
    {
        reveal(Hankel::reached_above);
        choose|q: Seq<usize>|
            #[trigger] self.continues(p0, pos, q) && pos <= k && q.len() == k + 1 && q[pos] > n
    }

    /// A continuation with a vertex above `n` at `pos` shows that its last position
    /// was reached above `n`.
    proof fn lemma_above_shown(&self, p0: Seq<usize>, pos: int, n: int, q: Seq<usize>)
        requires
            self.continues(p0, pos, q),
            pos < q.len(),
            q[pos] > n,
        ensures
            self.reached_above(p0, pos, q.len() - 1, n),
    {
        reveal(Hankel::reached_above);
    }

    /// A continuation that was reached is given.
    proof fn lemma_reached_witness(&self, p0: Seq<usize>, pos: int, k: int) -> (q: Seq<usize>)
        requires
            self.reached(p0, pos, k),
        ensures
            self.continues(p0, pos, q),
            pos <= k,
            q.len() == k + 1,
    {
        choose|q: Seq<usize>| #[trigger] self.continues(p0, pos, q) && pos <= k && q.len() == k + 1
    }

    /// The search leaves the members before `pos` and those behind the graph's
    /// positions as they were.
    proof fn lemma_start_kept(&self, p0: Seq<usize>, pos: int, n: int, p: Seq<usize>)
        requires
            self.cleared_above(p0, pos, n, p),
        ensures
            p.len() == p0.len(),
            forall|j: int| 0 <= j < pos && j < p.len() ==> p[j] == p0[j],
            forall|j: int| self.order() <= j < p.len() ==> p[j] == p0[j],
    {
        reveal(Hankel::cleared_above);
        assert forall|j: int| 0 <= j < p.len() && (j < pos || self.order() <= j) implies p[j]
            == p0[j] by {
            if self.reached_above(p0, pos, j, n) {
                let q = self.lemma_above_witness(p0, pos, j, n);
            }
        }
    }

    /// At the last position nothing is left to fill: the path closes or it does not.
    proof fn lemma_leaf(&self, p0: Seq<usize>)
        requires
            self.wf(),
            self.order() <= p0.len(),
        ensures
            self.adjacent(p0[0] as int, p0[self.order() - 1] as int) ==> self.first_closing(
                p0,
                self.order() as int,
                p0.take(self.order() as int),
            ),
            self.adjacent(p0[0] as int, p0[self.order() - 1] as int) == self.closable(
                p0,
                self.order() as int,
            ),
            self.cleared(p0, self.order() as int, p0),
    {
        let n = self.order() as int;
        let c = p0.take(n);
        assert forall|q: Seq<usize>| #[trigger] self.closes(p0, n, q) implies q =~= c by {
            assert forall|j: int| 0 <= j < n implies q[j] == c[j] by {
                assert(q[j] == p0[j]);
            }
        }
        if self.adjacent(p0[0] as int, p0[n - 1] as int) {
            assert(self.continues(p0, n, c));
            assert(self.closes(p0, n, c));
        } else {
            if self.closable(p0, n) {
                let q = choose|q: Seq<usize>| #[trigger] self.closes(p0, n, q);
                assert(q =~= c);
            }
        }
        assert forall|k: int| 0 <= k < p0.len() implies !self.reached(p0, n, k) by {
            if self.reached(p0, n, k) {
                let q = self.lemma_reached_witness(p0, n, k);
            }
        }
    }

    /// Before the first candidate is tried nothing has been excluded or cleared.
    proof fn lemma_search_starts(&self, p0: Seq<usize>, pos: int)
        requires
            self.wf(),
            1 <= pos < self.order() <= p0.len(),
        ensures
            self.none_above(p0, pos, self.first_candidate(pos)),
            self.cleared_above(p0, pos, self.first_candidate(pos), p0),
    {
        reveal(Hankel::none_above);
        reveal(Hankel::cleared_above);
        let top = self.first_candidate(pos);
        assert forall|q: Seq<usize>| #[trigger] self.closes(p0, pos, q) implies q[pos] <= top by {
            self.lemma_holds_candidate(p0, pos, q);
        }
        assert forall|k: int| 0 <= k < p0.len() implies !self.reached_above(p0, pos, k, top) by {
            if self.reached_above(p0, pos, k, top) {
                let q = self.lemma_above_witness(p0, pos, k, top);
                self.lemma_holds_candidate(p0, pos, q);
            }
        }
    }

    /// No continuation holds at `pos` a candidate that does not fit there, nor the
    /// vertex below it.
    proof fn lemma_not_held(&self, p0: Seq<usize>, pos: int, n: int, q: Seq<usize>)
        requires
            1 <= pos,
            self.candidate(pos, n),
            !self.fits(p0, pos, n),
            self.continues(p0, pos, q),
            pos < q.len(),
            q[pos] > n - 2,
        ensures
            q[pos] > n,
    {
        self.lemma_holds_candidate(p0, pos, q);
    }

    /// A candidate that does not fit is passed over.
    proof fn lemma_passed_over(&self, p0: Seq<usize>, pre: Seq<usize>, pos: int, n: int)
        requires
            self.wf(),
            1 <= pos < self.order() <= p0.len(),
            self.candidate(pos, n),
            self.none_above(p0, pos, n),
            self.cleared_above(p0, pos, n, pre),
            !self.fits(pre, pos, n),
        ensures
            self.none_above(p0, pos, n - 2),
            self.cleared_above(p0, pos, n - 2, pre),
    {
        self.lemma_start_kept(p0, pos, n, pre);
        if self.fits(p0, pos, n) {
            self.lemma_fits_start(pre, p0, pos, n);
        }
        assert forall|q: Seq<usize>| #[trigger] self.closes(p0, pos, q) implies q[pos] <= n - 2 by {
            reveal(Hankel::none_above);
            if q[pos] > n - 2 {
                self.lemma_not_held(p0, pos, n, q);
            }
        }
        assert(self.none_above(p0, pos, n - 2)) by {
            reveal(Hankel::none_above);
        }
        assert forall|k: int| 0 <= k < pre.len() implies self.reached_above(p0, pos, k, n - 2)
            == self.reached_above(p0, pos, k, n) by {
            if self.reached_above(p0, pos, k, n - 2) {
                let q = self.lemma_above_witness(p0, pos, k, n - 2);
                self.lemma_not_held(p0, pos, n, q);
                self.lemma_above_shown(p0, pos, n, q);
            }
            if self.reached_above(p0, pos, k, n) {
                let q = self.lemma_above_witness(p0, pos, k, n);
                self.lemma_above_shown(p0, pos, n - 2, q);
            }
        }
        assert(self.cleared_above(p0, pos, n - 2, pre)) by {
            reveal(Hankel::cleared_above);
        }
    }

    /// What lies at position `k` once the search behind the candidate `n` has
    /// failed and the candidate has been taken back.
    proof fn lemma_given_up_at(
        &self,
        p0: Seq<usize>,
        pre: Seq<usize>,
        fin: Seq<usize>,
        pos: int,
        n: usize,
        k: int,
    )
        requires
            self.wf(),
            1 <= pos < self.order() <= p0.len(),
            self.candidate(pos, n as int),
            self.cleared_above(p0, pos, n as int, pre),
            self.fits(pre, pos, n as int),
            self.cleared(pre.update(pos, n), pos + 1, fin),
            0 <= k < p0.len(),
        ensures
            fin.update(pos, 0)[k] == if self.reached_above(p0, pos, k, n - 2) {
                0
            } else {
                p0[k]
            },
    {
        let cur = pre.update(pos, n);
        self.lemma_start_kept(p0, pos, n as int, pre);
        assert(fin.len() == p0.len());
        assert(fin[k] == if self.reached(cur, pos + 1, k) {
            0
        } else {
            cur[k]
        });
        self.lemma_fits_start(cur, pre, pos, n as int);
        if k < pos {
            if self.reached(cur, pos + 1, k) {
                let q = self.lemma_reached_witness(cur, pos + 1, k);
            }
            if self.reached_above(p0, pos, k, n - 2) {
                let q = self.lemma_above_witness(p0, pos, k, n - 2);
            }
        } else if k == pos {
            let w = cur.take(pos + 1);
            self.lemma_fits_start(w, cur, pos, n as int);
            assert(self.continues(p0, pos, w));
            self.lemma_above_shown(p0, pos, n - 2, w);
        } else if self.reached(cur, pos + 1, k) {
            let q = self.lemma_reached_witness(cur, pos + 1, k);
            self.lemma_descend(p0, cur, pos, n as int, q);
            self.lemma_above_shown(p0, pos, n - 2, q);
        } else {
            assert(fin[k] == pre[k]);
            assert(pre[k] == if self.reached_above(p0, pos, k, n as int) {
                0
            } else {
                p0[k]
            }) by {
                reveal(Hankel::cleared_above);
            }
            if self.reached_above(p0, pos, k, n - 2) {
                let q = self.lemma_above_witness(p0, pos, k, n - 2);
                self.lemma_holds_candidate(p0, pos, q);
                if q[pos] == n {
                    self.lemma_ascend(p0, cur, pos, n as int, q);
                    assert(self.reached(cur, pos + 1, k));
                }
                self.lemma_above_shown(p0, pos, n as int, q);
            }
            if self.reached_above(p0, pos, k, n as int) {
                let q = self.lemma_above_witness(p0, pos, k, n as int);
                self.lemma_above_shown(p0, pos, n - 2, q);
            }
        }
    }

    /// A candidate behind which the search failed is given up.
    proof fn lemma_given_up(
        &self,
        p0: Seq<usize>,
        pre: Seq<usize>,
        fin: Seq<usize>,
        pos: int,
        n: usize,
    )
        requires
            self.wf(),
            1 <= pos < self.order() <= p0.len(),
            self.candidate(pos, n as int),
            self.none_above(p0, pos, n as int),
            self.cleared_above(p0, pos, n as int, pre),
            self.fits(pre, pos, n as int),
            !self.closable(pre.update(pos, n), pos + 1),
            self.cleared(pre.update(pos, n), pos + 1, fin),
        ensures
            self.none_above(p0, pos, n - 2),
            self.cleared_above(p0, pos, n - 2, fin.update(pos, 0)),
    {
        let cur = pre.update(pos, n);
        let last = fin.update(pos, 0);
        self.lemma_start_kept(p0, pos, n as int, pre);
        assert forall|q: Seq<usize>| #[trigger] self.closes(p0, pos, q) implies q[pos] <= n - 2 by {
            reveal(Hankel::none_above);
            self.lemma_holds_candidate(p0, pos, q);
            if q[pos] == n {
                self.lemma_ascend(p0, cur, pos, n as int, q);
                assert(self.closes(cur, pos + 1, q));
            }
        }
        assert(self.none_above(p0, pos, n - 2)) by {
            reveal(Hankel::none_above);
        }
        assert forall|k: int| 0 <= k < last.len() implies #[trigger] last[k] == if self.reached_above(
            p0,
            pos,
            k,
            n - 2,
        ) {
            0
        } else {
            p0[k]
        } by {
            self.lemma_given_up_at(p0, pre, fin, pos, n, k);
        }
        assert(self.cleared_above(p0, pos, n - 2, last)) by {
            reveal(Hankel::cleared_above);
        }
    }

    /// A cycle found behind a candidate is the first one behind the shorter start.
    proof fn lemma_found(
        &self,
        p0: Seq<usize>,
        pre: Seq<usize>,
        fin: Seq<usize>,
        pos: int,
        n: usize,
    )
        requires
            self.wf(),
            1 <= pos < self.order() <= p0.len(),
            self.candidate(pos, n as int),
            self.none_above(p0, pos, n as int),
            self.cleared_above(p0, pos, n as int, pre),
            self.fits(pre, pos, n as int),
            fin.len() == p0.len(),
            self.first_closing(pre.update(pos, n), pos + 1, fin.take(self.order() as int)),
            forall|k: int| self.order() <= k < fin.len() ==> fin[k] == pre.update(pos, n)[k],
        ensures
            self.first_closing(p0, pos, fin.take(self.order() as int)),
            forall|k: int| self.order() <= k < fin.len() ==> fin[k] == p0[k],
    {
        let cur = pre.update(pos, n);
        let c = fin.take(self.order() as int);
        self.lemma_start_kept(p0, pos, n as int, pre);
        self.lemma_fits_start(cur, pre, pos, n as int);
        self.lemma_descend(p0, cur, pos, n as int, c);
        assert forall|q: Seq<usize>| #[trigger] self.closes(p0, pos, q) implies tried_before(
            c,
            q,
        ) by {
            reveal(Hankel::none_above);
            self.lemma_holds_candidate(p0, pos, q);
            if q[pos] == n {
                self.lemma_ascend(p0, cur, pos, n as int, q);
                assert(self.closes(cur, pos + 1, q));
            } else {
                assert(c[pos] > q[pos]);
                assert forall|j: int| 0 <= j < pos implies c[j] == q[j] by {
                    assert(c[j] == p0[j]);
                    assert(q[j] == p0[j]);
                }
            }
        }
        assert forall|k: int| self.order() <= k < fin.len() implies fin[k] == p0[k] by {
            assert(fin[k] == cur[k]);
        }
    }

    /// When no candidate is left the search has failed.
    proof fn lemma_exhausted(&self, p0: Seq<usize>, p: Seq<usize>, pos: int, n: int)
        requires
            self.wf(),
            1 <= pos < self.order() <= p0.len(),
            n <= 1,
            self.none_above(p0, pos, n),
            self.cleared_above(p0, pos, n, p),
        ensures
            !self.closable(p0, pos),
            self.cleared(p0, pos, p),
    {
        if self.closable(p0, pos) {
            reveal(Hankel::none_above);
            let q = choose|q: Seq<usize>| #[trigger] self.closes(p0, pos, q);
            self.lemma_holds_candidate(p0, pos, q);
        }
        assert forall|k: int| 0 <= k < p.len() implies self.reached(p0, pos, k)
            == self.reached_above(p0, pos, k, n) by {
            if self.reached(p0, pos, k) {
                let q = self.lemma_reached_witness(p0, pos, k);
                self.lemma_holds_candidate(p0, pos, q);
                self.lemma_above_shown(p0, pos, n, q);
            }
            if self.reached_above(p0, pos, k, n) {
                let q = self.lemma_above_witness(p0, pos, k, n);
                assert(self.reached(p0, pos, k));
            }
        }
        assert(self.cleared(p0, pos, p)) by {
            reveal(Hankel::cleared_above);
        }
    }

    /// Tries to make a Hamiltonian cycle out of `path` by backtracking.
    ///
    /// The first `pos` members of `path` are left as they are, and the positions
    /// from `pos` up to the order of the graph are filled. The result tells whether
    /// a cycle was made. If so, it is the first one in the order of the search.
    /// If not, the positions that the search reached are left empty.
    pub fn hamiltonian_cycle(&self, path: &mut [usize], pos: usize) -> (found: bool)
        requires
            self.wf(),
            1 <= pos <= self.order() <= old(path)@.len(),
            self.has_vertex(old(path)@[0] as int),
            self.has_vertex(old(path)@[pos - 1] as int),
        ensures
            final(path)@.len() == old(path)@.len(),
            found <==> self.closable(old(path)@, pos as int),
            found ==> self.first_closing(
                old(path)@,
                pos as int,
                final(path)@.take(self.order() as int),
            ),
            found ==> forall|k: int|
                self.order() <= k < old(path)@.len() ==> final(path)@[k] == old(path)@[k],
            !found ==> self.cleared(old(path)@, pos as int, final(path)@),
            found && self.has_vertices(old(path)@.take(pos as int)) ==> self.has_vertices(
                final(path)@.take(self.order() as int),
            ),
            found && self.is_path(old(path)@.take(pos as int)) ==> self.is_cycle(
                final(path)@.take(self.order() as int),
            ),
            found && self.orderly(old(path)@.take(pos as int)) ==> self.is_hamiltonian_cycle(
                final(path)@.take(self.order() as int),
            ) && self.orderly(final(path)@.take(self.order() as int)),
        decreases self.order() - pos,
    {
        let ghost p0 = path@;
        if pos == self.size {
            proof {
                self.lemma_leaf(p0);
                if self.closes(p0, pos as int, p0.take(pos as int)) {
                    lemma_closing_is_hamiltonian(*self, p0, pos as int, p0.take(pos as int));
                }
            }
            return self.get(path[0], path[pos - 1]) != 0;
        }
        // the vertices alternate between odd and even; the largest come first,
        // because a path that is reused is made up of the smaller ones
        let mut n: usize = self.size - (pos + 1) % 2;
        proof {
            self.lemma_search_starts(p0, pos as int);
        }
        while n > 1
            invariant
                self.wf(),
                p0 == old(path)@,
                1 <= pos < self.order() <= p0.len(),
                self.has_vertex(p0[0] as int),
                self.has_vertex(p0[pos - 1] as int),
                n <= self.first_candidate(pos as int),
                (self.first_candidate(pos as int) - n) % 2 == 0,
                self.none_above(p0, pos as int, n as int),
                self.cleared_above(p0, pos as int, n as int, path@),
            decreases n,
        {
            let ghost pre = path@;
            proof {
                self.lemma_start_kept(p0, pos as int, n as int, pre);
            }
            let mut usable = self.get(path[pos - 1], n) != 0;
            if usable {
                let mut j: usize = pos % 2;
                while j < pos
                    invariant_except_break
                        usable,
                    invariant
                        path@ == pre,
                        pos < self.order(),
                        2 * self.order() <= usize::MAX,
                        pos <= pre.len(),
                        (pos - j) % 2 == 0,
                        forall|i: int| 0 <= i < j && (pos - i) % 2 == 0 ==> #[trigger] pre[i] != n,
                    ensures
                        usable ==> forall|i: int|
                            0 <= i < pos && (pos - i) % 2 == 0 ==> #[trigger] pre[i] != n,
                        !usable ==> exists|i: int|
                            0 <= i < pos && (pos - i) % 2 == 0 && #[trigger] pre[i] == n,
                    decreases pos + 2 - j,
                {
                    if path[j] == n {
                        usable = false;
                        break ;
                    }
                    j += 2;
                }
            }
            assert(usable == self.fits(pre, pos as int, n as int));
            if usable {
                path[pos] = n;
                if self.hamiltonian_cycle(path, pos + 1) {
                    proof {
                        self.lemma_found(p0, pre, path@, pos as int, n);
                        assert(self.closes(p0, pos as int, path@.take(self.order() as int)));
                        lemma_closing_is_hamiltonian(
                            *self,
                            p0,
                            pos as int,
                            path@.take(self.order() as int),
                        );
                    }
                    return true;
                }
                let ghost fin = path@;
                path[pos] = 0;
                proof {
                    self.lemma_given_up(p0, pre, fin, pos as int, n);
                }
            } else {
                proof {
                    self.lemma_passed_over(p0, pre, pos as int, n as int);
                }
            }
            n -= 2;
        }
        proof {
            self.lemma_exhausted(p0, path@, pos as int, n as int);
        }
        false
    }

    /// Searches for a Hamiltonian cycle that starts at vertex 1.
    ///
    /// If there is a cycle that the search can find, the first one in its order is
    /// returned. Otherwise `None` is returned.
    pub fn is_hamiltonian(&self) -> (cycle: Option<Vec<usize>>)
        requires
            self.wf(),
        ensures
            cycle is Some <==> self.closable(seq![1usize], 1),
            cycle matches Some(c) ==> self.first_closing(seq![1usize], 1, c@),
            cycle matches Some(c) ==> self.is_hamiltonian_cycle(c@) && self.orderly(c@),
            self.joins_odd_sums() ==> (cycle is Some <==> self.has_hamiltonian_cycle()),
    {
        let mut path: Vec<usize> = vec![0usize; self.size];
        path[0] = 1;
        let ghost p0 = path@;
        let ghost start = seq![1usize];
        proof {
            assert(p0.take(1) =~= start);
            assert(self.orderly(start));
            assert forall|q: Seq<usize>| self.closes(p0, 1, q) == self.closes(start, 1, q) by {
                if self.continues(p0, 1, q) {
                    lemma_same_start(*self, p0, start, 1, q);
                }
                if self.continues(start, 1, q) {
                    lemma_same_start(*self, start, p0, 1, q);
                }
            }
        }
        if self.hamiltonian_cycle(path.as_mut_slice(), 1) {
            proof {
                assert(path@.take(self.order() as int) =~= path@);
                assert(self.closes(p0, 1, path@));
            }
            Some(path)
        } else {
            proof {
                if self.closable(start, 1) {
                    let q = choose|q: Seq<usize>| #[trigger] self.closes(start, 1, q);
                    assert(self.closes(p0, 1, q));
                }
                if self.joins_odd_sums() && self.has_hamiltonian_cycle() {
                    let c = choose|c: Seq<usize>| #[trigger] self.is_hamiltonian_cycle(c);
                    lemma_search_is_complete(*self, c);
                }
            }
            None
        }
    }
}

/// The search has one result: there is only one first closing continuation.
pub proof fn lemma_first_closing_is_unique(
    mat: Hankel,
    p0: Seq<usize>,
    pos: int,
    a: Seq<usize>,
    b: Seq<usize>,
)
    requires
        mat.first_closing(p0, pos, a),
        mat.first_closing(p0, pos, b),
    ensures
        a == b,
{
    assert(tried_before(a, b));
    assert(tried_before(b, a));
    if !(a =~= b) {
        let k = choose|k: int|
            0 <= k < a.len() && k < b.len() && #[trigger] a[k] > b[k] && forall|j: int|
                0 <= j < k ==> a[j] == b[j];
        let l = choose|l: int|
            0 <= l < b.len() && l < a.len() && #[trigger] b[l] > a[l] && forall|j: int|
                0 <= j < l ==> b[j] == a[j];
        if k < l {
            assert(b[k] == a[k]);
        } else if l < k {
            assert(a[l] == b[l]);
        }
    }
}

/// Whether a sequence continues a path depends on the first `pos` members of that
/// path only.
pub proof fn lemma_same_start(mat: Hankel, p0: Seq<usize>, p1: Seq<usize>, pos: int, q: Seq<usize>)
    requires
        forall|j: int| 0 <= j < pos ==> p0[j] == p1[j],
        mat.continues(p0, pos, q),
    ensures
        mat.continues(p1, pos, q),
{
    assert forall|j: int| 0 <= j < pos implies #[trigger] q[j] == p1[j] by {
        assert(q[j] == p0[j]);
    }
}

/// What the search makes of vertices of the graph are vertices of the graph.
pub proof fn lemma_closing_has_vertices(mat: Hankel, p0: Seq<usize>, pos: int, q: Seq<usize>)
    requires
        1 <= pos <= p0.len(),
        mat.has_vertices(p0.take(pos)),
        mat.continues(p0, pos, q),
    ensures
        mat.has_vertices(q),
{
    let start = p0.take(pos);
    assert forall|i: int| 0 <= i < q.len() implies mat.has_vertex(#[trigger] q[i] as int) by {
        if i < pos {
            assert(q[i] == p0[i]);
            assert(mat.has_vertex(start[i] as int));
        } else {
            assert(mat.fits(q, i, q[i] as int));
        }
    }
}

/// What the search makes of a valid path is a valid cycle.
pub proof fn lemma_closing_is_cycle(mat: Hankel, p0: Seq<usize>, pos: int, q: Seq<usize>)
    requires
        1 <= pos <= p0.len(),
        mat.is_path(p0.take(pos)),
        mat.closes(p0, pos, q),
    ensures
        mat.is_cycle(q),
{
    let start = p0.take(pos);
    assert forall|i: int| 0 <= i < q.len() - 1 implies #[trigger] mat.joined(q, i) by {
        if i + 1 < pos {
            assert(q[i] == p0[i]);
            assert(q[i + 1] == p0[i + 1]);
            assert(mat.joined(start, i));
        } else {
            assert(mat.fits(q, i + 1, q[i + 1] as int));
        }
    }
}

/// What the search makes of an orderly path is a Hamiltonian cycle.
pub proof fn lemma_closing_is_hamiltonian(mat: Hankel, p0: Seq<usize>, pos: int, q: Seq<usize>)
    requires
        1 <= pos <= p0.len(),
        mat.closes(p0, pos, q),
    ensures
        mat.has_vertices(p0.take(pos)) ==> mat.has_vertices(q),
        mat.is_path(p0.take(pos)) ==> mat.is_cycle(q),
        mat.orderly(p0.take(pos)) ==> mat.is_hamiltonian_cycle(q) && mat.orderly(q),
{
    let start = p0.take(pos);
    if mat.has_vertices(start) {
        lemma_closing_has_vertices(mat, p0, pos, q);
    }
    if mat.is_path(start) {
        lemma_closing_is_cycle(mat, p0, pos, q);
    }
    if mat.orderly(start) {
        assert forall|k: int| 0 <= k < q.len() implies mat.in_place(k, #[trigger] q[k] as int) by {
            if k < pos {
                assert(q[k] == p0[k]);
                assert(mat.in_place(k, start[k] as int));
            } else {
                assert(mat.fits(q, k, q[k] as int));
            }
        }
        assert forall|i: int, j: int| 0 <= i < j < q.len() implies q[i] != q[j] by {
            assert(mat.in_place(i, q[i] as int));
            assert(mat.in_place(j, q[j] as int));
            if j < pos {
                assert(q[i] == p0[i]);
                assert(q[j] == p0[j]);
                assert(start[i] != start[j]);
            } else {
                assert(mat.fits(q, j, q[j] as int));
            }
        }
    }
}

} // verus!
