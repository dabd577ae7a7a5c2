//! Why the search misses no Hamiltonian cycle of a graph whose edges have odd sums.
//!
//! Such a graph is bipartite: every edge joins an odd vertex and an even one. A
//! Hamiltonian cycle, read from vertex 1 on, therefore holds odd vertices at the
//! even positions and even vertices at the odd ones, which is where the search
//! tries them.

use crate::hankel::Hankel;
use vstd::prelude::*;
use vstd::set_lib::{lemma_int_range, lemma_subset_equality, set_int_range};

verus! {

impl Hankel {
    /// Every edge of the graph joins two vertices with an odd sum.
    pub open spec fn joins_odd_sums(&self) -> bool {
        forall|k: int| 0 <= k < self@.len() && #[trigger] self@[k] != 0 ==> k % 2 == 1
    }

    /// The graph has a Hamiltonian cycle.
    pub open spec fn has_hamiltonian_cycle(&self) -> bool {
        exists|c: Seq<usize>| #[trigger] self.is_hamiltonian_cycle(c)
    }
}

/// The cycle `c`, read from index `r` on.
pub open spec fn turned(c: Seq<usize>, r: int) -> Seq<usize> {
    Seq::new(
        c.len(),
        |k: int|
            if r + k < c.len() {
                c[r + k]
            } else {
                c[r + k - c.len()]
            },
    )
}

/// A graph that was built from the odd sums in a sequence joins odd sums only.
pub proof fn lemma_odd_sum_graph_is_bipartite(mat: Hankel, w: Seq<usize>)
    requires
        mat.is_odd_sum_graph(w),
    ensures
        mat.joins_odd_sums(),
{
}

/// Two vertices that are joined have different parities.
proof fn lemma_edge_changes_parity(mat: Hankel, a: int, b: int)
    requires
        mat.wf(),
        mat.joins_odd_sums(),
        mat.has_vertex(a),
        mat.has_vertex(b),
        mat.adjacent(a, b),
    ensures
        (a + b) % 2 == 1,
{
    assert(mat@[a + b - 2] != 0);
}

/// Every vertex of the graph lies on a Hamiltonian cycle; its index is returned.
proof fn lemma_vertex_on_cycle(mat: Hankel, c: Seq<usize>, v: int) -> (r: int)
    requires
        mat.wf(),
        mat.is_hamiltonian_cycle(c),
        mat.has_vertex(v),
    ensures
        0 <= r < c.len(),
        c[r] == v,
{
    let n = mat.order() as int;
    let ints = c.map_values(|x: usize| x as int);
    assert forall|i: int, j: int| 0 <= i < ints.len() && 0 <= j < ints.len() && i != j implies ints[i]
        != ints[j] by {
        if i < j {
            assert(c[i] != c[j]);
        } else {
            assert(c[j] != c[i]);
        }
    }
    ints.unique_seq_to_set();
    vstd::seq_lib::seq_to_set_is_finite(ints);
    lemma_int_range(1, n + 1);
    assert forall|x: int| ints.to_set().contains(x) implies set_int_range(1, n + 1).contains(x) by {
        let i = choose|i: int| 0 <= i < ints.len() && ints[i] == x;
        assert(mat.has_vertex(c[i] as int));
    }
    lemma_subset_equality(ints.to_set(), set_int_range(1, n + 1));
    assert(set_int_range(1, n + 1).contains(v));
    assert(ints.to_set().contains(v));
    assert(ints.contains(v));
    choose|i: int| 0 <= i < ints.len() && ints[i] == v
}

/// A Hamiltonian cycle that is read from another of its vertices on is a
/// Hamiltonian cycle.
proof fn lemma_turned_cycle(mat: Hankel, c: Seq<usize>, r: int)
    requires
        mat.wf(),
        mat.is_hamiltonian_cycle(c),
        0 <= r < c.len(),
    ensures
        mat.is_hamiltonian_cycle(turned(c, r)),
        turned(c, r)[0] == c[r],
{
    let n = c.len() as int;
    let q = turned(c, r);
    let at = |k: int|
        if r + k < n {
            r + k
        } else {
            r + k - n
        };
    assert forall|k: int| 0 <= k < n implies q[k] == c[at(k)] by {}
    assert forall|i: int| 0 <= i < q.len() implies mat.has_vertex(#[trigger] q[i] as int) by {
        assert(mat.has_vertex(c[at(i)] as int));
    }
    assert forall|i: int, j: int| 0 <= i < j < q.len() implies q[i] != q[j] by {
        if at(i) < at(j) {
            assert(c[at(i)] != c[at(j)]);
        } else {
            assert(c[at(j)] != c[at(i)]);
        }
    }
    assert forall|i: int| 0 <= i < q.len() - 1 implies #[trigger] mat.joined(q, i) by {
        if at(i) + 1 < n {
            assert(mat.joined(c, at(i)));
            assert(at(i + 1) == at(i) + 1);
        } else {
            assert(at(i + 1) == 0);
            assert(mat.adjacent(c[0] as int, c[n - 1] as int));
        }
    }
    if r == 0 {
        assert(q[n - 1] == c[n - 1]);
    } else {
        assert(at(n - 1) == r - 1);
        assert(mat.joined(c, r - 1));
    }
}

/// Along a path of a graph that joins odd sums only the parities take turns.
proof fn lemma_parities_take_turns(mat: Hankel, q: Seq<usize>, k: int)
    requires
        mat.wf(),
        mat.joins_odd_sums(),
        mat.has_vertices(q),
        mat.is_path(q),
        0 <= k < q.len(),
    ensures
        (q[k] - q[0] - k) % 2 == 0,
    decreases k,
{
    if k > 0 {
        lemma_parities_take_turns(mat, q, k - 1);
        assert(mat.joined(q, k - 1));
        assert(mat.has_vertex(q[k - 1] as int));
        assert(mat.has_vertex(q[k] as int));
        lemma_edge_changes_parity(mat, q[k - 1] as int, q[k] as int);
    }
}

/// A graph that joins odd sums only and has a Hamiltonian cycle has an even
/// number of vertices.
pub proof fn lemma_cycle_is_even(mat: Hankel, c: Seq<usize>)
    requires
        mat.wf(),
        mat.joins_odd_sums(),
        mat.is_hamiltonian_cycle(c),
    ensures
        mat.order() % 2 == 0,
{
    let n = c.len() as int;
    lemma_parities_take_turns(mat, c, n - 1);
    assert(mat.has_vertex(c[0] as int));
    assert(mat.has_vertex(c[n - 1] as int));
    lemma_edge_changes_parity(mat, c[0] as int, c[n - 1] as int);
}

/// In a graph that joins odd sums only the search misses no Hamiltonian cycle that
/// begins with vertex 1: such a cycle closes its own start, however long.
pub proof fn lemma_cycle_closes_its_start(mat: Hankel, c: Seq<usize>, pos: int)
    requires
        mat.wf(),
        mat.joins_odd_sums(),
        mat.is_hamiltonian_cycle(c),
        c[0] == 1,
        1 <= pos <= c.len(),
    ensures
        mat.closes(c, pos, c),
{
    lemma_cycle_is_even(mat, c);
    assert forall|k: int| pos <= k < c.len() implies #[trigger] mat.fits(c, k, c[k] as int) by {
        lemma_parities_take_turns(mat, c, k);
        assert(mat.has_vertex(c[k] as int));
        assert(c[0] != c[k]);
        assert(mat.joined(c, k - 1));
        assert forall|j: int| 0 <= j < k && (k - j) % 2 == 0 implies #[trigger] c[j] != c[k] by {
            assert(c[j] != c[k]);
        }
    }
}

/// In a graph that joins odd sums only the search from vertex 1 misses no
/// Hamiltonian cycle: if the graph has one, it has one that the search can find.
pub proof fn lemma_search_is_complete(mat: Hankel, c: Seq<usize>)
    requires
        mat.wf(),
        mat.joins_odd_sums(),
        mat.is_hamiltonian_cycle(c),
    ensures
        mat.closable(seq![1usize], 1),
{
    let r = lemma_vertex_on_cycle(mat, c, 1);
    let q = turned(c, r);
    lemma_turned_cycle(mat, c, r);
    lemma_cycle_closes_its_start(mat, q, 1);
    assert(mat.continues(seq![1usize], 1, q));
    assert(mat.closes(seq![1usize], 1, q));
}

} // verus!
