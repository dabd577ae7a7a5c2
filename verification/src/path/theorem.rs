//! Why the closed-form path visits every vertex once.
//!
//! Two steps of the path lead from the odd vertex with index `j` to the one with
//! index `j + m` modulo `h`, where `m` is half the difference of the two primes.
//! With `m` coprime to `h` the indices `1, 1 + m, 1 + 2m, ...` run through all of
//! `1..=h` before they come back to 1.

use crate::number::{coprime, divides, is_prime, lemma_coprime_cancel, lemma_divisor_at_most};
use crate::hankel::search::distinct;
use crate::hankel::Hankel;
use crate::path::{
    as_ints, even_index, even_vertex, odd_index, odd_vertex, wrapped, PathState,
};
use crate::quadruplet::is_quadruplet;
use vstd::arithmetic::div_mod::{
    lemma_add_mod_noop_right, lemma_fundamental_div_mod, lemma_fundamental_div_mod_converse,
    lemma_mod_equivalence, lemma_mod_multiples_vanish, lemma_small_mod,
};
use vstd::prelude::*;
use vstd::set_lib::{lemma_int_range, lemma_subset_equality, set_int_range};

verus! {

/// The state in which the path for the primes `p1` and `p2` and the half order
/// `h` starts.
pub open spec fn fresh(p1: int, p2: int, h: int) -> PathState {
    PathState { difference1: (p1 - 1) / 2, difference2: (p2 - 1) / 2, half_size: h, current: 0 }
}

/// The primes `p1` and `p2` serve for the graph of order `2 * h`: they lie in the
/// graph, the first of them possibly being 1, they are prime again when `2 * h`
/// is added, and half their difference is coprime to `h`.
pub open spec fn valid_triple(p1: int, p2: int, h: int) -> bool {
    &&& 1 <= h
    &&& 1 <= p1 < p2 <= 2 * h
    &&& is_prime(p1 + 2 * h)
    &&& is_prime(p2 + 2 * h)
    &&& coprime(((p2 - p1) / 2) as nat, h as nat)
}

/// The member of `1..=h` that is congruent to `a` modulo `h`.
pub open spec fn residue(h: int, a: int) -> int {
    (a - 1) % h + 1
}

/// The index of the odd vertex that the path holds after `t` double steps of
/// width `m`.
pub open spec fn round_index(h: int, m: int, t: int) -> int {
    residue(h, 1 + t * m)
}

/// The vertex that the path of `s` yields at index `i`, in closed form.
pub open spec fn vertex_at(s: PathState, i: int) -> int {
    let j = round_index(s.half_size, s.difference2 - s.difference1, i / 2);
    if i % 2 == 0 {
        odd_vertex(j)
    } else {
        even_vertex(s.half_size, residue(s.half_size, j - s.difference1))
    }
}

/// The first `n` vertices of the path of `s` in closed form.
pub open spec fn vertices(s: PathState, n: int) -> Seq<int> {
    Seq::new(n as nat, |i: int| vertex_at(s, i))
}

proof fn lemma_residue_range(h: int, a: int)
    requires
        h >= 1,
    ensures
        1 <= residue(h, a) <= h,
{
    assert(0 <= (a - 1) % h < h) by (nonlinear_arith)
        requires
            h >= 1,
    ;
}

proof fn lemma_residue_fixed(h: int, a: int)
    requires
        1 <= a <= h,
    ensures
        residue(h, a) == a,
{
    lemma_small_mod((a - 1) as nat, h as nat);
}

proof fn lemma_residue_wrapped(h: int, a: int)
    requires
        h >= 1,
    ensures
        wrapped(h, a % h) == residue(h, a),
{
    lemma_fundamental_div_mod(a, h);
    let q = a / h;
    let r = a % h;
    assert(0 <= r < h) by (nonlinear_arith)
        requires
            r == a % h,
            h >= 1,
    ;
    if r == 0 {
        assert(a - 1 == (q - 1) * h + (h - 1)) by (nonlinear_arith)
            requires
                a == h * q + r,
                r == 0,
        ;
        lemma_fundamental_div_mod_converse(a - 1, h, q - 1, h - 1);
    } else {
        assert(a - 1 == q * h + (r - 1)) by (nonlinear_arith)
            requires
                a == h * q + r,
        ;
        lemma_fundamental_div_mod_converse(a - 1, h, q, r - 1);
    }
}

proof fn lemma_residue_period(h: int, a: int)
    requires
        h >= 1,
    ensures
        residue(h, a + h) == residue(h, a),
{
    lemma_mod_multiples_vanish(1, a - 1, h);
    assert(h * 1 + (a - 1) == a + h - 1);
}

proof fn lemma_residue_sum(h: int, a: int, b: int)
    requires
        h >= 1,
    ensures
        residue(h, residue(h, a) + b) == residue(h, a + b),
{
    lemma_add_mod_noop_right(b, a - 1, h);
    assert(residue(h, a) + b - 1 == b + (a - 1) % h);
    assert(a + b - 1 == b + (a - 1));
}

proof fn lemma_residue_equal(h: int, a: int, b: int)
    requires
        h >= 1,
    ensures
        residue(h, a) == residue(h, b) <==> (a - b) % h == 0,
{
    lemma_mod_equivalence(a - 1, b - 1, h);
    assert((a - 1) - (b - 1) == a - b);
}

/// The index after `t + 1` double steps is the one after `t`, moved on by `m`.
proof fn lemma_round_step(h: int, m: int, t: int)
    requires
        h >= 1,
    ensures
        round_index(h, m, t + 1) == residue(h, round_index(h, m, t) + m),
        1 <= round_index(h, m, t) <= h,
{
    lemma_residue_sum(h, 1 + t * m, m);
    assert(1 + (t + 1) * m == 1 + t * m + m) by (nonlinear_arith);
    lemma_residue_range(h, 1 + t * m);
}

/// Two indices are equal exactly if `h` divides the number of double steps
/// between them, as long as `m` is coprime to `h`.
proof fn lemma_round_equal(h: int, m: int, s: int, t: int)
    requires
        h >= 1,
        m >= 0,
        coprime(m as nat, h as nat),
        round_index(h, m, s) == round_index(h, m, t),
    ensures
        divides(h, t - s),
{
    lemma_residue_equal(h, 1 + t * m, 1 + s * m);
    assert((1 + t * m) - (1 + s * m) == (t - s) * m) by (nonlinear_arith);
    lemma_coprime_cancel(m as nat, h as nat, t - s);
}

/// The state of the path of `s` that has yielded the vertices before index `i`.
pub open spec fn state_at(s: PathState, i: int) -> PathState {
    PathState { current: if i == 0 { 0 } else { vertex_at(s, i - 1) }, ..s }
}

/// Each vertex of the closed form is the successor of the one before it.
proof fn lemma_successor(s: PathState, i: int)
    requires
        s.half_size >= 1,
        0 <= s.difference1,
        0 <= i,
    ensures
        s.successor(vertex_at(s, i)) == vertex_at(s, i + 1),
        1 <= vertex_at(s, i) <= 2 * s.half_size,
        vertex_at(s, i) % 2 == (i + 1) % 2,
{
    let h = s.half_size;
    let m = s.difference2 - s.difference1;
    let t = i / 2;
    let j = round_index(h, m, t);
    lemma_round_step(h, m, t);
    let k = residue(h, j - s.difference1);
    lemma_residue_range(h, j - s.difference1);
    if i % 2 == 0 {
        assert((i + 1) / 2 == t);
        assert(odd_index(odd_vertex(j)) == j);
        lemma_residue_wrapped(h, j + h - s.difference1);
        lemma_residue_period(h, j - s.difference1);
    } else {
        assert((i + 1) / 2 == t + 1);
        assert(even_index(h, even_vertex(h, k)) == k);
        lemma_residue_wrapped(h, k + s.difference2);
        lemma_residue_sum(h, j - s.difference1, s.difference2);
        assert(j - s.difference1 + s.difference2 == j + m);
    }
}

/// The closed form comes back to vertex 1 at index `2 * h` and not before.
proof fn lemma_back_at_start(s: PathState, i: int)
    requires
        s.half_size >= 1,
        s.difference1 <= s.difference2,
        coprime((s.difference2 - s.difference1) as nat, s.half_size as nat),
        0 <= i <= 2 * s.half_size,
    ensures
        vertex_at(s, i) == 1 <==> i == 0 || i == 2 * s.half_size,
{
    let h = s.half_size;
    let m = s.difference2 - s.difference1;
    let t = i / 2;
    lemma_residue_fixed(h, 1);
    assert(round_index(h, m, 0) == 1) by {
        assert(1 + 0 * m == 1) by (nonlinear_arith);
    }
    lemma_residue_range(h, 1 + t * m);
    lemma_residue_range(h, round_index(h, m, t) - s.difference1);
    if i % 2 == 0 {
        if vertex_at(s, i) == 1 {
            lemma_round_equal(h, m, 0, t);
            if t > 0 {
                lemma_divisor_at_most(h, t);
            }
        }
        if i == 2 * h {
            assert(t == h);
            lemma_residue_equal(h, 1 + h * m, 1);
            assert((1 + h * m - 1) % h == 0) by {
                vstd::arithmetic::div_mod::lemma_mod_multiples_basic(m, h);
                assert(1 + h * m - 1 == m * h) by (nonlinear_arith);
            }
        }
    }
}

/// No vertex occurs twice among the first `2 * h` of the closed form.
proof fn lemma_vertices_differ(s: PathState, a: int, b: int)
    requires
        s.half_size >= 1,
        0 <= s.difference1 <= s.difference2,
        coprime((s.difference2 - s.difference1) as nat, s.half_size as nat),
        0 <= a < b < 2 * s.half_size,
    ensures
        vertex_at(s, a) != vertex_at(s, b),
{
    let h = s.half_size;
    let m = s.difference2 - s.difference1;
    lemma_successor(s, a);
    lemma_successor(s, b);
    if vertex_at(s, a) == vertex_at(s, b) {
        let ja = round_index(h, m, a / 2);
        let jb = round_index(h, m, b / 2);
        assert(a % 2 == b % 2);
        assert(a / 2 < b / 2 < h);
        lemma_residue_range(h, 1 + (a / 2) * m);
        lemma_residue_range(h, 1 + (b / 2) * m);
        if a % 2 == 1 {
            lemma_residue_equal(h, ja - s.difference1, jb - s.difference1);
            assert((ja - s.difference1) - (jb - s.difference1) == ja - jb);
            lemma_residue_equal(h, ja, jb);
            lemma_residue_fixed(h, ja);
            lemma_residue_fixed(h, jb);
        }
        assert(ja == jb);
        lemma_round_equal(h, m, a / 2, b / 2);
        lemma_divisor_at_most(h, b / 2 - a / 2);
    }
}

/// From the state that has yielded `i` vertices the path goes on as the closed
/// form does, and it ends after `2 * h` vertices.
proof fn lemma_yields_from(s: PathState, i: int, n: nat)
    requires
        s.half_size >= 1,
        0 <= s.difference1 <= s.difference2,
        coprime((s.difference2 - s.difference1) as nat, s.half_size as nat),
        s.current == 0,
        0 <= i <= 2 * s.half_size,
    ensures
        state_at(s, i).yields(n) == vertices(s, 2 * s.half_size).subrange(
            i,
            if i + n <= 2 * s.half_size {
                i + n
            } else {
                2 * s.half_size
            },
        ),
    decreases n,
{
    let h = s.half_size;
    let st = state_at(s, i);
    let all = vertices(s, 2 * h);
    let to = if i + n <= 2 * h {
        i + n
    } else {
        2 * h
    };
    if n == 0 {
        assert(st.yields(n) =~= all.subrange(i, to));
    } else {
        lemma_back_at_start(s, i);
        if i > 0 {
            lemma_successor(s, i - 1);
            assert(st.successor(st.current) == s.successor(vertex_at(s, i - 1)));
        } else {
            lemma_back_at_start(s, 0);
        }
        if i == 2 * h {
            assert(st.upcoming() is None);
            assert(st.yields(n) =~= all.subrange(i, to));
        } else {
            assert(st.upcoming() == Some(vertex_at(s, i)));
            assert(st.advanced() == state_at(s, i + 1));
            lemma_yields_from(s, i + 1, (n - 1) as nat);
            assert(st.yields(n) =~= all.subrange(i, to));
        }
    }
}

/// The closed-form path of a valid triple is a Hamiltonian path: it yields
/// exactly `2 * h` vertices and then ends, and it visits every vertex of the
/// graph exactly once.
pub proof fn lemma_path_is_hamiltonian(p1: int, p2: int, h: int, n: nat)
    requires
        valid_triple(p1, p2, h),
        n >= 2 * h,
    ensures
        fresh(p1, p2, h).yields(n) == fresh(p1, p2, h).yields((2 * h) as nat),
        fresh(p1, p2, h).yields(n).len() == 2 * h,
        fresh(p1, p2, h).yields(n).no_duplicates(),
        forall|v: int| 1 <= v <= 2 * h <==> fresh(p1, p2, h).yields(n).contains(v),
        fresh(p1, p2, h).yields(n)[0] == 1,
{
    let s = fresh(p1, p2, h);
    let all = vertices(s, 2 * h);
    lemma_triple_differences(p1, p2, h);
    lemma_yields_from(s, 0, n);
    lemma_yields_from(s, 0, (2 * h) as nat);
    assert(state_at(s, 0) == s);
    assert(all.subrange(0, 2 * h) =~= all);
    lemma_back_at_start(s, 0);
    assert forall|a: int, b: int| 0 <= a < all.len() && 0 <= b < all.len() && a != b implies all[a]
        != all[b] by {
        if a < b {
            lemma_vertices_differ(s, a, b);
        } else {
            lemma_vertices_differ(s, b, a);
        }
    }
    all.unique_seq_to_set();
    vstd::seq_lib::seq_to_set_is_finite(all);
    lemma_int_range(1, 2 * h + 1);
    assert forall|v: int| all.to_set().contains(v) implies set_int_range(1, 2 * h + 1).contains(
        v,
    ) by {
        let i = choose|i: int| 0 <= i < all.len() && all[i] == v;
        lemma_successor(s, i);
    }
    lemma_subset_equality(all.to_set(), set_int_range(1, 2 * h + 1));
    assert forall|v: int| 1 <= v <= 2 * h <==> all.contains(v) by {
        assert(set_int_range(1, 2 * h + 1).contains(v) <==> all.to_set().contains(v));
    }
}

/// The sum of a vertex of the closed form and the next one is the first prime at
/// the even indices and the second prime at the odd ones, with or without `2 * h`
/// added.
proof fn lemma_sum_of_neighbours(s: PathState, i: int)
    requires
        s.half_size >= 1,
        0 <= s.difference1 < s.half_size,
        0 <= s.difference2 < s.half_size,
        0 <= i,
    ensures
        ({
            let sum = vertex_at(s, i) + vertex_at(s, i + 1);
            let p = if i % 2 == 0 {
                2 * s.difference1 + 1
            } else {
                2 * s.difference2 + 1
            };
            sum == p + 2 * s.half_size || (sum == p && p > 1)
        }),
{
    let h = s.half_size;
    let m = s.difference2 - s.difference1;
    let t = i / 2;
    let j = round_index(h, m, t);
    lemma_round_step(h, m, t);
    let a = j - s.difference1;
    let k = residue(h, a);
    if a >= 1 {
        lemma_residue_fixed(h, a);
    } else {
        lemma_residue_period(h, a);
        lemma_residue_fixed(h, a + h);
    }
    if i % 2 == 0 {
        assert((i + 1) / 2 == t);
    } else {
        assert((i + 1) / 2 == t + 1);
        let b = k + s.difference2;
        lemma_residue_sum(h, a, s.difference2);
        assert(a + s.difference2 == j + m);
        assert(round_index(h, m, t + 1) == residue(h, b));
        if b <= h {
            lemma_residue_fixed(h, b);
        } else {
            lemma_residue_period(h, b - h);
            lemma_residue_fixed(h, b - h);
        }
    }
}

/// The closed-form path of two primes is a path of the prime-sum graph: the sum of
/// each vertex and the next one is a prime.
pub proof fn lemma_path_sums_are_prime(p1: int, p2: int, h: int, i: int)
    requires
        valid_triple(p1, p2, h),
        p1 == 1 || is_prime(p1),
        is_prime(p2),
        0 <= i < 2 * h - 1,
    ensures
        is_prime(fresh(p1, p2, h).yields((2 * h) as nat)[i] + fresh(p1, p2, h).yields(
            (2 * h) as nat,
        )[i + 1]),
{
    let s = fresh(p1, p2, h);
    lemma_triple_differences(p1, p2, h);
    lemma_yields_from(s, 0, (2 * h) as nat);
    assert(state_at(s, 0) == s);
    assert(vertices(s, 2 * h).subrange(0, 2 * h) =~= vertices(s, 2 * h));
    lemma_sum_of_neighbours(s, i);
}

/// The closed-form path of a pair of primes is a Hamiltonian path of the
/// prime-sum graph: what is collected of it holds every vertex of the graph once,
/// and each vertex is joined to the next.
pub proof fn lemma_path_in_graph(mat: Hankel, p1: int, p2: int, h: int, v: Seq<usize>)
    requires
        mat.wf(),
        mat.order() == 2 * h,
        mat.is_prime_sum_graph(),
        is_quadruplet(h, p1, p2),
        as_ints(v) == fresh(p1, p2, h).yields((2 * h) as nat),
    ensures
        v.len() == 2 * h,
        v[0] == 1,
        mat.has_vertices(v),
        distinct(v),
        mat.is_path(v),
{
    let all = fresh(p1, p2, h).yields((2 * h) as nat);
    lemma_path_is_hamiltonian(p1, p2, h, (2 * h) as nat);
    assert(as_ints(v).len() == v.len());
    assert forall|i: int| 0 <= i < v.len() implies v[i] == #[trigger] all[i] by {
        assert(as_ints(v)[i] == v[i] as int);
    }
    assert forall|i: int| 0 <= i < v.len() implies mat.has_vertex(#[trigger] v[i] as int) by {
        assert(all.contains(all[i]));
    }
    assert forall|i: int, j: int| 0 <= i < j < v.len() implies v[i] != v[j] by {
        assert(all[i] != all[j]);
    }
    assert forall|i: int| 0 <= i < v.len() - 1 implies #[trigger] mat.joined(v, i) by {
        lemma_path_sums_are_prime(p1, p2, h, i);
        let sum = all[i] + all[i + 1];
        assert(mat.has_vertex(v[i] as int));
        assert(mat.has_vertex(v[i + 1] as int));
        if sum % 2 == 0 {
            assert(divides(2, sum));
        }
        assert(mat@[sum - 2] == 1);
    }
}

/// The two primes of a valid triple are odd, so that half their difference is the
/// difference of their halves.
proof fn lemma_triple_differences(p1: int, p2: int, h: int)
    requires
        valid_triple(p1, p2, h),
    ensures
        0 <= (p1 - 1) / 2 <= (p2 - 1) / 2 < h,
        (p2 - 1) / 2 - (p1 - 1) / 2 == (p2 - p1) / 2,
        2 * ((p1 - 1) / 2) + 1 == p1,
        2 * ((p2 - 1) / 2) + 1 == p2,
{
    lemma_odd_below_prime(p1, h);
    lemma_odd_below_prime(p2, h);
}

/// A positive number that is prime when `2 * h` is added to it is odd.
proof fn lemma_odd_below_prime(p: int, h: int)
    requires
        1 <= h,
        1 <= p,
        is_prime(p + 2 * h),
    ensures
        p % 2 == 1,
{
    if p % 2 == 0 {
        assert(divides(2, p + 2 * h));
    }
}

} // verus!
