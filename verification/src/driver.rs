//! The search over a range of graph orders.
//!
//! One worker tests the orders `first`, `first + increment`, `first + 2 *
//! increment` and so on up to a maximum. The backtracking search keeps the cycle of
//! one order and makes the cycle of the next out of it: only the last vertices are
//! searched again.

use crate::driver::rounds::{
    graph_of, lemma_cleared_is_given_up, lemma_graph_is_named, lemma_same_searched, lengthened,
    regrown, rounds_from, search_outcome,
};
use crate::hankel::bipartite::{lemma_odd_sum_graph_is_bipartite, lemma_search_is_complete};
use crate::hankel::search::{lemma_closing_has_vertices, lemma_same_start};
use crate::hankel::Hankel;
use crate::quadruplet::{find_prime_quadruplet, is_pair};
use crate::sequence::{increasing, positive};
use vstd::prelude::*;

pub mod rounds;

verus! {

/// Why a search cannot be run as it was configured.
#[derive(Debug, Clone, Copy, PartialEq, Eq, Structural)]
pub enum Misconfiguration {
    /// The starting order is less than twice the number of workers.
    TooManyThreads,
    /// The starting order is odd.
    OddStart,
    /// The first order is 0: there is no graph without vertices.
    EmptyGraph,
    /// The orders do not grow: the increment is 0.
    ZeroIncrement,
    /// The order is too small for what is asked of it: nothing of the cycle
    /// before would be kept, or half the order is less than 2.
    OrderTooSmall { size: usize },
    /// The index at which the search is to start again is 0, or it lies behind the
    /// index at which it started first.
    RetryNotEarlier { size: usize },
}

/// Why a search over a range of orders ended early.
#[derive(Debug, Clone, Copy, PartialEq, Eq, Structural)]
pub enum SearchError {
    /// The backtracking search found no cycle in the graph of order `size`.
    ExhaustedSearch { size: usize },
    /// What the search made for the graph of order `size` is no cycle of it.
    InvalidCycleDetected { size: usize },
    /// No pair of primes serves for the graph of order `size`.
    NoPrimePairFound { size: usize },
    /// The search cannot be run as it was configured.
    ConfigurationError { reason: Misconfiguration },
}

/// The number of vertices at the end of a cycle that are searched again when the
/// order grows by `increment`.
pub open spec fn retraced(increment: int) -> int {
    if increment > 6 {
        increment
    } else {
        6
    }
}

/// The index at which the search in the graph of order `n` starts again when it
/// has failed.
pub open spec fn retry_index(n: int, divisor: int) -> int {
    if divisor == 0 {
        1
    } else {
        n / divisor
    }
}

/// The order that is tested in round `t`.
pub open spec fn tested_order(first: int, increment: int, t: int) -> int {
    first + t * increment
}

/// The order `n` is tested in some round.
pub open spec fn is_tested(first: int, increment: int, n: int) -> bool {
    exists|t: int| 0 <= t && n == #[trigger] tested_order(first, increment, t)
}

/// `mat` is the matrix of the graph of order `n` in which two vertices are joined
/// exactly if their sum is odd and occurs in `w`.
pub open spec fn is_graph_of(mat: Hankel, w: Seq<usize>, n: int) -> bool {
    mat.wf() && mat.order() == n && mat.is_odd_sum_graph(w)
}

/// `c` is a cycle from vertex 1 through `n` vertices of the graph `mat` of `w`.
pub open spec fn is_cycle_of(mat: Hankel, w: Seq<usize>, n: int, c: Seq<usize>) -> bool {
    &&& is_graph_of(mat, w, n)
    &&& c.len() == n
    &&& c[0] == 1
    &&& mat.has_vertices(c)
    &&& mat.is_cycle(c)
}

/// The graph of order `n` of `w` has a cycle from vertex 1 through `n` vertices.
pub open spec fn has_cycle(w: Seq<usize>, n: int) -> bool {
    exists|mat: Hankel, c: Seq<usize>| #[trigger] is_cycle_of(mat, w, n, c)
}

/// The graph of order `n` of `w` has a Hamiltonian cycle.
pub open spec fn has_hamiltonian_cycle(w: Seq<usize>, n: int) -> bool {
    exists|mat: Hankel, c: Seq<usize>|
        is_graph_of(mat, w, n) && #[trigger] mat.is_hamiltonian_cycle(c)
}

/// The search from vertex 1 finds a cycle in the graph of order `n` of `w`.
pub open spec fn is_searchable(w: Seq<usize>, n: int) -> bool {
    exists|mat: Hankel| is_graph_of(mat, w, n) && #[trigger] mat.closable(seq![1usize], 1)
}

/// The graphs of `w` of all the tested orders below `bound` have a cycle from
/// vertex 1 through all their vertices, and a Hamiltonian cycle where the orders
/// are tested in even steps.
pub open spec fn cycles_below(w: Seq<usize>, first: int, increment: int, bound: int) -> bool {
    forall|t: int|
        0 <= t && #[trigger] tested_order(first, increment, t) < bound ==> {
            &&& has_cycle(w, tested_order(first, increment, t))
            &&& increment % 2 == 0 ==> has_hamiltonian_cycle(w, tested_order(first, increment, t))
        }
}

/// `w` tells of a pair for the half order `h`.
pub open spec fn has_pair(w: Seq<usize>, h: int) -> bool {
    exists|p1: int, p2: int| #[trigger] is_pair(w, h, p1, p2)
}

/// Two graphs of the same sequence have the same edges, as far as both reach.
pub proof fn lemma_same_edges(m1: Hankel, m2: Hankel, w: Seq<usize>, a: int, b: int)
    requires
        m1.wf(),
        m2.wf(),
        m1.is_odd_sum_graph(w),
        m2.is_odd_sum_graph(w),
        2 <= a + b <= 2 * m1.order(),
        2 <= a + b <= 2 * m2.order(),
    ensures
        m1.adjacent(a, b) == m2.adjacent(a, b),
{
    let k = a + b - 2;
    assert(m1@[k] == m1.entry(a, b));
    assert(m2@[k] == m2.entry(a, b));
}

/// Two graphs of the same sequence and the same order have the same matrix.
pub proof fn lemma_same_graph(m1: Hankel, m2: Hankel, w: Seq<usize>, n: int)
    requires
        is_graph_of(m1, w, n),
        is_graph_of(m2, w, n),
    ensures
        m1@ == m2@,
{
    assert forall|k: int| 0 <= k < m1@.len() implies m1@[k] == m2@[k] by {
        assert(m1@[k] == if k % 2 == 1 && w.contains((k + 2) as usize) {
            1u8
        } else {
            0u8
        });
    }
    assert(m1@ =~= m2@);
}

/// A path of a graph is a path of every larger graph of the same sequence.
pub proof fn lemma_path_carries_over(m1: Hankel, m2: Hankel, w: Seq<usize>, p: Seq<usize>)
    requires
        m1.wf(),
        m2.wf(),
        m1.is_odd_sum_graph(w),
        m2.is_odd_sum_graph(w),
        m1.order() <= m2.order(),
        m1.has_vertices(p),
        m1.is_path(p),
    ensures
        m2.has_vertices(p),
        m2.is_path(p),
{
    assert forall|i: int| 0 <= i < p.len() implies m2.has_vertex(#[trigger] p[i] as int) by {
        assert(m1.has_vertex(p[i] as int));
    }
    assert forall|i: int| 0 <= i < p.len() - 1 implies #[trigger] m2.joined(p, i) by {
        assert(m1.joined(p, i));
        assert(m1.has_vertex(p[i] as int));
        assert(m1.has_vertex(p[i + 1] as int));
        lemma_same_edges(m1, m2, w, p[i] as int, p[i + 1] as int);
    }
}

/// An orderly path of a graph is an orderly path of every graph of the same
/// sequence that is larger by an even number of vertices.
pub proof fn lemma_orderly_carries_over(m1: Hankel, m2: Hankel, w: Seq<usize>, p: Seq<usize>)
    requires
        m1.wf(),
        m2.wf(),
        m1.is_odd_sum_graph(w),
        m2.is_odd_sum_graph(w),
        m1.order() <= m2.order(),
        (m2.order() - m1.order()) % 2 == 0,
        m1.orderly(p),
    ensures
        m2.orderly(p),
{
    assert forall|k: int| 0 <= k < p.len() implies m2.in_place(k, #[trigger] p[k] as int) by {
        assert(m1.in_place(k, p[k] as int));
    }
    assert(m1.has_vertices(p)) by {
        assert forall|i: int| 0 <= i < p.len() implies m1.has_vertex(#[trigger] p[i] as int) by {
            assert(m1.in_place(i, p[i] as int));
        }
    }
    lemma_path_carries_over(m1, m2, w, p);
}

/// The start of a path is a path, and the start of an orderly path is orderly.
pub proof fn lemma_start_of_path(mat: Hankel, p: Seq<usize>, k: int)
    requires
        0 <= k <= p.len(),
    ensures
        mat.has_vertices(p) ==> mat.has_vertices(p.take(k)),
        mat.is_path(p) ==> mat.is_path(p.take(k)),
        mat.orderly(p) ==> mat.orderly(p.take(k)),
{
    let s = p.take(k);
    if mat.has_vertices(p) {
        assert forall|i: int| 0 <= i < s.len() implies mat.has_vertex(#[trigger] s[i] as int) by {
            assert(mat.has_vertex(p[i] as int));
        }
    }
    if mat.is_path(p) {
        assert forall|i: int| 0 <= i < s.len() - 1 implies #[trigger] mat.joined(s, i) by {
            assert(mat.joined(p, i));
        }
    }
    if mat.orderly(p) {
        assert forall|i: int| 0 <= i < s.len() implies mat.in_place(i, #[trigger] s[i] as int) by {
            assert(mat.in_place(i, p[i] as int));
        }
        assert forall|i: int, j: int| 0 <= i < j < s.len() implies s[i] != s[j] by {
            assert(p[i] != p[j]);
        }
    }
}

/// What one round of the search rests on: the first `n` members of `path` are a
/// cycle from vertex 1 in the graph `mat` of order `n` of `w`, and an orderly one
/// where the orders are tested in even steps.
pub open spec fn is_grown(
    mat: Hankel,
    w: Seq<usize>,
    n: int,
    path: Seq<usize>,
    even_steps: bool,
) -> bool {
    &&& n <= path.len()
    &&& is_cycle_of(mat, w, n, path.take(n))
    &&& even_steps ==> mat.orderly(path.take(n)) && mat.is_hamiltonian_cycle(path.take(n))
}

/// The start of a grown cycle is one that the search in a larger graph can go on
/// from.
proof fn lemma_start_serves(
    prev: Hankel,
    mat: Hankel,
    w: Seq<usize>,
    n: int,
    path: Seq<usize>,
    even_steps: bool,
    cursor: int,
)
    requires
        is_grown(prev, w, n, path, even_steps),
        mat.wf(),
        mat.is_odd_sum_graph(w),
        n <= mat.order(),
        even_steps ==> (mat.order() - n) % 2 == 0,
        1 <= cursor <= n,
    ensures
        path[0] == 1,
        mat.has_vertex(path[0] as int),
        mat.has_vertex(path[cursor - 1] as int),
        mat.has_vertices(path.take(cursor)),
        mat.is_path(path.take(cursor)),
        even_steps ==> mat.orderly(path.take(cursor)),
{
    let c = path.take(n);
    assert(path.take(cursor) =~= c.take(cursor));
    lemma_path_carries_over(prev, mat, w, c);
    lemma_start_of_path(mat, c, cursor);
    if even_steps {
        lemma_orderly_carries_over(prev, mat, w, c);
    }
    assert(mat.has_vertex(c[0] as int));
    assert(mat.has_vertex(c[cursor - 1] as int));
}

/// What the search has closed behind a start that serves is a grown cycle.
proof fn lemma_closed_is_grown(
    mat: Hankel,
    w: Seq<usize>,
    p0: Seq<usize>,
    cursor: int,
    fin: Seq<usize>,
    even_steps: bool,
)
    requires
        is_graph_of(mat, w, fin.len() as int),
        p0.len() == fin.len(),
        1 <= cursor <= p0.len(),
        p0[0] == 1,
        mat.has_vertices(p0.take(cursor)),
        mat.is_path(p0.take(cursor)),
        even_steps ==> mat.orderly(p0.take(cursor)),
        mat.closes(p0, cursor, fin),
        mat.is_cycle(fin),
        mat.orderly(p0.take(cursor)) ==> mat.is_hamiltonian_cycle(fin) && mat.orderly(fin),
    ensures
        is_grown(mat, w, fin.len() as int, fin, even_steps),
        mat.has_vertices(fin),
        has_cycle(w, fin.len() as int),
        even_steps ==> has_hamiltonian_cycle(w, fin.len() as int),
{
    let n = fin.len() as int;
    assert(fin.take(n) =~= fin);
    lemma_closing_has_vertices(mat, p0, cursor, fin);
    assert(fin[0] == p0[0]);
    assert(is_cycle_of(mat, w, n, fin));
}

/// Searches for Hamiltonian cycles by backtracking.
///
/// Cycles are searched in the prime-sum graphs of the orders `start + offset`,
/// `start + offset + increment` and so on up to and including `maximum`. Cycles
/// of odd length are impossible, so that `start` and `increment` should be even; of
/// `m` workers each one takes `increment = 2 * m` and an offset of its own.
///
/// The cycle of one order is made out of the cycle of the order before it: its
/// last `max(6, increment)` vertices are searched again. Where that fails, the
/// search starts again from the index `n / divisor` of the path of `n` vertices,
/// or from index 1 if `divisor` is 0.
///
/// `primes` holds the primes, in increasing order, at least up to twice the
/// maximum.
#[verifier::rlimit(30)]
pub fn test_for_cycles(
    maximum: usize,
    start: usize,
    increment: usize,
    offset: usize,
    divisor: usize,
    primes: &[usize],
) -> (outcome: Result<(), SearchError>)
    requires
        increasing(primes@),
        2 * (start + offset) <= usize::MAX,
        2 * (maximum + increment) <= usize::MAX,
    ensures
        outcome == search_outcome(
            primes@,
            start + offset,
            maximum as int,
            increment as int,
            divisor as int,
        ),
        match outcome {
            Ok(()) => {
                &&& has_hamiltonian_cycle(primes@, start + offset)
                &&& start + offset > maximum || (increment > 0 && start + offset > retraced(
                    increment as int,
                ))
                &&& cycles_below(primes@, start + offset, increment as int, maximum + 1)
            },
            Err(SearchError::ExhaustedSearch { size }) => {
                &&& start + offset >= 1
                &&& is_tested(start + offset, increment as int, size as int)
                &&& cycles_below(primes@, start + offset, increment as int, size as int)
                &&& if size == start + offset {
                    !has_hamiltonian_cycle(primes@, size as int)
                } else {
                    &&& has_hamiltonian_cycle(primes@, start + offset)
                    &&& size <= maximum
                    &&& increment > 0
                    &&& start + offset > retraced(increment as int)
                    &&& 1 <= retry_index(size as int, divisor as int) <= size - retraced(
                        increment as int,
                    )
                    &&& divisor == 0 ==> !has_hamiltonian_cycle(primes@, size as int)
                }
            },
            Err(SearchError::ConfigurationError { reason }) => match reason {
                Misconfiguration::EmptyGraph => start + offset == 0,
                Misconfiguration::ZeroIncrement => {
                    &&& increment == 0
                    &&& 1 <= start + offset <= maximum
                    &&& has_hamiltonian_cycle(primes@, start + offset)
                },
                Misconfiguration::OrderTooSmall { size } => {
                    &&& size == start + offset
                    &&& increment > 0
                    &&& 1 <= size <= maximum
                    &&& size <= retraced(increment as int)
                    &&& has_hamiltonian_cycle(primes@, start + offset)
                },
                Misconfiguration::RetryNotEarlier { size } => {
                    &&& has_hamiltonian_cycle(primes@, start + offset)
                    &&& increment > 0
                    &&& start + offset > retraced(increment as int)
                    &&& size <= maximum
                    &&& is_tested(start + offset, increment as int, size as int)
                    &&& cycles_below(primes@, start + offset, increment as int, size as int)
                    &&& !(1 <= retry_index(size as int, divisor as int) <= size - retraced(
                        increment as int,
                    ))
                },
                _ => false,
            },
            Err(_) => false,
        },
{
    let first = start + offset;
    if first == 0 {
        return Err(SearchError::ConfigurationError { reason: Misconfiguration::EmptyGraph });
    }
    // when a new cycle is made, this many vertices at its end are searched again
    let decrement = if increment > 6 {
        increment
    } else {
        6
    };
    let ghost w = primes@;
    let ghost step = increment as int;
    let ghost even_steps = increment % 2 == 0;
    // the first Hamiltonian cycle
    let mat = Hankel::prime_sum_matrix(first, Some(primes));
    proof {
        lemma_round_zero(first as int, step);
        lemma_graph_is_named(mat, w, first as int);
    }
    let mut previous_path = match mat.is_hamiltonian() {
        Some(path) => {
            proof {
                lemma_same_searched(
                    mat,
                    graph_of(w, first as int),
                    seq![1usize],
                    1,
                    Some(path@),
                );
            }
            path
        },
        None => {
            proof {
                lemma_same_searched(mat, graph_of(w, first as int), seq![1usize], 1, None);
                lemma_rounds_before(first as int, step, 0, first as int);
                if is_searchable(w, first as int) {
                    let other = choose|other: Hankel|
                        is_graph_of(other, w, first as int) && #[trigger] other.closable(
                            seq![1usize],
                            1,
                        );
                    lemma_same_search(other, mat, w, first as int, seq![1usize], 1);
                }
                lemma_search_misses_none(w, first as int);
            }
            return Err(SearchError::ExhaustedSearch { size: first });
        },
    };
    let mut i = first;
    let ghost mut prev = mat;
    let ghost mut grown = first as int;
    let ghost mut rounds = 0int;
    proof {
        assert(previous_path@.take(first as int) =~= previous_path@);
        assert(previous_path@[0] == seq![1usize][0]);
        assert(is_cycle_of(mat, w, first as int, previous_path@));
        assert(is_graph_of(mat, w, first as int) && mat.is_hamiltonian_cycle(previous_path@));
    }
    while i <= maximum
        invariant
            increasing(primes@),
            w == primes@,
            step == increment,
            even_steps == (increment % 2 == 0),
            first == start + offset,
            first >= 1,
            2 * (maximum + increment) <= usize::MAX,
            decrement == retraced(step),
            0 <= rounds,
            i == tested_order(first as int, step, rounds),
            rounds > 0 ==> increment > 0 && first > decrement,
            previous_path@.len() == i,
            has_hamiltonian_cycle(w, first as int),
            is_grown(prev, w, grown, previous_path@, even_steps),
            grown == i || (rounds > 0 && grown + increment == i),
            rounds == 0 ==> prev.closes(seq![1usize], 1, previous_path@),
            rounds_from(w, previous_path@, i as int, maximum as int, step, divisor as int)
                == search_outcome(w, first as int, maximum as int, step, divisor as int),
            forall|t: int|
                0 <= t < rounds ==> has_cycle(w, #[trigger] tested_order(first as int, step, t)),
            forall|t: int|
                0 <= t < rounds && even_steps ==> has_hamiltonian_cycle(
                    w,
                    #[trigger] tested_order(first as int, step, t),
                ),
        decreases maximum + increment - i,
    {
        proof {
            lemma_rounds_before(first as int, step, rounds, i as int);
            lemma_round_order(first as int, step, rounds);
            lemma_round_zero(first as int, step);
        }
        if increment == 0 {
            return Err(SearchError::ConfigurationError { reason: Misconfiguration::ZeroIncrement });
        }
        if i <= decrement {
            return Err(
                SearchError::ConfigurationError {
                    reason: Misconfiguration::OrderTooSmall { size: i },
                },
            );
        }
        let mat = Hankel::prime_sum_matrix(i, Some(primes));
        // the cycle before is used again: only its last vertices are changed
        let cursor = i - decrement;
        let ghost p0 = previous_path@;
        let ghost graph = graph_of(w, i as int);
        proof {
            lemma_start_serves(prev, mat, w, grown, p0, even_steps, cursor as int);
            lemma_graph_is_named(mat, w, i as int);
        }
        if !mat.hamiltonian_cycle(previous_path.as_mut_slice(), cursor) {
            proof {
                lemma_same_searched(mat, graph, p0, cursor as int, None);
                lemma_cleared_is_given_up(mat, p0, cursor as int, previous_path@);
            }
            // that did not work: a new cycle is made from further back
            let cycles_start = if divisor == 0 {
                1
            } else {
                i / divisor
            };
            if cycles_start == 0 || cycles_start > cursor {
                return Err(
                    SearchError::ConfigurationError {
                        reason: Misconfiguration::RetryNotEarlier { size: i },
                    },
                );
            }
            let ghost p1 = previous_path@;
            proof {
                assert forall|k: int| 0 <= k < cursor implies p1[k] == p0[k] by {
                    if mat.reached(p0, cursor as int, k) {
                        let q = choose|q: Seq<usize>| #[trigger]
                            mat.continues(p0, cursor as int, q) && cursor <= k && q.len() == k + 1;
                    }
                }
                assert(p1.take(cycles_start as int) =~= p0.take(cursor as int).take(
                    cycles_start as int,
                ));
                lemma_start_of_path(mat, p0.take(cursor as int), cycles_start as int);
                assert(mat.has_vertex(p0.take(cursor as int)[cycles_start - 1] as int));
                assert(p1[0] == p0[0]);
                if rounds == 0 {
                    lemma_closes_again(prev, mat, w, i as int, p0, cursor as int);
                }
            }
            if !mat.hamiltonian_cycle(previous_path.as_mut_slice(), cycles_start) {
                proof {
                    lemma_same_searched(mat, graph, p1, cycles_start as int, None);
                    if divisor == 0 && is_searchable(w, i as int) {
                        let other = choose|other: Hankel|
                            is_graph_of(other, w, i as int) && #[trigger] other.closable(
                                seq![1usize],
                                1,
                            );
                        lemma_same_search(other, mat, w, i as int, seq![1usize], 1);
                        let q = choose|q: Seq<usize>| #[trigger] mat.closes(seq![1usize], 1, q);
                        lemma_same_start(mat, seq![1usize], p1, 1, q);
                        assert(mat.closes(p1, 1, q));
                    }
                    lemma_search_misses_none(w, i as int);
                }
                return Err(SearchError::ExhaustedSearch { size: i });
            }
            proof {
                assert(previous_path@.take(i as int) =~= previous_path@);
                lemma_closed_is_grown(mat, w, p1, cycles_start as int, previous_path@, even_steps);
                lemma_same_searched(
                    mat,
                    graph,
                    p1,
                    cycles_start as int,
                    Some(previous_path@),
                );
            }
        } else {
            proof {
                assert(previous_path@.take(i as int) =~= previous_path@);
                lemma_closed_is_grown(mat, w, p0, cursor as int, previous_path@, even_steps);
                lemma_same_searched(mat, graph, p0, cursor as int, Some(previous_path@));
            }
        }
        assert(regrown(graph, p0, step, divisor as int) == Ok::<Seq<usize>, SearchError>(
            previous_path@,
        ));
        // the cycle is checked once more
        if !mat.valid_cycle(previous_path.as_slice()) {
            return Err(SearchError::InvalidCycleDetected { size: i });
        }
        let ghost cycle = previous_path@;
        // a cycle of even length can always do without one vertex and be a path
        // of the length before it, so that only the even lengths are tested
        i += increment;
        previous_path.resize(previous_path.len() + increment, 0);
        proof {
            assert(previous_path@.take(cycle.len() as int) =~= cycle);
            assert(cycle.take(cycle.len() as int) =~= cycle);
            assert(previous_path@ =~= lengthened(cycle, step));
            prev = mat;
            grown = cycle.len() as int;
            lemma_next_round(first as int, step, rounds);
            rounds = rounds + 1;
        }
    }
    proof {
        lemma_rounds_before(first as int, step, rounds, i as int);
        lemma_round_zero(first as int, step);
    }
    Ok(())
}

/// A graph in which the search from vertex 1 finds no cycle has no Hamiltonian
/// cycle.
pub proof fn lemma_search_misses_none(w: Seq<usize>, n: int)
    ensures
        has_hamiltonian_cycle(w, n) ==> is_searchable(w, n),
{
    if has_hamiltonian_cycle(w, n) {
        let (mat, c) = choose|mat: Hankel, c: Seq<usize>|
            is_graph_of(mat, w, n) && #[trigger] mat.is_hamiltonian_cycle(c);
        lemma_odd_sum_graph_is_bipartite(mat, w);
        lemma_search_is_complete(mat, c);
    }
}

/// A cycle that the search found from vertex 1 closes each of its own starts.
proof fn lemma_closes_again(
    prev: Hankel,
    mat: Hankel,
    w: Seq<usize>,
    n: int,
    c: Seq<usize>,
    cursor: int,
)
    requires
        is_graph_of(prev, w, n),
        is_graph_of(mat, w, n),
        prev.closes(seq![1usize], 1, c),
        1 <= cursor <= n,
    ensures
        mat.closable(c, cursor),
{
    lemma_same_graph(prev, mat, w, n);
    assert forall|k: int| cursor <= k < c.len() implies #[trigger] mat.fits(c, k, c[k] as int) by {
        assert(prev.fits(c, k, c[k] as int));
    }
    assert(mat.closes(c, cursor, c));
}

/// Round 0 tests the first order.
proof fn lemma_round_zero(first: int, increment: int)
    ensures
        tested_order(first, increment, 0) == first,
        is_tested(first, increment, first),
{
    assert(0 * increment == 0) by (nonlinear_arith);
    assert(first == tested_order(first, increment, 0));
}

/// The next round tests the order that is larger by the increment.
proof fn lemma_next_round(first: int, increment: int, rounds: int)
    ensures
        tested_order(first, increment, rounds + 1) == tested_order(first, increment, rounds)
            + increment,
{
    assert((rounds + 1) * increment == rounds * increment + increment) by (nonlinear_arith);
}

/// A later round tests an order that is at least as large.
proof fn lemma_later_round(first: int, increment: int, s: int, t: int)
    requires
        0 <= increment,
        s <= t,
    ensures
        tested_order(first, increment, s) <= tested_order(first, increment, t),
{
    assert(s * increment <= t * increment) by (nonlinear_arith)
        requires
            0 <= increment,
            s <= t,
    ;
}

/// The rounds that test a smaller order than round `rounds` come before it.
proof fn lemma_rounds_before(first: int, increment: int, rounds: int, size: int)
    requires
        0 <= increment,
        0 <= rounds,
        size == tested_order(first, increment, rounds),
    ensures
        forall|t: int| 0 <= t && #[trigger] tested_order(first, increment, t) < size ==> t < rounds,
        is_tested(first, increment, size),
{
    assert forall|t: int| 0 <= t && #[trigger] tested_order(first, increment, t) < size implies t
        < rounds by {
        if t >= rounds {
            lemma_later_round(first, increment, rounds, t);
        }
    }
}

/// The order of a round is the first order or, where the orders grow, a later one.
proof fn lemma_round_order(first: int, increment: int, rounds: int)
    requires
        0 <= increment,
        0 <= rounds,
    ensures
        first <= tested_order(first, increment, rounds),
        rounds > 0 && increment > 0 ==> first < tested_order(first, increment, rounds),
{
    assert(0 <= rounds * increment) by (nonlinear_arith)
        requires
            0 <= increment,
            0 <= rounds,
    ;
    if rounds > 0 && increment > 0 {
        assert(0 < rounds * increment) by (nonlinear_arith)
            requires
                0 < increment,
                0 < rounds,
        ;
    }
}

/// Two graphs of the same sequence and the same order answer the search alike.
pub proof fn lemma_same_search(
    m1: Hankel,
    m2: Hankel,
    w: Seq<usize>,
    n: int,
    p0: Seq<usize>,
    pos: int,
)
    requires
        is_graph_of(m1, w, n),
        is_graph_of(m2, w, n),
        m1.closable(p0, pos),
    ensures
        m2.closable(p0, pos),
{
    lemma_same_graph(m1, m2, w, n);
    let q = choose|q: Seq<usize>| #[trigger] m1.closes(p0, pos, q);
    assert forall|k: int| pos <= k < q.len() implies #[trigger] m2.fits(q, k, q[k] as int) by {
        assert(m1.fits(q, k, q[k] as int));
    }
    assert(m2.closes(p0, pos, q));
}

/// Searches for the pairs of primes from which Hamiltonian paths are made.
///
/// A pair is searched for the graphs of the orders `start + offset`,
/// `start + offset + increment` and so on up to and including `maximum`, each in
/// the graph of half that order. The search ends at the first order without a
/// pair.
///
/// `primes` holds the primes, in increasing order, at least up to twice the
/// maximum.
pub fn test_for_cycles_naive(
    maximum: usize,
    start: usize,
    increment: usize,
    offset: usize,
    primes: &[usize],
) -> (outcome: Result<(), SearchError>)
    requires
        increasing(primes@),
        positive(primes@),
        start + offset <= usize::MAX,
        2 * (maximum + increment) < usize::MAX,
    ensures
        match outcome {
            Ok(()) => {
                &&& start + offset > maximum || (increment > 0 && start + offset >= 4)
                &&& forall|t: int|
                    0 <= t && #[trigger] tested_order(start + offset, increment as int, t)
                        <= maximum ==> has_pair(
                        primes@,
                        tested_order(start + offset, increment as int, t) / 2,
                    )
            },
            Err(SearchError::NoPrimePairFound { size }) => {
                &&& increment > 0
                &&& start + offset >= 4
                &&& size <= maximum
                &&& exists|t: int|
                    0 <= t && size == #[trigger] tested_order(start + offset, increment as int, t)
                &&& !has_pair(primes@, size as int / 2)
                &&& forall|t: int|
                    0 <= t && #[trigger] tested_order(start + offset, increment as int, t) < size
                        ==> has_pair(
                        primes@,
                        tested_order(start + offset, increment as int, t) / 2,
                    )
            },
            Err(SearchError::ConfigurationError { reason }) => match reason {
                Misconfiguration::ZeroIncrement => increment == 0 && 4 <= start + offset <= maximum,
                Misconfiguration::OrderTooSmall { size } => size == start + offset && size < 4
                    && size <= maximum,
                _ => false,
            },
            Err(_) => false,
        },
{
    let first = start + offset;
    let mut i = first;
    let ghost w = primes@;
    let ghost mut rounds = 0int;
    proof {
        assert(first == tested_order(first as int, increment as int, 0)) by (nonlinear_arith);
    }
    while i <= maximum
        invariant
            increasing(primes@),
            positive(primes@),
            w == primes@,
            first == start + offset,
            2 * (maximum + increment) < usize::MAX,
            0 <= rounds,
            i == tested_order(first as int, increment as int, rounds),
            first <= i,
            i == first || (increment > 0 && first >= 4),
            forall|t: int|
                0 <= t < rounds ==> has_pair(
                    w,
                    #[trigger] tested_order(first as int, increment as int, t) / 2,
                ),
        decreases maximum + increment - i,
    {
        if i < 4 {
            return Err(
                SearchError::ConfigurationError {
                    reason: Misconfiguration::OrderTooSmall { size: i },
                },
            );
        }
        if increment == 0 {
            return Err(SearchError::ConfigurationError { reason: Misconfiguration::ZeroIncrement });
        }
        let found = find_prime_quadruplet(i / 2, Some(primes));
        if found.is_none() {
            proof {
                lemma_rounds_before(first as int, increment as int, rounds, i as int);
            }
            return Err(SearchError::NoPrimePairFound { size: i });
        }
        proof {
            let pair = found->Some_0;
            assert(is_pair(w, i as int / 2, pair.0 as int, pair.1 as int));
            assert(tested_order(first as int, increment as int, rounds + 1) == tested_order(
                first as int,
                increment as int,
                rounds,
            ) + increment) by (nonlinear_arith);
            rounds = rounds + 1;
        }
        // a cycle of even length can always do without one vertex and be a path
        // of the length before it, so that only the even lengths are tested
        i += increment;
    }
    proof {
        assert forall|t: int|
            0 <= t && #[trigger] tested_order(first as int, increment as int, t)
                <= maximum implies t < rounds by {
            if t >= rounds {
                lemma_later_round(first as int, increment as int, rounds, t);
            }
        }
    }
    Ok(())
}

/// Settles the order at which the search starts when it is run by `threads`
/// workers.
///
/// An order that is asked for must be even and at least twice the number of
/// workers. Without one the search starts at order 12, or at twice the number of
/// workers if that is more.
pub fn starting_order(start: Option<usize>, threads: usize) -> (order: Result<
    usize,
    Misconfiguration,
>)
    requires
        2 * threads <= usize::MAX,
    ensures
        match start {
            Some(asked) => order == if asked < 2 * threads {
                Err::<usize, Misconfiguration>(Misconfiguration::TooManyThreads)
            } else if asked % 2 != 0 {
                Err::<usize, Misconfiguration>(Misconfiguration::OddStart)
            } else {
                Ok::<usize, Misconfiguration>(asked)
            },
            None => order == Ok::<usize, Misconfiguration>(
                if 2 * threads >= 12 {
                    (2 * threads) as usize
                } else {
                    12usize
                },
            ),
        },
{
    match start {
        Some(asked) => {
            if asked < threads * 2 {
                return Err(Misconfiguration::TooManyThreads);
            }
            if asked % 2 != 0 {
                return Err(Misconfiguration::OddStart);
            }
            Ok(asked)
        },
        None => {
            if threads * 2 >= 12 {
                Ok(threads * 2)
            } else {
                Ok(12)
            }
        },
    }
}

} // verus!
