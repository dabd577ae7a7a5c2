//! What the search over a range of orders does, round by round.
//!
//! The outcome of a search is stated here as a function of what it was asked: the
//! cycle of each order is the first one that the backtracking search finds behind
//! the start that it keeps of the cycle before.

use crate::driver::{
    is_graph_of, lemma_same_graph, retraced, retry_index, Misconfiguration, SearchError,
};
use crate::hankel::search::{lemma_first_closing_is_unique, tried_before};
use crate::hankel::Hankel;
use vstd::prelude::*;

verus! {

/// The matrix of the graph of order `n` in which two vertices are joined exactly
/// if their sum is odd and occurs in `w`.
pub open spec fn graph_of(w: Seq<usize>, n: int) -> Hankel {
    choose|mat: Hankel| is_graph_of(mat, w, n)
}

/// What the search from index `pos` makes of the path `p`, which has a member for
/// each vertex of the graph: the first closing continuation, if there is one.
pub open spec fn searched(mat: Hankel, p: Seq<usize>, pos: int) -> Option<Seq<usize>> {
    if mat.closable(p, pos) {
        Some(choose|c: Seq<usize>| mat.first_closing(p, pos, c))
    } else {
        None
    }
}

/// What a failed search from index `pos` leaves of the path `p`.
pub open spec fn given_up(mat: Hankel, p: Seq<usize>, pos: int) -> Seq<usize> {
    Seq::new(
        p.len(),
        |k: int|
            if mat.reached(p, pos, k) {
                0usize
            } else {
                p[k]
            },
    )
}

/// The cycle that one round makes of the path `p` in the graph `mat`: the end of
/// the path is searched again, and if that fails, what is left of the path is
/// searched again from the index to which the divisor leads.
pub open spec fn regrown(mat: Hankel, p: Seq<usize>, increment: int, divisor: int) -> Result<
    Seq<usize>,
    SearchError,
> {
    let n = mat.order() as int;
    let cursor = n - retraced(increment);
    let again = retry_index(n, divisor);
    match searched(mat, p, cursor) {
        Some(c) => Ok(c),
        None => if !(1 <= again <= cursor) {
            Err(
                SearchError::ConfigurationError {
                    reason: Misconfiguration::RetryNotEarlier { size: n as usize },
                },
            )
        } else {
            match searched(mat, given_up(mat, p, cursor), again) {
                Some(c) => Ok(c),
                None => Err(SearchError::ExhaustedSearch { size: n as usize }),
            }
        },
    }
}

/// The path `p` with room for `increment` vertices more.
pub open spec fn lengthened(p: Seq<usize>, increment: int) -> Seq<usize> {
    p + Seq::new(increment as nat, |k: int| 0usize)
}

/// The outcome of the rounds from order `i` on, where `p` holds the cycle that
/// was made last, lengthened to `i` members.
pub open spec fn rounds_from(
    w: Seq<usize>,
    p: Seq<usize>,
    i: int,
    maximum: int,
    increment: int,
    divisor: int,
) -> Result<(), SearchError>
    decreases
            (if i <= maximum {
                maximum + 1 - i
            } else {
                0
            }),
{
    if i > maximum {
        Ok(())
    } else if increment <= 0 {
        Err(SearchError::ConfigurationError { reason: Misconfiguration::ZeroIncrement })
    } else if i <= retraced(increment) {
        Err(
            SearchError::ConfigurationError {
                reason: Misconfiguration::OrderTooSmall { size: i as usize },
            },
        )
    } else {
        match regrown(graph_of(w, i), p, increment, divisor) {
            Ok(c) => rounds_from(
                w,
                lengthened(c, increment),
                i + increment,
                maximum,
                increment,
                divisor,
            ),
            Err(e) => Err(e),
        }
    }
}

/// The outcome of the search over the orders `first`, `first + increment` and so
/// on up to `maximum`.
pub open spec fn search_outcome(
    w: Seq<usize>,
    first: int,
    maximum: int,
    increment: int,
    divisor: int,
) -> Result<(), SearchError> {
    if first == 0 {
        Err(SearchError::ConfigurationError { reason: Misconfiguration::EmptyGraph })
    } else {
        match searched(graph_of(w, first), seq![1usize], 1) {
            Some(c) => rounds_from(w, c, first, maximum, increment, divisor),
            None => Err(SearchError::ExhaustedSearch { size: first as usize }),
        }
    }
}

/// Every matrix of the graph of order `n` of `w` has the entries of the one that
/// `graph_of` names.
pub proof fn lemma_graph_is_named(mat: Hankel, w: Seq<usize>, n: int)
    requires
        is_graph_of(mat, w, n),
    ensures
        is_graph_of(graph_of(w, n), w, n),
        graph_of(w, n)@ == mat@,
        graph_of(w, n).order() == mat.order(),
{
    lemma_same_graph(mat, graph_of(w, n), w, n);
}

/// Two matrices with the same entries take the same sequences for continuations.
pub proof fn lemma_same_continues(m1: Hankel, m2: Hankel, p: Seq<usize>, pos: int, q: Seq<usize>)
    requires
        m1@ == m2@,
        m1.order() == m2.order(),
        m1.continues(p, pos, q),
    ensures
        m2.continues(p, pos, q),
        m1.closes(p, pos, q) ==> m2.closes(p, pos, q),
{
    assert forall|k: int| pos <= k < q.len() implies #[trigger] m2.fits(q, k, q[k] as int) by {
        assert(m1.fits(q, k, q[k] as int));
    }
}

/// Two matrices with the same entries answer the search alike.
pub proof fn lemma_same_searched(
    m1: Hankel,
    m2: Hankel,
    p: Seq<usize>,
    pos: int,
    found: Option<Seq<usize>>,
)
    requires
        m1@ == m2@,
        m1.order() == m2.order(),
        match found {
            Some(c) => m1.first_closing(p, pos, c),
            None => !m1.closable(p, pos),
        },
    ensures
        searched(m2, p, pos) == found,
        given_up(m1, p, pos) == given_up(m2, p, pos),
{
    match found {
        Some(c) => {
            lemma_same_continues(m1, m2, p, pos, c);
            assert forall|q: Seq<usize>| #[trigger] m2.closes(p, pos, q) implies tried_before(
                c,
                q,
            ) by {
                lemma_same_continues(m2, m1, p, pos, q);
            }
            assert(m2.first_closing(p, pos, c));
            let chosen = choose|c: Seq<usize>| m2.first_closing(p, pos, c);
            lemma_first_closing_is_unique(m2, p, pos, chosen, c);
        },
        None => {
            if m2.closable(p, pos) {
                let q = choose|q: Seq<usize>| #[trigger] m2.closes(p, pos, q);
                lemma_same_continues(m2, m1, p, pos, q);
            }
        },
    }
    assert forall|k: int| 0 <= k < p.len() implies m1.reached(p, pos, k) == m2.reached(
        p,
        pos,
        k,
    ) by {
        if m1.reached(p, pos, k) {
            let q = choose|q: Seq<usize>|
                #[trigger] m1.continues(p, pos, q) && pos <= k && q.len() == k + 1;
            lemma_same_continues(m1, m2, p, pos, q);
        }
        if m2.reached(p, pos, k) {
            let q = choose|q: Seq<usize>|
                #[trigger] m2.continues(p, pos, q) && pos <= k && q.len() == k + 1;
            lemma_same_continues(m2, m1, p, pos, q);
        }
    }
    assert(given_up(m1, p, pos) =~= given_up(m2, p, pos));
}

/// What a failed backtracking search has left is what `given_up` tells.
pub proof fn lemma_cleared_is_given_up(mat: Hankel, p: Seq<usize>, pos: int, fin: Seq<usize>)
    requires
        mat.cleared(p, pos, fin),
    ensures
        fin == given_up(mat, p, pos),
{
    assert(fin =~= given_up(mat, p, pos));
}

} // verus!
