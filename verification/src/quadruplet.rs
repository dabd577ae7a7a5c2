//! The search for the two primes from which the closed-form path is made.

use crate::number::{coprime, gcd, is_prime, lemma_gcd_zero};
use crate::sequence::{contains, increasing, lower_bound, positive};
use crate::sieve::{gen_primes_upto_n, primes_below};
use vstd::prelude::*;

verus! {

/// `x` occurs in `w`.
pub open spec fn occurs(w: Seq<usize>, x: int) -> bool {
    exists|i: int| 0 <= i < w.len() && #[trigger] w[i] == x
}

/// `p1` and `p2` are a pair for the half order `h` as far as `w` tells: both occur
/// in `w`, except that `p1` may be 1, they are at most `2 * h`, they occur in `w`
/// again when `2 * h` is added, and half their difference is coprime to `h`.
pub open spec fn is_pair(w: Seq<usize>, h: int, p1: int, p2: int) -> bool {
    &&& p1 == 1 || occurs(w, p1)
    &&& occurs(w, p2)
    &&& p1 < p2 <= 2 * h
    &&& occurs(w, p1 + 2 * h)
    &&& occurs(w, p2 + 2 * h)
    &&& coprime(((p2 - p1) / 2) as nat, h as nat)
}

/// `p1` and `p2` are a pair of primes for the half order `h`: primes up to
/// `2 * h`, except that `p1` may be 1, that are prime again when `2 * h` is added,
/// and such that half their difference is coprime to `h`.
pub open spec fn is_quadruplet(h: int, p1: int, p2: int) -> bool {
    &&& p1 == 1 || is_prime(p1)
    &&& is_prime(p2)
    &&& p1 < p2 <= 2 * h
    &&& is_prime(p1 + 2 * h)
    &&& is_prime(p2 + 2 * h)
    &&& coprime(((p2 - p1) / 2) as nat, h as nat)
}

/// The pair `(p1, p2)` comes before the pair `(q1, q2)`, or is the same.
pub open spec fn pair_le(p1: int, p2: int, q1: int, q2: int) -> bool {
    p1 < q1 || (p1 == q1 && p2 <= q2)
}

/// `found` is the first pair that `w` tells of, or `None` if it tells of none.
pub open spec fn is_first_pair(w: Seq<usize>, h: int, found: Option<(usize, usize)>) -> bool {
    match found {
        Some((p1, p2)) => {
            &&& is_pair(w, h, p1 as int, p2 as int)
            &&& forall|q1: int, q2: int| #[trigger]
                is_pair(w, h, q1, q2) ==> pair_le(p1 as int, p2 as int, q1, q2)
        },
        None => forall|q1: int, q2: int| !#[trigger] is_pair(w, h, q1, q2),
    }
}

/// `found` is the first pair of primes for the half order `h`, or `None` if there
/// is none.
pub open spec fn is_first_quadruplet(h: int, found: Option<(usize, usize)>) -> bool {
    match found {
        Some((p1, p2)) => {
            &&& is_quadruplet(h, p1 as int, p2 as int)
            &&& forall|q1: int, q2: int| #[trigger]
                is_quadruplet(h, q1, q2) ==> pair_le(p1 as int, p2 as int, q1, q2)
        },
        None => forall|q1: int, q2: int| !#[trigger] is_quadruplet(h, q1, q2),
    }
}

/// Where `w` lists the primes up to `4 * h`, it tells of the pairs of primes.
pub proof fn lemma_pairs_of_primes(w: Seq<usize>, h: int, p1: int, p2: int)
    requires
        1 <= h,
        4 * h <= usize::MAX,
        primes_below(w, 4 * h + 1),
    ensures
        is_pair(w, h, p1, p2) == is_quadruplet(h, p1, p2),
{
    lemma_occurs_prime(w, h, p1);
    lemma_occurs_prime(w, h, p2);
    lemma_occurs_prime(w, h, p1 + 2 * h);
    lemma_occurs_prime(w, h, p2 + 2 * h);
}

/// Where `w` lists the primes up to `4 * h`, the numbers up to `4 * h` that occur
/// in it are the primes.
proof fn lemma_occurs_prime(w: Seq<usize>, h: int, x: int)
    requires
        1 <= h,
        4 * h <= usize::MAX,
        primes_below(w, 4 * h + 1),
    ensures
        x <= 4 * h ==> (occurs(w, x) <==> is_prime(x)),
{
    if occurs(w, x) {
        let i = choose|i: int| 0 <= i < w.len() && #[trigger] w[i] == x;
        assert(w.contains(w[i]));
    }
    if 0 <= x <= 4 * h && is_prime(x) {
        let v = x as usize;
        assert(w.contains(v));
        let i = choose|i: int| 0 <= i < w.len() && w[i] == v;
        assert(w[i] == x);
    }
}

/// The member at index `i` of an increasing sequence of positive numbers is
/// greater than `i`.
proof fn lemma_above_index(w: Seq<usize>, i: int)
    requires
        increasing(w),
        positive(w),
        0 <= i < w.len(),
    ensures
        w[i] > i,
    decreases i,
{
    if i > 0 {
        lemma_above_index(w, i - 1);
        assert(w[i - 1] < w[i]);
    }
}

/// Finds primes `p1 < p2 <= 2 * n`, with `n` the half size, such that
/// `p1 + 2 * n` and `p2 + 2 * n` are prime and `(p2 - p1) / 2` is coprime to `n`.
/// Of all such pairs the one with the least `p1`, and with the least `p2` for that
/// `p1`, is returned. If no such primes exist, `None` is returned.
///
/// `primes` should contain all the primes from 2 up to `4 * n`; the numbers that
/// occur in it are taken for the primes. Without `primes` they are generated.
///
/// `p1` is allowed to be 1.
pub fn find_prime_quadruplet(half_size: usize, primes: Option<&[usize]>) -> (found: Option<
    (usize, usize),
>)
    requires
        half_size >= 2,
        4 * half_size < usize::MAX,
        primes matches Some(p) ==> increasing(p@) && positive(p@),
    ensures
        primes matches Some(p) ==> is_first_pair(p@, half_size as int, found),
        primes is None ==> is_first_quadruplet(half_size as int, found),
{
    let ghost h = half_size as int;
    let generated: Vec<usize> = match primes {
        Some(_) => Vec::new(),
        None => gen_primes_upto_n(4 * half_size),
    };
    let all_primes: &[usize] = match primes {
        Some(p) => p,
        None => generated.as_slice(),
    };
    let ghost w = all_primes@;
    proof {
        if primes is None {
            assert forall|i: int| 0 <= i < w.len() implies #[trigger] w[i] > 0 by {
                assert(w.contains(w[i]));
            }
            assert forall|q1: int, q2: int| is_pair(w, h, q1, q2) == is_quadruplet(h, q1, q2) by {
                lemma_pairs_of_primes(w, h, q1, q2);
            }
        }
    }
    // the primes up to 2 * half_size are those before this index
    let half_index = lower_bound(all_primes, 2 * half_size + 1);
    proof {
        if half_index > 0 {
            lemma_above_index(w, half_index - 1);
        }
    }
    let mut first_prime_index: usize = 0;
    while first_prime_index <= half_index
        invariant
            half_size >= 2,
            h == half_size,
            4 * half_size < usize::MAX,
            w == all_primes@,
            increasing(w),
            positive(w),
            half_index <= w.len(),
            half_index <= 2 * h,
            forall|i: int| 0 <= i < half_index ==> w[i] <= 2 * h,
            forall|i: int| half_index <= i < w.len() ==> w[i] > 2 * h,
            first_prime_index <= half_index + 1,
            primes matches Some(p) ==> p@ == w,
            primes is None ==> forall|q1: int, q2: int|
                is_pair(w, h, q1, q2) == is_quadruplet(h, q1, q2),
            forall|q1: int, q2: int| #[trigger]
                is_pair(w, h, q1, q2) ==> first_prime_index <= half_index && q1 >= (
                if first_prime_index == 0 {
                    1
                } else {
                    w[first_prime_index - 1] as int
                }),
        decreases half_index + 1 - first_prime_index,
    {
        // 1 comes first, then the primes
        let p1: usize = if first_prime_index == 0 {
            1
        } else {
            all_primes[first_prime_index - 1]
        };
        // is p1 + 2 * n prime?
        if contains(all_primes, p1 + 2 * half_size) {
            let mut second: usize = first_prime_index;
            while second < half_index
                invariant
                    half_size >= 2,
                    h == half_size,
                    4 * half_size < usize::MAX,
                    w == all_primes@,
                    increasing(w),
                    positive(w),
                    half_index <= w.len(),
                    forall|i: int| 0 <= i < half_index ==> w[i] <= 2 * h,
                    first_prime_index <= second <= half_index,
                    p1 == (if first_prime_index == 0 {
                        1
                    } else {
                        w[first_prime_index - 1]
                    }),
                    p1 <= 2 * h,
                    w.contains((p1 + 2 * half_size) as usize),
                    primes matches Some(p) ==> p@ == w,
                    primes is None ==> forall|q1: int, q2: int|
                        is_pair(w, h, q1, q2) == is_quadruplet(h, q1, q2),
                    forall|i: int|
                        first_prime_index <= i < second ==> !is_pair(
                            w,
                            h,
                            p1 as int,
                            #[trigger] w[i] as int,
                        ),
                    forall|q1: int, q2: int| #[trigger] is_pair(w, h, q1, q2) ==> q1 >= p1,
                decreases half_index - second,
            {
                let p2 = all_primes[second];
                assert(p2 >= p1) by {
                    if first_prime_index > 0 {
                        assert(w[first_prime_index - 1] <= w[second as int]);
                    }
                }
                if gcd((p2 - p1) / 2, half_size) == 1 {
                    if contains(all_primes, p2 + half_size * 2) {
                        proof {
                            lemma_pair_found(
                                w,
                                h,
                                first_prime_index as int,
                                second as int,
                                half_index as int,
                            );
                        }
                        return Some((p1, p2));
                    }
                }
                proof {
                    if is_pair(w, h, p1 as int, p2 as int) {
                        let i = choose|i: int| 0 <= i < w.len() && #[trigger] w[i] == p2 + 2 * h;
                        assert(w.contains(w[i]));
                    }
                }
                second += 1;
            }
        } else {
            proof {
                assert forall|q1: int, q2: int| #[trigger] is_pair(w, h, q1, q2) implies q1
                    != p1 by {
                    if q1 == p1 {
                        let i = choose|i: int| 0 <= i < w.len() && #[trigger] w[i] == q1 + 2 * h;
                        assert(w.contains(w[i]));
                    }
                }
            }
        }
        proof {
            lemma_candidate_done(w, h, first_prime_index as int, half_index as int);
        }
        first_prime_index += 1;
    }
    None
}

/// The pair at the indices `t` and `s` is the first one, if no pair lies before it.
proof fn lemma_pair_found(w: Seq<usize>, h: int, t: int, s: int, half_index: int)
    requires
        2 <= h,
        increasing(w),
        positive(w),
        0 <= t <= s < half_index <= w.len(),
        forall|i: int| 0 <= i < half_index ==> w[i] <= 2 * h,
        ({
            let p1 = if t == 0 {
                1
            } else {
                w[t - 1] as int
            };
            &&& w.contains((p1 + 2 * h) as usize)
            &&& w.contains((w[s] + 2 * h) as usize)
            &&& p1 + 2 * h <= usize::MAX
            &&& w[s] + 2 * h <= usize::MAX
            &&& p1 <= w[s]
            &&& coprime(((w[s] - p1) / 2) as nat, h as nat)
            &&& forall|i: int| t <= i < s ==> !is_pair(w, h, p1, #[trigger] w[i] as int)
            &&& forall|q1: int, q2: int| #[trigger] is_pair(w, h, q1, q2) ==> q1 >= p1
        }),
    ensures
        is_first_pair(
            w,
            h,
            Some(
                (
                    if t == 0 {
                        1usize
                    } else {
                        w[t - 1]
                    },
                    w[s],
                ),
            ),
        ),
{
    let p1 = if t == 0 {
        1
    } else {
        w[t - 1] as int
    };
    let p2 = w[s] as int;
    let a = (p1 + 2 * h) as usize;
    let b = (p2 + 2 * h) as usize;
    let ia = choose|i: int| 0 <= i < w.len() && w[i] == a;
    let ib = choose|i: int| 0 <= i < w.len() && w[i] == b;
    assert(w[ia] == p1 + 2 * h);
    assert(w[ib] == p2 + 2 * h);
    assert(w[s] == p2);
    if t > 0 {
        assert(w[t - 1] == p1);
        assert(w[t - 1] < w[s]);
    } else if p2 == 1 {
        lemma_gcd_zero(h as nat);
    }
    assert(p1 == 1 || occurs(w, p1));
    assert(occurs(w, p2));
    assert(p1 < p2 <= 2 * h);
    assert(occurs(w, p1 + 2 * h));
    assert(occurs(w, p2 + 2 * h));
    assert(is_pair(w, h, p1, p2));
    assert forall|q1: int, q2: int| #[trigger] is_pair(w, h, q1, q2) implies pair_le(
        p1,
        p2,
        q1,
        q2,
    ) by {
        if q1 == p1 {
            let i = choose|i: int| 0 <= i < w.len() && #[trigger] w[i] == q2;
            if i < half_index && t <= i < s {
                assert(!is_pair(w, h, p1, w[i] as int));
            }
            if i < t {
                assert(t > 0);
                if i < t - 1 {
                    assert(w[i] < w[t - 1]);
                }
            }
            if i > s {
                assert(w[s] < w[i]);
            }
        }
    }
}

/// Once no pair holds the candidate at index `t` or an earlier one, every pair
/// holds a later one.
proof fn lemma_candidate_done(w: Seq<usize>, h: int, t: int, half_index: int)
    requires
        2 <= h,
        increasing(w),
        positive(w),
        0 <= t <= half_index <= w.len(),
        forall|i: int| 0 <= i < half_index ==> w[i] <= 2 * h,
        forall|i: int| half_index <= i < w.len() ==> w[i] > 2 * h,
        forall|q1: int, q2: int| #[trigger]
            is_pair(w, h, q1, q2) ==> q1 > (if t == 0 {
                1
            } else {
                w[t - 1] as int
            }) || (q1 == (if t == 0 {
                1
            } else {
                w[t - 1] as int
            }) && exists|i: int| 0 <= i < t && i < w.len() && #[trigger] w[i] == q2),
    ensures
        forall|q1: int, q2: int| #[trigger]
            is_pair(w, h, q1, q2) ==> t + 1 <= half_index && q1 >= w[t] as int,
{
    assert forall|q1: int, q2: int| #[trigger] is_pair(w, h, q1, q2) implies t + 1 <= half_index
        && q1 >= w[t] as int by {
        let p1 = if t == 0 {
            1
        } else {
            w[t - 1] as int
        };
        if q1 == p1 {
            let i = choose|i: int| 0 <= i < t && i < w.len() && #[trigger] w[i] == q2;
            if t > 0 && i < t - 1 {
                assert(w[i] < w[t - 1]);
            }
        } else {
            let i = choose|i: int| 0 <= i < w.len() && #[trigger] w[i] == q1;
            if i >= half_index {
                assert(w[i] > 2 * h);
            }
            if t > 0 && i < t - 1 {
                assert(w[i] < w[t - 1]);
            }
            if i > t {
                assert(w[t] < w[i]);
            }
        }
    }
}

} // verus!
