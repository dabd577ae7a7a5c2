//! The primes up to a bound, by trial division.

use crate::number::{divides, is_prime, lemma_divides_transitive};
use crate::sequence::increasing;
use vstd::prelude::*;

verus! {

/// `s` lists, in increasing order, exactly the primes below `limit`.
pub open spec fn primes_below(s: Seq<usize>, limit: int) -> bool {
    &&& increasing(s)
    &&& forall|p: usize| #[trigger] s.contains(p) <==> is_prime(p as int) && p < limit
}

/// Every integer from 2 on has a prime divisor, which is returned.
pub proof fn lemma_prime_divisor(n: int) -> (p: int)
    requires
        n >= 2,
    ensures
        is_prime(p),
        divides(p, n),
        p <= n,
    decreases n,
{
    if is_prime(n) {
        assert(n % n == 0) by (nonlinear_arith)
            requires
                n >= 2,
        ;
        n
    } else {
        let d = choose|d: int| 2 <= d < n && divides(d, n);
        let p = lemma_prime_divisor(d);
        lemma_divides_transitive(p, d, n);
        p
    }
}

/// Generates the primes up to and including `n`, in increasing order.
pub fn gen_primes_upto_n(n: usize) -> (primes: Vec<usize>)
    requires
        n < usize::MAX,
    ensures
        primes_below(primes@, n + 1),
{
    let mut primes: Vec<usize> = Vec::new();
    let mut i: usize = 2;
    while i <= n
        invariant
            i >= 2,
            i <= n + 1 || i == 2,
            n < usize::MAX,
            primes_below(primes@, i as int),
        decreases n + 1 - i,
    {
        let mut k: usize = 0;
        let mut composite = false;
        while k < primes.len()
            invariant_except_break
                !composite,
            invariant
                k <= primes@.len(),
                i >= 2,
                primes_below(primes@, i as int),
                forall|j: int| 0 <= j < k ==> !divides(#[trigger] primes@[j] as int, i as int),
            ensures
                composite ==> !is_prime(i as int),
                !composite ==> forall|j: int|
                    0 <= j < primes@.len() ==> !divides(#[trigger] primes@[j] as int, i as int),
            decreases primes@.len() - k,
        {
            let p = primes[k];
            assert(primes@.contains(p));
            if i % p == 0 {
                composite = true;
                assert(divides(p as int, i as int));
                break ;
            }
            k += 1;
        }
        let ghost before = primes@;
        if !composite {
            proof {
                if !is_prime(i as int) {
                    let d = choose|d: int| 2 <= d < i && divides(d, i as int);
                    let q = lemma_prime_divisor(d);
                    lemma_divides_transitive(q, d, i as int);
                    assert(before.contains(q as usize));
                    let j = choose|j: int| 0 <= j < before.len() && before[j] == q as usize;
                    assert(!divides(before[j] as int, i as int));
                }
            }
            primes.push(i);
            proof {
                assert forall|a: int, b: int| 0 <= a < b < primes@.len() implies primes@[a]
                    < primes@[b] by {
                    if b == before.len() {
                        assert(before.contains(before[a]));
                    }
                }
                assert forall|p: usize| primes@.contains(p) <==> is_prime(p as int) && p < i
                    + 1 by {
                    if primes@.contains(p) {
                        let j = choose|j: int| 0 <= j < primes@.len() && primes@[j] == p;
                        if j < before.len() {
                            assert(before.contains(before[j]));
                        }
                    }
                    if is_prime(p as int) && p < i {
                        assert(before.contains(p));
                        let j = choose|j: int| 0 <= j < before.len() && before[j] == p;
                        assert(primes@[j] == p);
                    }
                    if p == i {
                        assert(primes@[before.len() as int] == p);
                    }
                }
            }
        }
        i += 1;
    }
    primes
}

} // verus!
