//! Divisibility, primality and the greatest common divisor.

use vstd::arithmetic::div_mod::{
    lemma_fundamental_div_mod, lemma_mod_multiples_basic, lemma_small_mod,
};
use vstd::prelude::*;

verus! {

/// `d` is a positive divisor of `n`.
pub open spec fn divides(d: int, n: int) -> bool {
    d > 0 && n % d == 0
}

/// `n` is a prime number: at least 2 and without a divisor strictly between 1 and itself.
pub open spec fn is_prime(n: int) -> bool {
    n >= 2 && forall|d: int| 2 <= d < n ==> !#[trigger] divides(d, n)
}

/// The greatest common divisor of `a` and `b`, with `gcd_of(0, 0) == 0`.
pub open spec fn gcd_of(a: nat, b: nat) -> nat
    decreases b,
{
    if b == 0 {
        a
    } else {
        gcd_of(b, a % b)
    }
}

/// `a` and `b` have no common divisor but 1.
pub open spec fn coprime(a: nat, b: nat) -> bool {
    gcd_of(a, b) == 1
}

/// A multiple of `d` is divisible by `d`.
pub proof fn lemma_multiple_divides(d: int, k: int)
    requires
        d > 0,
    ensures
        divides(d, k * d),
{
    lemma_mod_multiples_basic(k, d);
}

/// A number divisible by `d` is `d` times its quotient.
pub proof fn lemma_divides_quotient(d: int, n: int)
    requires
        divides(d, n),
    ensures
        n == (n / d) * d,
{
    lemma_fundamental_div_mod(n, d);
    assert(d * (n / d) == (n / d) * d) by (nonlinear_arith);
}

/// Divisibility is transitive.
pub proof fn lemma_divides_transitive(a: int, b: int, c: int)
    requires
        divides(a, b),
        divides(b, c),
    ensures
        divides(a, c),
{
    lemma_divides_quotient(a, b);
    lemma_divides_quotient(b, c);
    let k = (c / b) * (b / a);
    assert(c == k * a) by (nonlinear_arith)
        requires
            c == (c / b) * b,
            b == (b / a) * a,
            k == (c / b) * (b / a),
    ;
    lemma_multiple_divides(a, k);
}

/// A divisor of `x` and of `y` divides every combination `x * s + y * t`.
pub proof fn lemma_divides_combination(d: int, x: int, s: int, y: int, t: int)
    requires
        divides(d, x),
        divides(d, y),
    ensures
        divides(d, x * s + y * t),
{
    lemma_divides_quotient(d, x);
    lemma_divides_quotient(d, y);
    let k = (x / d) * s + (y / d) * t;
    assert(x * s + y * t == k * d) by (nonlinear_arith)
        requires
            x == (x / d) * d,
            y == (y / d) * d,
            k == (x / d) * s + (y / d) * t,
    ;
    lemma_multiple_divides(d, k);
}

/// A positive multiple of `d` is at least `d`.
pub proof fn lemma_divisor_at_most(d: int, n: int)
    requires
        divides(d, n),
        n > 0,
    ensures
        d <= n,
{
    if d > n {
        lemma_small_mod(n as nat, d as nat);
    }
}

/// The greatest common divisor is positive unless both arguments are zero, and it
/// divides both of them.
pub proof fn lemma_gcd_divides(a: nat, b: nat)
    requires
        a > 0 || b > 0,
    ensures
        divides(gcd_of(a, b) as int, a as int),
        divides(gcd_of(a, b) as int, b as int),
    decreases b,
{
    if b == 0 {
        lemma_multiple_divides(a as int, 1);
        lemma_multiple_divides(a as int, 0);
    } else {
        let g = gcd_of(b, a % b) as int;
        lemma_gcd_divides(b, a % b);
        lemma_fundamental_div_mod(a as int, b as int);
        lemma_divides_combination(g, b as int, (a / b) as int, (a % b) as int, 1);
        assert(b * (a / b) + (a % b) * 1 == a) by (nonlinear_arith)
            requires
                a == b * (a / b) + a % b,
        ;
    }
}

/// Every common divisor of `a` and `b` divides their greatest common divisor.
pub proof fn lemma_gcd_greatest(a: nat, b: nat, d: int)
    requires
        divides(d, a as int),
        divides(d, b as int),
    ensures
        a > 0 || b > 0 ==> divides(d, gcd_of(a, b) as int),
        a > 0 || b > 0 ==> d <= gcd_of(a, b),
    decreases b,
{
    if b != 0 {
        lemma_fundamental_div_mod(a as int, b as int);
        let q = (a / b) as int;
        let r = (a % b) as int;
        lemma_divides_combination(d, a as int, 1, b as int, -q);
        assert(a * 1 + b * (-q) == r) by (nonlinear_arith)
            requires
                a == b * q + r,
        ;
        lemma_gcd_greatest(b, a % b, d);
    }
    if a > 0 || b > 0 {
        lemma_gcd_divides(a, b);
        lemma_divisor_at_most(d, gcd_of(a, b) as int);
    }
}

/// The greatest common divisor of a number and zero is that number.
pub proof fn lemma_gcd_zero(a: nat)
    ensures
        gcd_of(a, 0) == a,
        gcd_of(0, a) == a,
{
    reveal_with_fuel(gcd_of, 2);
    if a > 0 {
        lemma_small_mod(0, a);
    }
}

/// The greatest common divisor does not depend on the order of its arguments.
pub proof fn lemma_gcd_symmetric(a: nat, b: nat)
    ensures
        gcd_of(a, b) == gcd_of(b, a),
{
    if a == 0 || b == 0 {
        reveal_with_fuel(gcd_of, 2);
    } else {
        lemma_gcd_divides(a, b);
        lemma_gcd_divides(b, a);
        lemma_gcd_greatest(a, b, gcd_of(b, a) as int);
        lemma_gcd_greatest(b, a, gcd_of(a, b) as int);
    }
}

/// Bezout's identity: the greatest common divisor is an integer combination of
/// its arguments. The coefficients are returned.
pub proof fn lemma_bezout(a: nat, b: nat) -> (c: (int, int))
    ensures
        a * c.0 + b * c.1 == gcd_of(a, b),
    decreases b,
{
    if b == 0 {
        (1, 0)
    } else {
        let (s, t) = lemma_bezout(b, a % b);
        lemma_fundamental_div_mod(a as int, b as int);
        let q = (a / b) as int;
        assert(a * t + b * (s - q * t) == b * s + (a % b) * t) by (nonlinear_arith)
            requires
                a == b * q + a % b,
        ;
        (t, s - q * t)
    }
}

/// If `m` is coprime to `h` and `h` divides `t * m`, then `h` divides `t`.
pub proof fn lemma_coprime_cancel(m: nat, h: nat, t: int)
    requires
        coprime(m, h),
        divides(h as int, t * m),
    ensures
        divides(h as int, t),
{
    let (x, y) = lemma_bezout(m, h);
    lemma_multiple_divides(h as int, t * y);
    lemma_divides_combination(h as int, t * m, x, (t * y) * h, 1);
    assert((t * m) * x + ((t * y) * h) * 1 == t) by (nonlinear_arith)
        requires
            m * x + h * y == 1,
    ;
}

/// Computes the greatest common divisor of `a` and `b` by Euclid's algorithm.
pub fn gcd(a: usize, b: usize) -> (g: usize)
    ensures
        g == gcd_of(a as nat, b as nat),
        a > 0 || b > 0 ==> divides(g as int, a as int) && divides(g as int, b as int),
        forall|d: int|
            (a > 0 || b > 0) && divides(d, a as int) && divides(d, b as int) ==> d <= g,
{
    let mut x: usize = a;
    let mut y: usize = b;
    proof {
        if a > 0 || b > 0 {
            lemma_gcd_divides(a as nat, b as nat);
        }
        assert forall|d: int|
            (a > 0 || b > 0) && divides(d, a as int) && divides(d, b as int) implies d <= gcd_of(
            a as nat,
            b as nat,
        ) by {
            lemma_gcd_greatest(a as nat, b as nat, d);
        }
    }
    if x == y {
        proof {
            reveal_with_fuel(gcd_of, 2);
            if a > 0 {
                lemma_small_mod(0, a as nat);
                assert(a as nat % a as nat == 0) by {
                    lemma_multiple_divides(a as int, 1);
                }
            }
        }
        return x;
    }
    if y > x {
        proof {
            lemma_gcd_symmetric(a as nat, b as nat);
        }
        x = b;
        y = a;
    }
    while y > 0
        invariant
            gcd_of(x as nat, y as nat) == gcd_of(a as nat, b as nat),
        decreases y,
    {
        let r: usize = x % y;
        x = y;
        y = r;
    }
    x
}

} // verus!
