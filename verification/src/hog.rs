//! The load generator: it looks for primes by trial division.

use crate::text;
use vstd::prelude::*;

verus! {

/// Whether `d` divides `n`.
pub open spec fn divides(d: int, n: int) -> bool {
    n % d == 0
}

/// Whether a number is prime: it is at least two, and nothing between one and itself
/// divides it.
pub open spec fn is_prime_number(n: int) -> bool {
    n >= 2 && forall|d: int| 2 <= d < n ==> !#[trigger] divides(d, n)
}

/// A composite number has a divisor whose square does not exceed it.
proof fn lemma_small_divisor(n: int, d: int)
    requires
        2 <= d < n,
        divides(d, n),
    ensures
        exists|e: int| 2 <= e && e * e <= n && #[trigger] divides(e, n),
{
    let q = n / d;
    vstd::arithmetic::div_mod::lemma_fundamental_div_mod(n, d);
    assert(n == d * q);
    if d <= q {
        assert(d * d <= n) by (nonlinear_arith)
            requires
                n == d * q,
                2 <= d <= q,
        ;
    } else {
        assert(2 <= q && q * q <= n) by (nonlinear_arith)
            requires
                n == d * q,
                2 <= d < n,
                q < d,
        ;
        assert(n == q * d) by (nonlinear_arith)
            requires
                n == d * q,
        ;
        vstd::arithmetic::div_mod::lemma_fundamental_div_mod_converse(n, q, d, 0);
        assert(divides(q, n));
    }
}

/// An even divisor means an even number.
proof fn lemma_even_divisor(n: int, d: int)
    requires
        d > 0,
        d % 2 == 0,
        divides(d, n),
    ensures
        n % 2 == 0,
{
    vstd::arithmetic::div_mod::lemma_fundamental_div_mod(n, d);
    vstd::arithmetic::div_mod::lemma_fundamental_div_mod(d, 2);
    let q = n / d;
    let h = d / 2;
    assert(n == 2 * (h * q)) by (nonlinear_arith)
        requires
            n == d * q,
            d == 2 * h,
    ;
}

/// Whether a number is prime, by trial division with the odd numbers up to its square
/// root.
pub fn is_prime(n: u64) -> (r: bool)
    ensures
        r == is_prime_number(n as int),
{
    if n < 2 {
        return false;
    }
    if n == 2 {
        return true;
    }
    if n % 2 == 0 {
        assert(divides(2, n as int));
        return false;
    }
    let mut i: u64 = 3;
    while i <= n / i
        invariant
            n > 2,
            n % 2 == 1,
            3 <= i <= 0x1_0000_0001,
            i % 2 == 1,
            forall|d: int| 2 <= d < i ==> !#[trigger] divides(d, n as int),
        decreases n - i,
    {
        let ghost q = (n / i) as int;
        proof {
            vstd::arithmetic::div_mod::lemma_fundamental_div_mod(n as int, i as int);
            assert(i * i <= n) by (nonlinear_arith)
                requires
                    n as int == i as int * q + (n as int) % (i as int),
                    0 <= (n as int) % (i as int),
                    i <= q,
                    i > 0,
            ;
            assert(i < 0x1_0000_0000) by (nonlinear_arith)
                requires
                    i * i <= n,
                    n <= 0xffff_ffff_ffff_ffff,
            ;
            assert(i < n) by (nonlinear_arith)
                requires
                    i * i <= n,
                    i >= 3,
            ;
        }
        if n % i == 0 {
            assert(divides(i as int, n as int));
            return false;
        }
        proof {
            assert forall|d: int| 2 <= d < i + 2 implies !#[trigger] divides(d, n as int) by {
                if d == i + 1 && divides(d, n as int) {
                    lemma_even_divisor(n as int, d);
                }
            }
            assert(n - (i + 2) < n - i);
            assert(i + 2 <= n) by (nonlinear_arith)
                requires
                    i * i <= n,
                    i >= 3,
            ;
        }
        i += 2;
    }
    proof {
        let q = (n / i) as int;
        vstd::arithmetic::div_mod::lemma_fundamental_div_mod(n as int, i as int);
        vstd::arithmetic::div_mod::lemma_mod_bound(n as int, i as int);
        assert(i * i > n) by (nonlinear_arith)
            requires
                n as int == i as int * q + (n as int) % (i as int),
                0 <= (n as int) % (i as int) < i,
                i > q,
        ;
        assert forall|d: int| 2 <= d < n implies !#[trigger] divides(d, n as int) by {
            if divides(d, n as int) {
                lemma_small_divisor(n as int, d);
                let e = choose|e: int| 2 <= e && e * e <= n && #[trigger] divides(e, n as int);
                assert(e < i) by (nonlinear_arith)
                    requires
                        e * e <= n,
                        i * i > n,
                        i >= 3,
                        e >= 2,
                ;
            }
        }
    }
    true
}

/// The line that shows how long the load generator has been running. It returns to the
/// start of the line and ends in spaces, so that each one overwrites the last.
pub fn running_line(secs: u64) -> (s: String)
    ensures
        s@ == "\r[dummy-hog] Running for "@ + text::decimal(secs as nat) + (if secs == 1 {
            " second...      "@
        } else {
            " seconds...      "@
        }),
{
    let mut s = String::new();
    s.append("\r[dummy-hog] Running for ");
    text::append_decimal(&mut s, secs);
    if secs == 1 {
        s.append(" second...      ");
    } else {
        s.append(" seconds...      ");
    }
    assert(s@ =~= "\r[dummy-hog] Running for "@ + text::decimal(secs as nat) + (if secs == 1 {
        " second...      "@
    } else {
        " seconds...      "@
    }));
    s
}

/// A product of two numbers from two on is not prime, and a number from two on that is
/// no such product is.
pub proof fn law_primes_are_no_products(n: int)
    ensures
        is_prime_number(n) <==> n >= 2 && forall|a: int, b: int|
            2 <= a && 2 <= b ==> #[trigger] (a * b) != n,
{
    if is_prime_number(n) {
        assert forall|a: int, b: int| 2 <= a && 2 <= b implies #[trigger] (a * b) != n by {
            if a * b == n {
                assert(a < n && n == b * a + 0) by (nonlinear_arith)
                    requires
                        2 <= a,
                        2 <= b,
                        a * b == n,
                ;
                vstd::arithmetic::div_mod::lemma_fundamental_div_mod_converse(n, a, b, 0);
                assert(divides(a, n));
            }
        }
    } else if n >= 2 {
        let d = choose|d: int| 2 <= d < n && #[trigger] divides(d, n);
        let q = n / d;
        vstd::arithmetic::div_mod::lemma_fundamental_div_mod(n, d);
        assert(2 <= q) by (nonlinear_arith)
            requires
                n == d * q,
                2 <= d < n,
        ;
        assert(d * q == n);
    }
}

} // verus!
