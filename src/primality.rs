use vstd::arithmetic::div_mod::{lemma_fundamental_div_mod, lemma_mod_multiples_basic};
use vstd::prelude::*;

verus! {

/// `d` divides `n`.
pub open spec fn divides(d: int, n: int) -> bool {
    n % d == 0
}

/// `n` is a prime number: at least 2, and no number in `[2, n)` divides it.
pub open spec fn is_prime(n: int) -> bool {
    n >= 2 && forall|d: int| 2 <= d < n ==> !#[trigger] divides(d, n)
}

/// The primality table of `[0, n)`: entry `i` is whether `i` is prime.
pub open spec fn primality_below(n: nat) -> Seq<bool> {
    Seq::new(n, |i: int| is_prime(i))
}

/// `n` is at least 2 and has no divisor `d` with `2 <= d < k` other than
/// itself: what is left standing after all multiples of the numbers below `k`
/// have been crossed out.
pub open spec fn sieved(n: int, k: int) -> bool {
    n >= 2 && forall|d: int| 2 <= d < k && d < n ==> !#[trigger] divides(d, n)
}

/// The first divisor of `n` at or above `d` (`n` itself if there is none
/// below it).
spec fn least_divisor_from(n: int, d: int) -> int
    decreases n - d,
{
    if d >= n {
        n
    } else if divides(d, n) {
        d
    } else {
        least_divisor_from(n, d + 1)
    }
}

/// Divisibility is transitive.
pub proof fn lemma_divides_trans(a: int, b: int, c: int)
    requires
        a > 0,
        b > 0,
        divides(a, b),
        divides(b, c),
    ensures
        divides(a, c),
{
    lemma_fundamental_div_mod(b, a);
    lemma_fundamental_div_mod(c, b);
    let q1 = b / a;
    let q2 = c / b;
    assert(c == (q1 * q2) * a) by (nonlinear_arith)
        requires
            b == a * q1,
            c == b * q2,
    ;
    lemma_mod_multiples_basic(q1 * q2, a);
}

/// Two multiples of `p` less than `p` apart are equal.
pub proof fn lemma_one_multiple_in_window(p: int, i: int, j: int)
    requires
        p > 0,
        divides(p, i),
        divides(p, j),
        i <= j < i + p,
    ensures
        j == i,
{
    lemma_fundamental_div_mod(i, p);
    lemma_fundamental_div_mod(j, p);
    let qi = i / p;
    let qj = j / p;
    assert(qj == qi) by (nonlinear_arith)
        requires
            i == p * qi,
            j == p * qj,
            i <= j < i + p,
            p > 0,
    ;
}

proof fn lemma_least_divisor_from(n: int, d: int)
    requires
        2 <= d <= n,
    ensures
        d <= least_divisor_from(n, d) <= n,
        divides(least_divisor_from(n, d), n),
        forall|e: int| d <= e < least_divisor_from(n, d) ==> !#[trigger] divides(e, n),
    decreases n - d,
{
    if d < n && !divides(d, n) {
        lemma_least_divisor_from(n, d + 1);
    }
    if d == n {
        assert(n % n == 0) by (nonlinear_arith)
            requires
                n > 0,
        ;
    }
}

/// Every number from 2 on has a prime divisor; a number that is not prime
/// has one whose square does not exceed it.
pub proof fn lemma_prime_factor(n: int) -> (p: int)
    requires
        n >= 2,
    ensures
        is_prime(p),
        divides(p, n),
        p <= n,
        !is_prime(n) ==> p * p <= n,
{
    let p = least_divisor_from(n, 2);
    lemma_least_divisor_from(n, 2);
    assert forall|e: int| 2 <= e < p implies !#[trigger] divides(e, p) by {
        if divides(e, p) {
            lemma_divides_trans(e, p, n);
        }
    }
    if !is_prime(n) {
        let e = choose|e: int| 2 <= e < n && #[trigger] divides(e, n);
        assert(p <= e);
        lemma_fundamental_div_mod(n, p);
        let q = n / p;
        assert(n == p * q);
        assert(q >= 2) by (nonlinear_arith)
            requires
                n == p * q,
                p < n,
                p >= 2,
        ;
        assert(q < n) by (nonlinear_arith)
            requires
                n == p * q,
                p >= 2,
                n >= 2,
        ;
        lemma_mod_multiples_basic(p, q);
        assert(divides(q, n));
        assert(p <= q);
        assert(p * p <= n) by (nonlinear_arith)
            requires
                n == p * q,
                p <= q,
                p >= 2,
        ;
    }
    p
}

/// Once every number below `k` has had its multiples crossed out, and
/// `k * k` exceeds `n`, what is left standing at `n` is exactly a prime.
pub proof fn lemma_sieved_is_prime(n: int, k: int)
    requires
        0 <= n,
        2 <= k,
        n < k * k,
    ensures
        sieved(n, k) == is_prime(n),
{
    if n >= 2 && !is_prime(n) && sieved(n, k) {
        let p = lemma_prime_factor(n);
        assert(p < k) by (nonlinear_arith)
            requires
                p * p <= n,
                n < k * k,
                p >= 2,
                k >= 2,
        ;
        assert(p < n) by (nonlinear_arith)
            requires
                p * p <= n,
                p >= 2,
        ;
    }
}

/// `p * p > n` exactly when `p` exceeds the quotient `n / p`.
pub proof fn lemma_square_vs_quotient(p: int, n: int)
    requires
        p > 0,
        n >= 0,
    ensures
        (p * p > n) == (p > n / p),
{
    lemma_fundamental_div_mod(n, p);
    let q = n / p;
    let r = n % p;
    assert((p * p > n) == (p > q)) by (nonlinear_arith)
        requires
            n == p * q + r,
            0 <= r < p,
            p > 0,
    ;
}

/// In the table below any bound above 7, entries 0 and 1 are clear and
/// entries 2, 3, 5 and 7 are set.
pub proof fn lemma_first_entries(n: nat)
    requires
        n > 7,
    ensures
        !primality_below(n)[0],
        !primality_below(n)[1],
        primality_below(n)[2],
        primality_below(n)[3],
        primality_below(n)[5],
        primality_below(n)[7],
{
    assert forall|d: int| 2 <= d < 3 implies !#[trigger] divides(d, 3) by {
        assert(d == 2);
    }
    assert forall|d: int| 2 <= d < 5 implies !#[trigger] divides(d, 5) by {
        assert(d == 2 || d == 3 || d == 4);
    }
    assert forall|d: int| 2 <= d < 7 implies !#[trigger] divides(d, 7) by {
        assert(d == 2 || d == 3 || d == 4 || d == 5 || d == 6);
    }
}

} // verus!
