use crate::packed_bits::PackedBits;
use vstd::arithmetic::div_mod::{lemma_mod_add_multiples_vanish, lemma_mod_multiples_basic};
use crate::primality::{
    divides, is_prime, lemma_divides_trans, lemma_one_multiple_in_window, lemma_sieved_is_prime,
    lemma_square_vs_quotient, primality_below, sieved,
};
use vstd::prelude::*;

verus! {

/// The sieve of Eratosthenes over `[0, max]` on packed flags: flag `i` is set
/// exactly when `i` is prime.
pub fn packed_sieve(max: u64) -> (r: PackedBits)
    requires
        max < usize::MAX,
    ensures
        r.wf(),
        r@ == primality_below((max + 1) as nat),
{
    let mut primes = PackedBits::new_set(max as usize + 1, true);
    primes.clear(0);
    if max >= 1 {
        primes.clear(1);
    }
    let ghost len = max + 1;
    let mut first_prime: u64 = 2;
    while first_prime <= max / first_prime
        invariant
            primes.wf(),
            primes@.len() == len,
            len == max + 1,
            max < usize::MAX,
            2 <= first_prime,
            forall|j: int| 0 <= j < len ==> #[trigger] primes@[j] == sieved(j, first_prime as int),
        decreases max - first_prime,
    {
        let p = first_prime;
        proof {
            lemma_square_vs_quotient(p as int, max as int);
            assert(p + p <= p * p) by (nonlinear_arith)
                requires
                    p >= 2,
            ;
            lemma_mod_multiples_basic(1, p as int);
            lemma_mod_multiples_basic(2, p as int);
            assert forall|j: int| p < j < p + p && divides(p as int, j) implies false by {
                lemma_one_multiple_in_window(p as int, p as int, j);
            }
        }
        let mut i: u64 = p + p;
        loop
            invariant_except_break
                forall|j: int|
                    0 <= j < len ==> #[trigger] primes@[j] == (sieved(j, p as int) && !(p < j < i
                        && divides(p as int, j))),
            invariant
                primes.wf(),
                primes@.len() == len,
                len == max + 1,
                max < usize::MAX,
                2 <= p,
                p + p <= i <= max,
                divides(p as int, i as int),
            ensures
                primes.wf(),
                primes@.len() == len,
                forall|j: int|
                    0 <= j < len ==> #[trigger] primes@[j] == (sieved(j, p as int) && !(p < j
                        && divides(p as int, j))),
            decreases max - i,
        {
            primes.clear(i as usize);
            proof {
                assert forall|j: int|
                    0 <= j < len && i <= j < i + p && divides(p as int, j) implies j == i by {
                    lemma_one_multiple_in_window(p as int, i as int, j);
                }
            }
            if i > max - p {
                break;
            }
            proof {
                lemma_mod_add_multiples_vanish(i as int, p as int);
            }
            i = i + p;
        }
        assert forall|j: int| 0 <= j < len implies #[trigger] primes@[j] == sieved(
            j,
            p + 1,
        ) by {
            if sieved(j, p as int) && !(p < j && divides(p as int, j)) {
                assert forall|d: int| 2 <= d < p + 1 && d < j implies !#[trigger] divides(d, j) by {
                    if d < p {
                    }
                }
            }
        }
        first_prime = p + 1;
        while first_prime < max && !primes.is_set(first_prime as usize)
            invariant
                primes.wf(),
                primes@.len() == len,
                len == max + 1,
                max < usize::MAX,
                2 <= first_prime <= max,
                p < first_prime,
                forall|j: int|
                    0 <= j < len ==> #[trigger] primes@[j] == sieved(j, first_prime as int),
            decreases max - first_prime,
        {
            let q = first_prime;
            proof {
                assert(!sieved(q as int, q as int));
                let d = choose|d: int| 2 <= d < q && #[trigger] divides(d, q as int);
                assert forall|j: int| 0 <= j < len implies #[trigger] primes@[j] == sieved(
                    j,
                    q + 1,
                ) by {
                    if sieved(j, q as int) && q < j && divides(q as int, j) {
                        lemma_divides_trans(d, q as int, j);
                    }
                    if sieved(j, q as int) {
                        assert forall|e: int| 2 <= e < q + 1 && e < j implies !#[trigger] divides(
                            e,
                            j,
                        ) by {
                            if e == q && divides(q as int, j) {
                                lemma_divides_trans(d, q as int, j);
                            }
                        }
                    }
                }
            }
            first_prime = q + 1;
        }
    }
    proof {
        lemma_square_vs_quotient(first_prime as int, max as int);
        assert forall|j: int| 0 <= j < len implies #[trigger] primes@[j] == is_prime(j) by {
            assert(j < first_prime * first_prime);
            lemma_sieved_is_prime(j, first_prime as int);
        }
    }
    assert(primes@ =~= primality_below((max + 1) as nat));
    primes
}

/// The sieve of Eratosthenes over `[0, max]`, one `bool` per number: entry
/// `i` is true exactly when `i` is prime.
pub fn sieve(max: u64) -> (r: Vec<bool>)
    requires
        max < usize::MAX,
    ensures
        r@ == primality_below((max + 1) as nat),
{
    let mut primes: Vec<bool> = vec![true; max as usize + 1];
    primes.set(0, false);
    if max >= 1 {
        primes.set(1, false);
    }
    let ghost len = max + 1;
    let mut first_prime: u64 = 2;
    while first_prime <= max / first_prime
        invariant
            primes@.len() == len,
            len == max + 1,
            max < usize::MAX,
            2 <= first_prime,
            forall|j: int| 0 <= j < len ==> #[trigger] primes@[j] == sieved(j, first_prime as int),
        decreases max - first_prime,
    {
        let p = first_prime;
        proof {
            lemma_square_vs_quotient(p as int, max as int);
            assert(p + p <= p * p) by (nonlinear_arith)
                requires
                    p >= 2,
            ;
            lemma_mod_multiples_basic(1, p as int);
            lemma_mod_multiples_basic(2, p as int);
            assert forall|j: int| p < j < p + p && divides(p as int, j) implies false by {
                lemma_one_multiple_in_window(p as int, p as int, j);
            }
        }
        let mut i: u64 = p + p;
        loop
            invariant_except_break
                forall|j: int|
                    0 <= j < len ==> #[trigger] primes@[j] == (sieved(j, p as int) && !(p < j < i
                        && divides(p as int, j))),
            invariant
                    primes@.len() == len,
                len == max + 1,
                max < usize::MAX,
                2 <= p,
                p + p <= i <= max,
                divides(p as int, i as int),
            ensures
                    primes@.len() == len,
                forall|j: int|
                    0 <= j < len ==> #[trigger] primes@[j] == (sieved(j, p as int) && !(p < j
                        && divides(p as int, j))),
            decreases max - i,
        {
            primes.set(i as usize, false);
            proof {
                assert forall|j: int|
                    0 <= j < len && i <= j < i + p && divides(p as int, j) implies j == i by {
                    lemma_one_multiple_in_window(p as int, i as int, j);
                }
            }
            if i > max - p {
                break;
            }
            proof {
                lemma_mod_add_multiples_vanish(i as int, p as int);
            }
            i = i + p;
        }
        assert forall|j: int| 0 <= j < len implies #[trigger] primes@[j] == sieved(
            j,
            p + 1,
        ) by {
            if sieved(j, p as int) && !(p < j && divides(p as int, j)) {
                assert forall|d: int| 2 <= d < p + 1 && d < j implies !#[trigger] divides(d, j) by {
                    if d < p {
                    }
                }
            }
        }
        first_prime = p + 1;
        while first_prime < max && !primes[first_prime as usize]
            invariant
                    primes@.len() == len,
                len == max + 1,
                max < usize::MAX,
                2 <= first_prime <= max,
                p < first_prime,
                forall|j: int|
                    0 <= j < len ==> #[trigger] primes@[j] == sieved(j, first_prime as int),
            decreases max - first_prime,
        {
            let q = first_prime;
            proof {
                assert(!sieved(q as int, q as int));
                let d = choose|d: int| 2 <= d < q && #[trigger] divides(d, q as int);
                assert forall|j: int| 0 <= j < len implies #[trigger] primes@[j] == sieved(
                    j,
                    q + 1,
                ) by {
                    if sieved(j, q as int) && q < j && divides(q as int, j) {
                        lemma_divides_trans(d, q as int, j);
                    }
                    if sieved(j, q as int) {
                        assert forall|e: int| 2 <= e < q + 1 && e < j implies !#[trigger] divides(
                            e,
                            j,
                        ) by {
                            if e == q && divides(q as int, j) {
                                lemma_divides_trans(d, q as int, j);
                            }
                        }
                    }
                }
            }
            first_prime = q + 1;
        }
    }
    proof {
        lemma_square_vs_quotient(first_prime as int, max as int);
        assert forall|j: int| 0 <= j < len implies #[trigger] primes@[j] == is_prime(j) by {
            assert(j < first_prime * first_prime);
            lemma_sieved_is_prime(j, first_prime as int);
        }
    }
    assert(primes@ =~= primality_below((max + 1) as nat));
    primes
}

} // verus!
