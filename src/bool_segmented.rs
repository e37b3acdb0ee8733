use crate::primality::{
    divides, lemma_one_multiple_in_window, lemma_square_vs_quotient, primality_below,
};
use crate::segmented::{
    inner_bound, lemma_first_multiple, lemma_segment_is_primality, segment_flags, segment_length,
    struck, struck_below,
};
use crate::sieve::sieve;
use vstd::arithmetic::div_mod::{
    lemma_fundamental_div_mod, lemma_mod_add_multiples_vanish, lemma_mod_multiples_basic,
};
use vstd::prelude::*;

verus! {

/// Sieves the numbers `[start, end)` with the true entries of `base`, one
/// `bool` per number:
/// entry `k` of the result is true exactly when `start + k` is at least 2
/// and no true entry `p >= 2` of `base` divides it.
pub fn sieve_segment_bools(base: &Vec<bool>, start: usize, end: usize) -> (r: Vec<bool>)
    requires
        start <= end,
    ensures
        r@ == segment_flags(base@, start as int, (end - start) as nat),
{
    let len = end - start;
    let mut v: Vec<bool> = vec![true; len];
    if start == 0 && len > 0 {
        v.set(0, false);
    }
    if start <= 1 && 1 - start < len {
        v.set(1 - start, false);
    }
    let blen = base.len();
    let mut p: usize = 2;
    while p < blen
        invariant
            blen == base@.len(),
            v@.len() == len,
            len == end - start,
            start <= end,
            2 <= p,
            forall|k: int|
                0 <= k < len ==> #[trigger] v@[k] == (start + k >= 2 && !struck_below(
                    base@,
                    start + k,
                    p as int,
                )),
        decreases blen - p,
    {
        if base[p] {
            let rem = start % p;
            let gap = if rem == 0 {
                0
            } else {
                p - rem
            };
            proof {
                assert forall|k: int|
                    0 <= k < len && start + k < start + gap implies !#[trigger] divides(
                        p as int,
                        start + k,
                    ) by {
                    lemma_first_multiple(p as int, start as int, start + k);
                }
            }
            if gap < len {
                let mut i: usize = start + gap;
                proof {
                    lemma_fundamental_div_mod(start as int, p as int);
                    lemma_mod_multiples_basic(start as int / p as int, p as int);
                    if rem != 0 {
                        assert((start - rem) as int == (start as int / p as int) * p) by (
                        nonlinear_arith)
                            requires
                                start as int == p * (start as int / p as int) + rem,
                        ;
                        lemma_mod_add_multiples_vanish((start - rem) as int, p as int);
                    }
                }
                loop
                    invariant_except_break
                        forall|k: int|
                            0 <= k < len ==> #[trigger] v@[k] == (start + k >= 2 && !struck_below(
                                base@,
                                start + k,
                                p as int,
                            ) && !(start + k < i && divides(p as int, start + k))),
                    invariant
                        blen == base@.len(),
                        v@.len() == len,
                        len == end - start,
                        start <= i < end,
                        2 <= p < blen,
                        base@[p as int],
                        divides(p as int, i as int),
                    ensures
                        v@.len() == len,
                        forall|k: int|
                            0 <= k < len ==> #[trigger] v@[k] == (start + k >= 2 && !struck_below(
                                base@,
                                start + k,
                                p as int,
                            ) && !divides(p as int, start + k)),
                    decreases end - i,
                {
                    v.set(i - start, false);
                    proof {
                        assert forall|k: int|
                            0 <= k < len && i <= start + k < i + p && #[trigger] divides(
                                p as int,
                                start + k,
                            ) implies start + k == i by {
                            lemma_one_multiple_in_window(p as int, i as int, start + k);
                        }
                    }
                    if end - i <= p {
                        break;
                    }
                    proof {
                        lemma_mod_add_multiples_vanish(i as int, p as int);
                    }
                    i = i + p;
                }
            }
        }
        proof {
            assert forall|k: int| 0 <= k < len implies #[trigger] v@[k] == (start + k >= 2
                && !struck_below(base@, start + k, p + 1)) by {
                let n = start + k;
                if struck_below(base@, n, p + 1) && !struck_below(base@, n, p as int) {
                    let q = choose|q: int|
                        2 <= q < p + 1 && q < base@.len() && base@[q] && #[trigger] divides(q, n);
                    assert(q == p);
                }
                if base@[p as int] && divides(p as int, n) {
                    assert(struck_below(base@, n, p + 1));
                }
            }
        }
        p = p + 1;
    }
    proof {
        assert forall|k: int| 0 <= k < len implies #[trigger] v@[k] == segment_flags(
            base@,
            start as int,
            len as nat,
        )[k] by {
            assert(struck_below(base@, start + k, p as int) == struck(base@, start + k));
        }
    }
    assert(v@ =~= segment_flags(base@, start as int, len as nat));
    v
}

/// The primality table of `[0, max)` with one `bool` per number, by the same
/// bootstrapped segmented sieve as the packed table: a bound within one page
/// is sieved directly; above that the primes up to a little past the square
/// root are obtained first (by a one-page sieve when that reaches far
/// enough, else by the same procedure on the smaller bound), and the rest is
/// sieved in segments whose length depends on `thread_count`.
pub fn segmented_bool_sieve(max: usize, thread_count: usize, page_size: usize) -> (r: Vec<bool>)
    requires
        thread_count > 0,
        page_size >= 3 || max <= page_size,
    ensures
        r@ == primality_below(max as nat),
    decreases max,
{
    if max <= page_size {
        if max == 0 {
            let r: Vec<bool> = Vec::new();
            assert(r@ =~= primality_below(0));
            return r;
        }
        return sieve((max - 1) as u64);
    }
    let small_primes = if page_size > max / page_size {
        sieve((page_size - 1) as u64)
    } else {
        proof {
            lemma_square_vs_quotient(page_size as int, max as int);
        }
        let inner = inner_bound(max, page_size);
        segmented_bool_sieve(inner, thread_count, page_size)
    };
    let base_len = small_primes.len();
    proof {
        lemma_square_vs_quotient(page_size as int, max as int);
    }
    let seg = segment_length(max, thread_count, page_size);
    let mut result = small_primes.clone();
    assert(result@ =~= small_primes@);
    let mut start = base_len;
    assert(small_primes@ + segment_flags(small_primes@, base_len as int, 0) =~= small_primes@);
    while start < max
        invariant
            base_len == small_primes@.len(),
            base_len <= start <= max,
            seg > 0,
            result@ == small_primes@ + segment_flags(
                small_primes@,
                base_len as int,
                (start - base_len) as nat,
            ),
        decreases max - start,
    {
        let end = if max - start > seg {
            start + seg
        } else {
            max
        };
        let mut v = sieve_segment_bools(&small_primes, start, end);
        result.append(&mut v);
        assert(result@ =~= small_primes@ + segment_flags(
            small_primes@,
            base_len as int,
            (end - base_len) as nat,
        ));
        start = end;
    }
    proof {
        lemma_segment_is_primality(base_len as nat, base_len as int, max as int);
    }
    assert(result@ =~= primality_below(max as nat));
    result
}

} // verus!
