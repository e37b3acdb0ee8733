use crate::packed_bits::PackedBits;
use crate::primality::{
    divides, is_prime, lemma_divides_trans, lemma_one_multiple_in_window, lemma_prime_factor, lemma_square_vs_quotient,
    primality_below,
};
use crate::sieve::packed_sieve;
use vstd::arithmetic::div_mod::{
    lemma_fundamental_div_mod, lemma_mod_add_multiples_vanish, lemma_mod_multiples_basic,
};
use vstd::prelude::*;

verus! {

/// Some flagged entry `p` of `base` with `2 <= p < limit` divides `n`.
pub open spec fn struck_below(base: Seq<bool>, n: int, limit: int) -> bool {
    exists|p: int| 2 <= p < limit && p < base.len() && base[p] && #[trigger] divides(p, n)
}

/// Some flagged entry of `base` from 2 on divides `n`.
pub open spec fn struck(base: Seq<bool>, n: int) -> bool {
    struck_below(base, n, base.len() as int)
}

/// The flags of the numbers `[start, start + len)` after every multiple of
/// every flagged entry of `base` (from 2 on) has been crossed out, with 0 and
/// 1 crossed out as well.
pub open spec fn segment_flags(base: Seq<bool>, start: int, len: nat) -> Seq<bool> {
    Seq::new(len, |k: int| start + k >= 2 && !struck(base, start + k))
}

/// No multiple of `p` lies in `[start, first)`, where `first` is the least
/// multiple of `p` at or above `start`.
pub(crate) proof fn lemma_first_multiple(p: int, start: int, n: int)
    requires
        p > 0,
        start >= 0,
        start <= n < start + (if start % p == 0 {
            0
        } else {
            p - start % p
        }),
    ensures
        !divides(p, n),
{
    lemma_fundamental_div_mod(start, p);
    let below = start - start % p;
    lemma_mod_multiples_basic(start / p, p);
    assert(below == (start / p) * p) by (nonlinear_arith)
        requires
            start == p * (start / p) + start % p,
            below == start - start % p,
    ;
    if divides(p, n) {
        lemma_one_multiple_in_window(p, below, n);
    }
}

/// Sieves the numbers `[start, end)` with the flagged entries of `base`:
/// entry `k` of the result is set exactly when `start + k` is at least 2 and
/// no flagged `p >= 2` of `base` divides it.
pub fn sieve_segment(base: &PackedBits, start: usize, end: usize) -> (r: PackedBits)
    requires
        base.wf(),
        start <= end,
    ensures
        r.wf(),
        r@ == segment_flags(base@, start as int, (end - start) as nat),
{
    let len = end - start;
    let mut v = PackedBits::new_set(len, true);
    if start == 0 && len > 0 {
        v.clear(0);
    }
    if start <= 1 && 1 - start < len {
        v.clear(1 - start);
    }
    let blen = base.len();
    let mut p: usize = 2;
    while p < blen
        invariant
            base.wf(),
            v.wf(),
            blen == base@.len(),
            v@.len() == len,
            len == end - start,
            start <= end,
            2 <= p,
            forall|k: int|
                0 <= k < len ==> #[trigger] v@[k] == (start + k >= 2 && !struck_below(
                    base@,
                    start + k,
                    p as int,
                )),
        decreases blen - p,
    {
        if base.is_set(p) {
            let rem = start % p;
            let gap = if rem == 0 {
                0
            } else {
                p - rem
            };
            proof {
                assert forall|k: int|
                    0 <= k < len && start + k < start + gap implies !#[trigger] divides(
                        p as int,
                        start + k,
                    ) by {
                    lemma_first_multiple(p as int, start as int, start + k);
                }
            }
            if gap < len {
                let mut i: usize = start + gap;
                proof {
                    lemma_fundamental_div_mod(start as int, p as int);
                    lemma_mod_multiples_basic(start as int / p as int, p as int);
                    if rem != 0 {
                        assert((start - rem) as int == (start as int / p as int) * p) by (
                        nonlinear_arith)
                            requires
                                start as int == p * (start as int / p as int) + rem,
                        ;
                        lemma_mod_add_multiples_vanish((start - rem) as int, p as int);
                    }
                }
                loop
                    invariant_except_break
                        forall|k: int|
                            0 <= k < len ==> #[trigger] v@[k] == (start + k >= 2 && !struck_below(
                                base@,
                                start + k,
                                p as int,
                            ) && !(start + k < i && divides(p as int, start + k))),
                    invariant
                        base.wf(),
                        v.wf(),
                        blen == base@.len(),
                        v@.len() == len,
                        len == end - start,
                        start <= i < end,
                        2 <= p < blen,
                        base@[p as int],
                        divides(p as int, i as int),
                    ensures
                        v.wf(),
                        v@.len() == len,
                        forall|k: int|
                            0 <= k < len ==> #[trigger] v@[k] == (start + k >= 2 && !struck_below(
                                base@,
                                start + k,
                                p as int,
                            ) && !divides(p as int, start + k)),
                    decreases end - i,
                {
                    v.clear(i - start);
                    proof {
                        assert forall|k: int|
                            0 <= k < len && i <= start + k < i + p && #[trigger] divides(
                                p as int,
                                start + k,
                            ) implies start + k == i by {
                            lemma_one_multiple_in_window(p as int, i as int, start + k);
                        }
                    }
                    if end - i <= p {
                        break;
                    }
                    proof {
                        lemma_mod_add_multiples_vanish(i as int, p as int);
                    }
                    i = i + p;
                }
            }
        }
        proof {
            assert forall|k: int| 0 <= k < len implies #[trigger] v@[k] == (start + k >= 2
                && !struck_below(base@, start + k, p + 1)) by {
                let n = start + k;
                if struck_below(base@, n, p + 1) && !struck_below(base@, n, p as int) {
                    let q = choose|q: int|
                        2 <= q < p + 1 && q < base@.len() && base@[q] && #[trigger] divides(q, n);
                    assert(q == p);
                }
                if base@[p as int] && divides(p as int, n) {
                    assert(struck_below(base@, n, p + 1));
                }
            }
        }
        p = p + 1;
    }
    proof {
        assert forall|k: int| 0 <= k < len implies #[trigger] v@[k] == segment_flags(
            base@,
            start as int,
            len as nat,
        )[k] by {
            assert(struck_below(base@, start + k, p as int) == struck(base@, start + k));
        }
    }
    assert(v@ =~= segment_flags(base@, start as int, len as nat));
    v
}

/// Sieving `[start, end)` with a complete primality table of `[0, b)`, where
/// `b <= start` and `end <= b * b`, gives the primality table of that range.
pub proof fn lemma_segment_is_primality(b: nat, start: int, end: int)
    requires
        b <= start <= end,
        end <= b * b,
    ensures
        segment_flags(primality_below(b), start, (end - start) as nat) == primality_below(
            end as nat,
        ).subrange(start, end),
{
    let base = primality_below(b);
    assert forall|k: int| 0 <= k < end - start implies #[trigger] segment_flags(
        base,
        start,
        (end - start) as nat,
    )[k] == is_prime(start + k) by {
        let n = start + k;
        if is_prime(n) && struck(base, n) {
            let q = choose|q: int| 2 <= q < base.len() && base[q] && #[trigger] divides(q, n);
            assert(q < n);
        }
        if n >= 2 && !is_prime(n) {
            let p = lemma_prime_factor(n);
            assert(p < b) by (nonlinear_arith)
                requires
                    p * p <= n,
                    n < end,
                    end <= b * b,
                    p >= 2,
            ;
            assert(base[p]);
            assert(struck(base, n));
        }
    }
    assert(segment_flags(base, start, (end - start) as nat) =~= primality_below(
        end as nat,
    ).subrange(start, end));
}

/// The largest `r` with `r * r <= n`.
pub(crate) fn floor_sqrt(n: usize) -> (r: usize)
    ensures
        r * r <= n < (r + 1) * (r + 1),
{
    let mut lo: usize = 0;
    let mut hi: usize = n / 2 + 2;
    assert(n < hi * hi) by (nonlinear_arith)
        requires
            hi == n / 2 + 2,
            n < 2 * (n / 2) + 2,
    ;
    while hi - lo > 1
        invariant
            lo < hi,
            lo * lo <= n,
            n < hi * hi,
        decreases hi - lo,
    {
        let mid = lo + (hi - lo) / 2;
        proof {
            lemma_square_vs_quotient(mid as int, n as int);
        }
        if mid <= n / mid {
            lo = mid;
        } else {
            hi = mid;
        }
    }
    lo
}

/// The bound of the next smaller level: the least multiple of `page_size`
/// above the integer square root of `bound`.
pub(crate) fn inner_bound(bound: usize, page_size: usize) -> (r: usize)
    requires
        page_size >= 3,
        page_size * page_size <= bound,
    ensures
        r % page_size == 0,
        page_size <= r < bound,
        bound < r * r,
{
    let root = floor_sqrt(bound);
    assert(page_size <= root) by (nonlinear_arith)
        requires
            page_size * page_size <= bound,
            bound < (root + 1) * (root + 1),
            page_size >= 0,
            root >= 0,
    ;
    let q = root / page_size;
    proof {
        lemma_fundamental_div_mod(root as int, page_size as int);
        assert(q * page_size <= root < q * page_size + page_size) by (nonlinear_arith)
            requires
                root == page_size * q + root % page_size,
                0 <= root % page_size < page_size,
        ;
        assert(root + root <= root * root) by (nonlinear_arith)
            requires
                root >= 3,
        ;
    }
    let r = q * page_size + page_size;
    proof {
        lemma_mod_multiples_basic(q as int + 1, page_size as int);
        assert(r == (q + 1) * page_size) by (nonlinear_arith)
            requires
                r == q * page_size + page_size,
        ;
        assert(r < bound) by (nonlinear_arith)
            requires
                r <= root + page_size,
                page_size <= root,
                page_size >= 3,
                root * root <= bound,
        ;
        assert(bound < r * r) by (nonlinear_arith)
            requires
                root < r,
                bound < (root + 1) * (root + 1),
        ;
    }
    r
}

/// The length of the segments that extend a table towards `bound`: about an
/// eighth of `bound` per worker, rounded up past a multiple of `page_size`;
/// one page where that would make a single segment of exactly `bound`.
pub(crate) fn segment_length(bound: usize, thread_count: usize, page_size: usize) -> (r: usize)
    requires
        thread_count > 0,
        0 < page_size < bound,
    ensures
        r > 0,
        r % page_size == 0 || r == bound,
{
    let per_worker = bound / thread_count / 8;
    proof {
        lemma_fundamental_div_mod(per_worker as int, page_size as int);
        assert((per_worker / page_size) * page_size <= per_worker) by (nonlinear_arith)
            requires
                per_worker == page_size * (per_worker / page_size) + per_worker % page_size,
                0 <= per_worker % page_size,
        ;
    }
    let q = per_worker / page_size * page_size;
    proof {
        lemma_mod_multiples_basic((per_worker / page_size) as int, page_size as int);
    }
    if q >= bound - page_size {
        if q == bound - page_size {
            proof {
                lemma_mod_multiples_basic(1, page_size as int);
            }
            page_size
        } else {
            bound
        }
    } else {
        proof {
            lemma_mod_add_multiples_vanish(q as int, page_size as int);
        }
        q + page_size
    }
}

/// Extends `base` to the flags of `[0, bound)`: the numbers from
/// `base@.len()` on are sieved in segments with the flagged entries of `base`
/// and appended in ascending order.
pub fn extend(base: PackedBits, bound: usize, thread_count: usize, page_size: usize) -> (r:
    PackedBits)
    requires
        base.wf(),
        base@.len() <= bound,
        base@.len() % 64 == 0,
        thread_count > 0,
        page_size > 0,
        page_size % 64 == 0,
    ensures
        r.wf(),
        r@ == base@ + segment_flags(base@, base@.len() as int, (bound - base@.len()) as nat),
{
    let base_len = base.len();
    if base_len == bound {
        assert(base@ + segment_flags(base@, base_len as int, 0) =~= base@);
        return base;
    }
    let seg = if page_size < bound {
        segment_length(bound, thread_count, page_size)
    } else {
        bound
    };
    proof {
        if seg % page_size == 0 {
            lemma_divides_trans(64, page_size as int, seg as int);
        }
    }
    let mut result = base.clone();
    let mut start = base_len;
    while start < bound
        invariant
            base.wf(),
            result.wf(),
            base_len == base@.len(),
            base_len <= start <= bound,
            start == bound || start % 64 == 0,
            seg > 0,
            seg % 64 == 0 || seg == bound,
            result@ == base@ + segment_flags(base@, base_len as int, (start - base_len) as nat),
        decreases bound - start,
    {
        let end = if bound - start > seg {
            start + seg
        } else {
            bound
        };
        let mut v = sieve_segment(&base, start, end);
        result.append(&mut v);
        proof {
            if end < bound {
                assert(end % 64 == 0);
            }
        }
        assert(result@ =~= base@ + segment_flags(
            base@,
            base_len as int,
            (end - base_len) as nat,
        ));
        start = end;
    }
    result
}

/// The primality table of `[0, bound)`: flag `i` is set exactly when `i` is
/// prime.  A bound within one page is sieved directly.  Above that, the
/// primes up to a little past the square root of `bound` are obtained first,
/// by the same procedure on a smaller bound (or by sieving a single page when
/// that already reaches far enough), and the rest is sieved in page-aligned
/// segments whose length depends on `thread_count`.  The result does not
/// depend on `thread_count` or `page_size`.
pub fn compute_primality_below(bound: usize, thread_count: usize, page_size: usize) -> (r:
    PackedBits)
    requires
        thread_count > 0,
        page_size > 0,
        bound <= page_size || page_size % 64 == 0,
    ensures
        r.wf(),
        r@ == primality_below(bound as nat),
    decreases bound,
{
    if bound <= page_size {
        if bound == 0 {
            let r = PackedBits::new_set(0, false);
            assert(r@ =~= primality_below(0));
            return r;
        }
        return packed_sieve((bound - 1) as u64);
    }
    let small_primes = if page_size > bound / page_size {
        proof {
            lemma_mod_multiples_basic(1, page_size as int);
        }
        packed_sieve((page_size - 1) as u64)
    } else {
        proof {
            lemma_square_vs_quotient(page_size as int, bound as int);
        }
        let inner = inner_bound(bound, page_size);
        compute_primality_below(inner, thread_count, page_size)
    };
    let ghost b = small_primes@.len();
    proof {
        lemma_square_vs_quotient(page_size as int, bound as int);
        lemma_divides_trans(64, page_size as int, b as int);
        lemma_segment_is_primality(b, b as int, bound as int);
    }
    let r = extend(small_primes, bound, thread_count, page_size);
    assert(r@ =~= primality_below(bound as nat));
    r
}

/// The base sieve over `[0, max]` and the segmented procedure below
/// `max + 1` give the same table, whatever worker count and page size the
/// latter runs with (one worker and a single page of the whole bound among
/// them): segmentation never changes a flag.
pub proof fn lemma_base_sieve_matches_segmented(max: u64, bound: usize)
    requires
        max + 1 == bound,
    ensures
        primality_below((max + 1) as nat) == primality_below(bound as nat),
{
}

} // verus!
