use crate::bool_segmented::sieve_segment_bools;
use crate::primality::{lemma_square_vs_quotient, primality_below};
use crate::segmented::{lemma_segment_is_primality, segment_flags};
use crate::sieve::sieve;
use vstd::arithmetic::div_mod::lemma_fundamental_div_mod;
use vstd::prelude::*;

verus! {

/// The slice length of an equal split of `[0, max)` into a base and
/// `thread_count` segments: `max / (thread_count + 1)`, rounded up.
pub open spec fn equal_slice(max: int, thread_count: int) -> int {
    (max + thread_count) / (thread_count + 1)
}

/// At every level of the equal split of `[0, max)` the base slice holds at
/// least `thread_count + 1` numbers, so that its primes reach the square
/// root of everything the level sieves.
pub open spec fn equal_split_sound(max: int, thread_count: int) -> bool
    decreases max,
{
    if max <= 100 {
        max >= 1
    } else {
        let s = equal_slice(max, thread_count);
        thread_count >= 0 && thread_count + 1 <= s && s < max && equal_split_sound(
            s,
            thread_count,
        )
    }
}

/// The length of the table that the equal split of `[0, max)` produces: a
/// whole number of slices.
pub open spec fn equal_split_len(max: int, thread_count: int) -> int {
    if max <= 100 {
        max
    } else {
        (thread_count + 1) * equal_slice(max, thread_count)
    }
}

/// The slice length of the page-aligned split of `[0, max)`: the equal
/// slice, rounded up past a multiple of `init_size`.
pub open spec fn aligned_slice(max: int, thread_count: int, init_size: int) -> int {
    (equal_slice(max, thread_count) + init_size) / init_size * init_size
}

/// At every level of the aligned split of `[0, max)` the base slice is
/// smaller than the level and holds at least `thread_count + 1` numbers.
pub open spec fn aligned_split_sound(max: int, thread_count: int, init_size: int) -> bool
    decreases max,
{
    if max <= init_size {
        max >= 1
    } else {
        let s = aligned_slice(max, thread_count, init_size);
        thread_count >= 0 && thread_count + 1 <= s && s < max && (s * s <= max
            || aligned_split_sound(
            s,
            thread_count,
            init_size,
        ))
    }
}

/// The length of the table that the aligned split of `[0, max)` produces.
pub open spec fn aligned_split_len(max: int, thread_count: int, init_size: int) -> int {
    if max <= init_size {
        max
    } else {
        (thread_count + 1) * aligned_slice(max, thread_count, init_size)
    }
}

/// Whether the equal split of `[0, max)` over `thread_count` workers is
/// accepted: at least one worker, no overflow, and a wide enough base at
/// every level.
pub fn equal_split_accepts(max: usize, thread_count: usize) -> (r: bool)
    ensures
        r == (thread_count >= 1 && max + thread_count <= usize::MAX && equal_split_sound(
            max as int,
            thread_count as int,
        )),
    decreases max,
{
    if thread_count == 0 || max > usize::MAX - thread_count {
        return false;
    }
    if max <= 100 {
        return max >= 1;
    }
    let s = (max + thread_count) / (thread_count + 1);
    thread_count + 1 <= s && s < max && equal_split_accepts(s, thread_count)
}

/// Whether the aligned split of `[0, max)` over `thread_count` workers with
/// `init_size` is accepted: at least one worker, a positive `init_size`, no
/// overflow, and at every level a base smaller than the level and wide
/// enough.
pub fn aligned_split_accepts(max: usize, thread_count: usize, init_size: usize) -> (r: bool)
    ensures
        r == (thread_count >= 1 && init_size >= 1 && (thread_count + 1) * (max + thread_count
            + init_size) <= usize::MAX && aligned_split_sound(
            max as int,
            thread_count as int,
            init_size as int,
        )),
    decreases max,
{
    if thread_count == 0 || init_size == 0 {
        return false;
    }
    if thread_count == usize::MAX || max > usize::MAX - thread_count || max + thread_count
        > usize::MAX - init_size {
        assert((thread_count + 1) * (max + thread_count + init_size) > usize::MAX) by (
        nonlinear_arith)
            requires
                thread_count >= 1,
                max + thread_count + init_size > usize::MAX || thread_count == usize::MAX,
                max >= 0,
                init_size >= 1,
        ;
        return false;
    }
    let total = max + thread_count + init_size;
    if total > usize::MAX / (thread_count + 1) {
        proof {
            lemma_fundamental_div_mod(usize::MAX as int, thread_count + 1);
            assert((thread_count + 1) * total > usize::MAX) by (nonlinear_arith)
                requires
                    total > usize::MAX as int / (thread_count + 1),
                    usize::MAX as int == (thread_count + 1) * (usize::MAX as int / (thread_count
                        + 1)) + usize::MAX as int % (thread_count + 1),
                    usize::MAX as int % (thread_count + 1) < thread_count + 1,
                    thread_count + 1 > 0,
            ;
        }
        return false;
    }
    proof {
        lemma_fundamental_div_mod(usize::MAX as int, thread_count + 1);
        assert((thread_count + 1) * total <= usize::MAX) by (nonlinear_arith)
            requires
                total <= usize::MAX as int / (thread_count + 1),
                usize::MAX as int == (thread_count + 1) * (usize::MAX as int / (thread_count + 1))
                    + usize::MAX as int % (thread_count + 1),
                usize::MAX as int % (thread_count + 1) >= 0,
                thread_count + 1 > 0,
        ;
    }
    if max <= init_size {
        return max >= 1;
    }
    proof {
        lemma_fundamental_div_mod(max + thread_count, thread_count + 1);
        assert(equal_slice(max as int, thread_count as int) <= max + thread_count) by (
        nonlinear_arith)
            requires
                max + thread_count == (thread_count + 1) * equal_slice(
                    max as int,
                    thread_count as int,
                ) + (max + thread_count) % (thread_count + 1),
                (max + thread_count) % (thread_count + 1) >= 0,
                equal_slice(max as int, thread_count as int) >= 0,
                thread_count >= 1,
        ;
    }
    let e = (max + thread_count) / (thread_count + 1);
    proof {
        lemma_round_up_past(e as int, init_size as int);
    }
    let s = (e + init_size) / init_size * init_size;
    if !(thread_count + 1 <= s && s < max) {
        return false;
    }
    proof {
        lemma_square_vs_quotient(s as int, max as int);
        assert((thread_count + 1) * (s + thread_count + init_size) <= (thread_count + 1) * total)
            by (nonlinear_arith)
            requires
                s < max,
                total == max + thread_count + init_size,
                thread_count >= 0,
        ;
    }
    s <= max / s || aligned_split_accepts(s, thread_count, init_size)
}

/// `thread_count + 1` slices of the rounded-up share cover `x`.
proof fn lemma_slices_cover(x: int, thread_count: int, slice: int)
    requires
        x >= 0,
        thread_count >= 0,
        slice >= equal_slice(x, thread_count),
    ensures
        (thread_count + 1) * slice >= x,
{
    let d = thread_count + 1;
    lemma_fundamental_div_mod(x + thread_count, d);
    let q = (x + thread_count) / d;
    assert(d * slice >= x) by (nonlinear_arith)
        requires
            x + thread_count == d * q + (x + thread_count) % d,
            (x + thread_count) % d < d,
            d == thread_count + 1,
            slice >= q,
            d > 0,
    ;
}

/// `(x + m) / m * m` lies above `x` and no further than `x + m`.
proof fn lemma_round_up_past(x: int, m: int)
    requires
        x >= 0,
        m > 0,
    ensures
        x < (x + m) / m * m <= x + m,
{
    lemma_fundamental_div_mod(x + m, m);
    let q = (x + m) / m;
    assert(x < q * m <= x + m) by (nonlinear_arith)
        requires
            x + m == m * q + (x + m) % m,
            0 <= (x + m) % m < m,
    ;
}

/// The table of `[0, (thread_count + 1) * slice)`: `base`, the table of
/// `[0, slice)`, followed by `thread_count` segments of `slice` numbers
/// each, sieved with it and appended in ascending order.
fn sieve_slices(base: Vec<bool>, slice: usize, thread_count: usize) -> (r: Vec<bool>)
    requires
        base@ == primality_below(slice as nat),
        thread_count + 1 <= slice,
        (thread_count + 1) * slice <= usize::MAX,
    ensures
        r@ == primality_below(((thread_count + 1) * slice) as nat),
{
    let mut result = base.clone();
    assert(result@ =~= base@);
    assert(base@ + segment_flags(base@, slice as int, 0) =~= base@);
    let mut idx: usize = 1;
    while idx <= thread_count
        invariant
            base@ == primality_below(slice as nat),
            thread_count + 1 <= slice,
            (thread_count + 1) * slice <= usize::MAX,
            1 <= idx <= thread_count + 1,
            result@ == base@ + segment_flags(base@, slice as int, ((idx - 1) * slice) as nat),
        decreases thread_count + 1 - idx,
    {
        proof {
            assert((idx + 1) * slice <= (thread_count + 1) * slice) by (nonlinear_arith)
                requires
                    idx <= thread_count,
                    slice >= 0,
            ;
            assert(idx * slice + slice == (idx + 1) * slice) by (nonlinear_arith);
            assert(slice + (idx - 1) * slice == idx * slice) by (nonlinear_arith);
            assert(slice + idx * slice == (idx + 1) * slice) by (nonlinear_arith);
        }
        let start = idx * slice;
        let mut v = sieve_segment_bools(&base, start, start + slice);
        result.append(&mut v);
        assert(result@ =~= base@ + segment_flags(base@, slice as int, (idx * slice) as nat));
        idx = idx + 1;
    }
    proof {
        assert((thread_count + 1) * slice <= slice * slice) by (nonlinear_arith)
            requires
                thread_count + 1 <= slice,
        ;
        assert(slice + thread_count * slice == (thread_count + 1) * slice) by (nonlinear_arith);
        lemma_segment_is_primality(slice as nat, slice as int, (thread_count + 1) * slice);
    }
    assert(result@ =~= primality_below(((thread_count + 1) * slice) as nat));
    result
}

/// The primality table by a recursive split of `[0, max)` into
/// `thread_count + 1` equal slices: the first is the table of the next
/// level down (sieved directly up to 100), the others are sieved with it.
/// The table covers every whole slice, so it may reach past `max`.
pub fn recursive_primes_equal_slices(max: usize, thread_count: usize) -> (r: Vec<bool>)
    requires
        thread_count >= 1,
        max + thread_count <= usize::MAX,
        equal_split_sound(max as int, thread_count as int),
    ensures
        r@ == primality_below(equal_split_len(max as int, thread_count as int) as nat),
    decreases max,
{
    if max <= 100 {
        return sieve((max - 1) as u64);
    }
    let slice_size = (max + thread_count) / (thread_count + 1);
    let mut small_primes = recursive_primes_equal_slices(slice_size, thread_count);
    proof {
        if slice_size > 100 {
            let inner = equal_slice(slice_size as int, thread_count as int);
            lemma_slices_cover(slice_size as int, thread_count as int, inner);
        }
        lemma_fundamental_div_mod(max + thread_count, thread_count + 1);
        assert((thread_count + 1) * slice_size <= max + thread_count) by (nonlinear_arith)
            requires
                max + thread_count == (thread_count + 1) * slice_size + (max + thread_count) % (
                thread_count + 1),
                (max + thread_count) % (thread_count + 1) >= 0,
        ;
    }
    small_primes.truncate(slice_size);
    assert(small_primes@ =~= primality_below(slice_size as nat));
    sieve_slices(small_primes, slice_size, thread_count)
}

/// The primality table by a recursive split of `[0, max)` into
/// `thread_count + 1` slices whose length is rounded up past a multiple of
/// `init_size`: the first is the table of the next level down (sieved
/// directly when the slice is small against `max`, or when `max` is within
/// `init_size`), the others are sieved with it.  The table covers every
/// whole slice, so it may reach past `max`.
pub fn recursive_primes_aligned_slices(max: usize, thread_count: usize, init_size: usize) -> (r:
    Vec<bool>)
    requires
        thread_count >= 1,
        init_size >= 1,
        (thread_count + 1) * (max + thread_count + init_size) <= usize::MAX,
        aligned_split_sound(max as int, thread_count as int, init_size as int),
    ensures
        r@ == primality_below(
            aligned_split_len(max as int, thread_count as int, init_size as int) as nat,
        ),
    decreases max,
{
    if max <= init_size {
        return sieve((max - 1) as u64);
    }
    let ghost t = thread_count as int;
    let ghost d = init_size as int;
    proof {
        assert(max + thread_count + init_size <= (thread_count + 1) * (max + thread_count
            + init_size)) by (nonlinear_arith)
            requires
                thread_count >= 1,
                max + thread_count + init_size >= 0,
        ;
        lemma_fundamental_div_mod(max + thread_count, thread_count + 1);
        assert(equal_slice(max as int, t) <= max + thread_count) by (nonlinear_arith)
            requires
                max + thread_count == (thread_count + 1) * equal_slice(max as int, t) + (max
                    + thread_count) % (thread_count + 1),
                (max + thread_count) % (thread_count + 1) >= 0,
                equal_slice(max as int, t) >= 0,
                thread_count >= 1,
        ;
    }
    let slice_size = (max + thread_count) / (thread_count + 1);
    proof {
        lemma_round_up_past(slice_size as int, d);
    }
    let slice_size = (slice_size + init_size) / init_size * init_size;
    proof {
        lemma_square_vs_quotient(slice_size as int, max as int);
    }
    let mut small_primes = if slice_size <= max / slice_size {
        sieve((slice_size - 1) as u64)
    } else {
        proof {
            assert((thread_count + 1) * (slice_size + thread_count + init_size) <= (thread_count
                + 1) * (max + thread_count + init_size)) by (nonlinear_arith)
                requires
                    slice_size < max,
                    thread_count >= 0,
            ;
            let s = slice_size as int;
            if s > d {
                lemma_round_up_past(equal_slice(s, t), d);
                lemma_slices_cover(s, t, aligned_slice(s, t, d));
            }
        }
        recursive_primes_aligned_slices(slice_size, thread_count, init_size)
    };
    proof {
        assert((thread_count + 1) * slice_size <= (thread_count + 1) * (max + thread_count
            + init_size)) by (nonlinear_arith)
            requires
                slice_size <= max + thread_count + init_size,
                thread_count >= 0,
        ;
    }
    small_primes.truncate(slice_size);
    assert(small_primes@ =~= primality_below(slice_size as nat));
    sieve_slices(small_primes, slice_size, thread_count)
}

} // verus!
