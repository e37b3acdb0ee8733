use crate::primality::{
    divides, is_prime, lemma_prime_factor, lemma_sieved_is_prime, lemma_square_vs_quotient, sieved,
};
use vstd::prelude::*;

verus! {

/// Every entry is a prime number.
pub open spec fn all_prime(primes: Seq<u64>) -> bool {
    forall|i: int| 0 <= i < primes.len() ==> is_prime(#[trigger] primes[i] as int)
}

/// No entry before position `i` has a square above `n`: trial division of
/// `n` by the entries in order is still running at `i`.
pub open spec fn reached(primes: Seq<u64>, n: int, i: int) -> bool {
    forall|j: int| 0 <= j < i ==> #[trigger] primes[j] * primes[j] <= n
}

/// Trial division of `n` by the entries of `primes` in order, stopping at the
/// first entry whose square exceeds `n`, meets every prime whose square does
/// not exceed `n`.
pub open spec fn covers(primes: Seq<u64>, n: int) -> bool {
    forall|p: int|
        #![trigger is_prime(p)]
        is_prime(p) && p * p <= n ==> exists|i: int|
            0 <= i < primes.len() && primes[i] == p && reached(primes, n, i)
}

/// The numbers `start, start + 2, start + 4, ...` below `end`.
pub open spec fn odd_steps(start: int, end: int) -> Seq<u64> {
    Seq::new(
        if end > start {
            ((end - start + 1) / 2) as nat
        } else {
            0
        },
        |k: int| (start + 2 * k) as u64,
    )
}

/// The primes among `start, start + 2, start + 4, ...` below `end`, in
/// ascending order.
pub open spec fn primes_on_steps(start: int, end: int) -> Seq<u64> {
    odd_steps(start, end).filter(|x: u64| is_prime(x as int))
}

proof fn lemma_two_and_three_prime(n: int)
    requires
        n == 2 || n == 3,
    ensures
        is_prime(n),
{
    assert forall|d: int| 2 <= d < n implies !#[trigger] divides(d, n) by {
        assert(d == 2);
    }
}

/// Whether `n` is prime, by trial division with the primes of `small_primes`
/// taken in order up to the first whose square exceeds `n`.
fn passes_trial_division(n: u64, small_primes: &[u64]) -> (r: bool)
    requires
        n > 3,
        all_prime(small_primes@),
        covers(small_primes@, n as int),
    ensures
        r == is_prime(n as int),
{
    let mut i: usize = 0;
    while i < small_primes.len()
        invariant
            n > 3,
            all_prime(small_primes@),
            covers(small_primes@, n as int),
            i <= small_primes@.len(),
            reached(small_primes@, n as int, i as int),
            forall|j: int| 0 <= j < i ==> !divides(#[trigger] small_primes@[j] as int, n as int),
        ensures
            reached(small_primes@, n as int, i as int),
            forall|j: int| 0 <= j < i ==> !divides(#[trigger] small_primes@[j] as int, n as int),
            i == small_primes@.len() || small_primes@[i as int] * small_primes@[i as int] > n,
        decreases small_primes@.len() - i,
    {
        let p = small_primes[i];
        proof {
            assert(is_prime(small_primes@[i as int] as int));
            lemma_square_vs_quotient(p as int, n as int);
        }
        if p > n / p {
            break;
        }
        if n % p == 0 {
            proof {
                assert(p < n) by (nonlinear_arith)
                    requires
                        p * p <= n,
                        p >= 2,
                ;
                assert(divides(p as int, n as int));
            }
            return false;
        }
        i = i + 1;
    }
    proof {
        if !is_prime(n as int) {
            let f = lemma_prime_factor(n as int);
            let k = choose|k: int|
                0 <= k < small_primes@.len() && small_primes@[k] == f && reached(
                    small_primes@,
                    n as int,
                    k,
                );
            if k >= i {
                assert(small_primes@[i as int] * small_primes@[i as int] <= n);
            }
            assert(!divides(small_primes@[k] as int, n as int));
        }
    }
    true
}

/// The slow baseline test: 1 when `n` is prime and also for every `n` up to
/// 3, else 0, by trial division with every number whose square does not
/// exceed `n`.
pub fn is_prime1(n: u64) -> (r: u64)
    ensures
        r == if n <= 3 || is_prime(n as int) {
            1u64
        } else {
            0u64
        },
{
    if n <= 3 {
        return 1;
    }
    let mut i: u64 = 2;
    while i <= n / i
        invariant
            n > 3,
            2 <= i,
            sieved(n as int, i as int),
        decreases n - i,
    {
        proof {
            lemma_square_vs_quotient(i as int, n as int);
            assert(i < n) by (nonlinear_arith)
                requires
                    i * i <= n,
                    i >= 2,
            ;
        }
        if n % i == 0 {
            assert(divides(i as int, n as int));
            return 0;
        }
        i = i + 1;
    }
    proof {
        lemma_square_vs_quotient(i as int, n as int);
        lemma_sieved_is_prime(n as int, i as int);
    }
    1
}

/// Pushes `n` onto `v` when it is prime, deciding by trial division with
/// `small_primes`.
pub fn is_prime_store(n: u64, small_primes: &[u64], v: &mut Vec<u64>)
    requires
        all_prime(small_primes@),
        n <= 3 || covers(small_primes@, n as int),
    ensures
        final(v)@ == if is_prime(n as int) {
            old(v)@.push(n)
        } else {
            old(v)@
        },
{
    if n <= 1 {
        return;
    }
    if n <= 3 {
        proof {
            lemma_two_and_three_prime(n as int);
        }
        v.push(n);
        return;
    }
    if passes_trial_division(n, small_primes) {
        v.push(n);
    }
}

/// The primes among `start, start + 2, start + 4, ...` below `end`, by trial
/// division with `small_primes`.
pub fn prime_slice(small_primes: &[u64], start: u64, end: u64) -> (r: Vec<u64>)
    requires
        all_prime(small_primes@),
        forall|n: int|
            start <= n < end ==> n <= 3 || #[trigger] covers(small_primes@, n),
    ensures
        r@ == primes_on_steps(start as int, end as int),
{
    let mut v: Vec<u64> = Vec::new();
    if start >= end {
        assert(odd_steps(start as int, end as int) =~= Seq::<u64>::empty());
        assert(v@ =~= primes_on_steps(start as int, end as int)) by {
            reveal(Seq::filter);
        }
        return v;
    }
    let mut i: u64 = start;
    proof {
        assert(odd_steps(start as int, i as int) =~= Seq::<u64>::empty());
        reveal(Seq::filter);
    }
    loop
        invariant_except_break
            v@ == primes_on_steps(start as int, i as int),
        invariant
            all_prime(small_primes@),
            forall|n: int|
                start <= n < end ==> n <= 3 || #[trigger] covers(small_primes@, n),
            start <= i < end,
            (i - start) % 2 == 0,
        ensures
            v@ == primes_on_steps(start as int, end as int),
        decreases end - i,
    {
        let ghost prev = odd_steps(start as int, i as int);
        is_prime_store(i, small_primes, &mut v);
        proof {
            assert(odd_steps(start as int, i + 2) =~= prev.push(i));
            prev.lemma_filter_push(i, |x: u64| is_prime(x as int));
        }
        if end - i <= 2 {
            assert(odd_steps(start as int, end as int) =~= odd_steps(start as int, i + 2));
            break;
        }
        i = i + 2;
    }
    v
}

/// A memo of primes for trial division, grown as larger numbers are tested.
pub struct Primes3 {
    primes: Vec<u64>,
}

impl View for Primes3 {
    type V = Seq<u64>;

    closed spec fn view(&self) -> Seq<u64> {
        self.primes@
    }
}

impl Primes3 {
    /// Every number in the memo is prime.
    pub closed spec fn wf(&self) -> bool {
        all_prime(self.primes@)
    }

    /// A memo of the primes below 15.
    pub fn new() -> (r: Primes3)
        ensures
            r.wf(),
            r@ == seq![2u64, 3, 5, 7, 11, 13],
    {
        let r = Primes3 { primes: vec![2, 3, 5, 7, 11, 13] };
        assert forall|i: int| 0 <= i < r.primes@.len() implies is_prime(
            #[trigger] r.primes@[i] as int,
        ) by {
            let p = r.primes@[i] as int;
            assert forall|d: int| 2 <= d < p implies !#[trigger] divides(d, p) by {
                assert(2 <= d <= 12);
                assert(d == 2 || d == 3 || d == 4 || d == 5 || d == 6 || d == 7 || d == 8 || d
                    == 9 || d == 10 || d == 11 || d == 12);
            }
        }
        assert(r@ =~= seq![2u64, 3, 5, 7, 11, 13]);
        r
    }

    /// 1 if `n` is prime, and then `n` joins the memo; else 0.  Above 3 the
    /// memo has to cover `n`: every prime whose square does not exceed `n`
    /// must come before the first entry whose square does.
    pub fn to_prime_mut(&mut self, n: u64) -> (r: u64)
        requires
            old(self).wf(),
            n <= 3 || covers(old(self)@, n as int),
        ensures
            final(self).wf(),
            r == if is_prime(n as int) {
                1u64
            } else {
                0u64
            },
            final(self)@ == if is_prime(n as int) {
                old(self)@.push(n)
            } else {
                old(self)@
            },
    {
        if n <= 1 {
            return 0;
        }
        if n <= 3 {
            proof {
                lemma_two_and_three_prime(n as int);
            }
            self.primes.push(n);
            return 1;
        }
        let small_primes = self.primes.as_slice();
        assert(small_primes@ == self@);
        if passes_trial_division(n, small_primes) {
            self.primes.push(n);
            1
        } else {
            0
        }
    }

    /// Pushes `n` onto `v` when it is prime, deciding by trial division with
    /// the memo.
    fn is_prime_store(&self, n: u64, v: &mut Vec<u64>)
        requires
            self.wf(),
            n <= 3 || covers(self@, n as int),
        ensures
            final(v)@ == if is_prime(n as int) {
                old(v)@.push(n)
            } else {
                old(v)@
            },
    {
        is_prime_store(n, self.primes.as_slice(), v);
    }

    /// The primes among `start, start + 2, start + 4, ...` below `end`, by
    /// trial division with the memo.
    pub fn prime_slice(&self, start: u64, end: u64) -> (r: Vec<u64>)
        requires
            self.wf(),
            forall|n: int| start <= n < end ==> n <= 3 || #[trigger] covers(self@, n),
        ensures
            r@ == primes_on_steps(start as int, end as int),
    {
        let small_primes = self.primes.as_slice();
        assert(small_primes@ == self@);
        prime_slice(small_primes, start, end)
    }

    /// Moves the primes of `v` onto the end of the memo.
    pub fn prime_slice_store(&mut self, v: &mut Vec<u64>)
        requires
            old(self).wf(),
            all_prime(old(v)@),
        ensures
            final(self).wf(),
            final(self)@ == old(self)@ + old(v)@,
            final(v)@ == Seq::<u64>::empty(),
    {
        self.primes.append(v);
    }
}

} // verus!
