use vstd::prelude::*;

verus! {

/// Whether bit `k` of `w` is set, bit 0 being the least significant.
pub open spec fn word_bit(w: u64, k: int) -> bool {
    (w >> (k as u64)) & 1u64 == 1u64
}

/// Number of set bits among the `k` lowest positions of `w`.
pub open spec fn ones_below(w: u64, k: nat) -> nat
    decreases k,
{
    if k == 0 {
        0
    } else {
        ones_below(w, (k - 1) as nat) + if word_bit(w, k - 1) {
            1nat
        } else {
            0nat
        }
    }
}

/// Number of `true` entries of `s`, counted one position at a time.
pub open spec fn count_true(s: Seq<bool>) -> nat
    decreases s.len(),
{
    if s.len() == 0 {
        0
    } else {
        count_true(s.drop_last()) + if s.last() {
            1nat
        } else {
            0nat
        }
    }
}

proof fn lemma_ones_below_bound(w: u64, k: nat)
    ensures
        ones_below(w, k) <= k,
    decreases k,
{
    if k > 0 {
        lemma_ones_below_bound(w, (k - 1) as nat);
    }
}

proof fn lemma_clear_bit(w: u64, off: u64, k: u64)
    requires
        off < 64,
        k < 64,
    ensures
        k == off ==> ((w & !(1u64 << off)) >> k) & 1u64 == 0u64,
        k != off ==> ((w & !(1u64 << off)) >> k) & 1u64 == (w >> k) & 1u64,
{
    assert(k == off ==> ((w & !(1u64 << off)) >> k) & 1u64 == 0u64) by (bit_vector)
        requires
            off < 64,
            k < 64,
    ;
    assert(k != off ==> ((w & !(1u64 << off)) >> k) & 1u64 == (w >> k) & 1u64) by (bit_vector)
        requires
            off < 64,
            k < 64,
    ;
}

proof fn lemma_test_bit(w: u64, off: u64)
    requires
        off < 64,
    ensures
        ((w & (1u64 << off)) != 0u64) == word_bit(w, off as int),
{
    assert(((w & (1u64 << off)) != 0u64) == ((w >> off) & 1u64 == 1u64)) by (bit_vector)
        requires
            off < 64,
    ;
}

/// Counting the flags of one word, a position at a time, gives the word's
/// count of set bits among those positions.
proof fn lemma_count_word(v: Seq<bool>, w: u64, base: int, k: nat)
    requires
        base % 64 == 0,
        k <= 64,
        0 <= base,
        base + k <= v.len(),
        forall|j: int| base <= j < base + k ==> #[trigger] v[j] == word_bit(w, j - base),
    ensures
        count_true(v.take(base + k)) == count_true(v.take(base)) + ones_below(w, k),
    decreases k,
{
    if k > 0 {
        lemma_count_word(v, w, base, (k - 1) as nat);
        let t = v.take(base + k);
        assert(t.drop_last() =~= v.take(base + k - 1));
        assert(t.last() == v[base + k - 1]);
    }
}

/// Relies on `u64::count_ones` from std: the number of set bits of a word.
#[verifier::external_body]
fn word_ones(w: u64) -> (r: u32)
    ensures
        r as nat == ones_below(w, 64),
{
    w.count_ones()
}

/// A fixed number of boolean flags packed 64 to a word.
///
/// Flag `i` lives in word `i / 64`, at bit `i % 64`.  Bits of the last word
/// past the logical length are never read.
pub struct PackedBits {
    size: usize,
    data: Vec<u64>,
}

impl View for PackedBits {
    type V = Seq<bool>;

    closed spec fn view(&self) -> Seq<bool> {
        Seq::new(self.size as nat, |i: int| word_bit(self.data@[i / 64], i % 64))
    }
}

impl Clone for PackedBits {
    /// A copy holding the same flags.
    fn clone(&self) -> (r: PackedBits)
        ensures
            r.wf() == self.wf(),
            r@ == self@,
    {
        let data = self.data.clone();
        assert(data@ =~= self.data@);
        PackedBits { size: self.size, data }
    }
}

impl PackedBits {
    /// The storage holds exactly as many words as the flags need.
    pub closed spec fn wf(&self) -> bool {
        self.data@.len() == (self.size + 63) / 64
    }

    /// `n` flags, each equal to `initial_state`.
    pub fn new_set(n: usize, initial_state: bool) -> (r: PackedBits)
        ensures
            r.wf(),
            r@ == Seq::new(n as nat, |i: int| initial_state),
    {
        let words: usize = n / 64 + if n % 64 == 0 { 0 } else { 1 };
        let fill: u64 = if initial_state { 0xffff_ffff_ffff_ffff } else { 0 };
        let data: Vec<u64> = vec![fill; words];
        let r = PackedBits { size: n, data };
        assert forall|k: u64| k < 64 implies word_bit(fill, k as int) == initial_state by {
            if initial_state {
                assert((0xffff_ffff_ffff_ffffu64 >> k) & 1u64 == 1u64) by (bit_vector)
                    requires k < 64;
            } else {
                assert((0u64 >> k) & 1u64 == 0u64) by (bit_vector);
            }
        }
        assert forall|i: int| 0 <= i < n implies #[trigger] r@[i] == initial_state by {
            assert(i / 64 < words);
            assert(r.data@[i / 64] == fill);
        }
        assert(r@ =~= Seq::new(n as nat, |i: int| initial_state));
        r
    }

    /// Moves every flag of `other` onto the end of `self`, leaving `other`
    /// empty.  The receiver must end on a word boundary.
    pub fn append(&mut self, other: &mut PackedBits)
        requires
            old(self).wf(),
            old(other).wf(),
            old(self)@.len() % 64 == 0,
            old(self)@.len() + old(other)@.len() <= usize::MAX,
        ensures
            final(self).wf(),
            final(other).wf(),
            final(self)@ == old(self)@ + old(other)@,
            final(other)@ == Seq::<bool>::empty(),
    {
        let ghost s0 = self@;
        let ghost o0 = other@;
        let ghost d0 = self.data@;
        let ghost e0 = other.data@;
        self.size = self.size + other.size;
        other.size = 0;
        self.data.append(&mut other.data);
        assert forall|j: int| 0 <= j < self@.len() implies #[trigger] self@[j] == (s0 + o0)[j] by {
            if j >= s0.len() {
                let k = j - s0.len();
                assert(j / 64 == d0.len() + k / 64);
                assert(j % 64 == k % 64);
                assert(self.data@[j / 64] == e0[k / 64]);
            } else {
                assert(j / 64 < d0.len());
            }
        }
        assert(self@ =~= s0 + o0);
        assert(other@ =~= Seq::<bool>::empty());
    }

    /// Number of flags.
    pub fn len(&self) -> (r: usize)
        ensures
            r == self@.len(),
    {
        self.size
    }

    /// Sets flag `idx` to false.
    pub fn clear(&mut self, idx: usize)
        requires
            old(self).wf(),
            idx < old(self)@.len(),
        ensures
            final(self).wf(),
            final(self)@ == old(self)@.update(idx as int, false),
    {
        let ghost s0 = self@;
        let addr = idx / 64;
        let offset = idx % 64;
        let w = self.data[addr];
        let z: u64 = w & !(1u64 << (offset as u64));
        self.data.set(addr, z);
        assert forall|j: int| 0 <= j < self@.len() implies #[trigger] self@[j] == s0.update(
            idx as int,
            false,
        )[j] by {
            lemma_clear_bit(w, offset as u64, (j % 64) as u64);
            if j / 64 == addr as int {
                if j % 64 == offset as int {
                    assert(j == idx);
                }
            }
        }
        assert(self@ =~= s0.update(idx as int, false));
    }

    /// Number of set flags among the first `n`.  Whole words are counted at
    /// once; only the low bits of a trailing partial word are read.
    pub fn count_ones(&self, n: usize) -> (r: usize)
        requires
            self.wf(),
            n <= self@.len(),
        ensures
            r == count_true(self@.take(n as int)),
    {
        let upper = n / 64;
        let mut sum: usize = 0;
        let mut a: usize = 0;
        while a < upper
            invariant
                self.wf(),
                n <= self@.len(),
                upper == n / 64,
                a <= upper,
                sum <= 64 * a,
                sum == count_true(self@.take(64 * a)),
            decreases upper - a,
        {
            let w = self.data[a];
            let c = word_ones(w);
            proof {
                assert forall|j: int| 64 * a <= j < 64 * a + 64 implies #[trigger] self@[j]
                    == word_bit(w, j - 64 * a) by {
                    assert(j / 64 == a);
                    assert(j % 64 == j - 64 * a);
                }
                lemma_count_word(self@, w, 64 * a, 64);
                lemma_ones_below_bound(w, 64);
            }
            sum = sum + c as usize;
            a = a + 1;
        }
        let lower = n % 64;
        if lower > 0 {
            let w = self.data[upper];
            let ghost base = 64 * upper;
            assert forall|j: int| base <= j < base + lower implies #[trigger] self@[j]
                == word_bit(w, j - base) by {
                assert(j / 64 == upper);
                assert(j % 64 == j - base);
            }
            let mut i: usize = 0;
            while i < lower
                invariant
                    self.wf(),
                    n <= self@.len(),
                    base == 64 * upper,
                    base + lower == n,
                    lower < 64,
                    i <= lower,
                    sum <= base + i,
                    sum == count_true(self@.take(base)) + ones_below(w, i as nat),
                    forall|j: int| base <= j < base + lower ==> #[trigger] self@[j] == word_bit(
                        w,
                        j - base,
                    ),
                decreases lower - i,
            {
                proof {
                    lemma_test_bit(w, i as u64);
                }
                if w & (1u64 << (i as u64)) != 0 {
                    sum = sum + 1;
                }
                i = i + 1;
            }
            proof {
                lemma_count_word(self@, w, base, lower as nat);
            }
        }
        sum
    }

    /// Reads flag `idx`.
    pub fn is_set(&self, idx: usize) -> (r: bool)
        requires
            self.wf(),
            idx < self@.len(),
        ensures
            r == self@[idx as int],
    {
        let addr = idx / 64;
        let offset = idx % 64;
        let z: u64 = 1u64 << (offset as u64);
        proof {
            lemma_test_bit(self.data@[addr as int], offset as u64);
        }
        self.data[addr] & z != 0
    }
}

} // verus!
