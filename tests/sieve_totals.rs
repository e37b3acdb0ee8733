use prime_sieve::bool_segmented::{segmented_bool_sieve, sieve_segment_bools};
use prime_sieve::packed_bits::PackedBits;
use prime_sieve::segmented::{compute_primality_below, extend, sieve_segment};
use prime_sieve::sieve::{packed_sieve, sieve};

fn total_below(bound: usize, thread_count: usize, page_size: usize) -> usize {
    let bits = compute_primality_below(bound, thread_count, page_size);
    assert_eq!(bits.len(), bound);
    bits.count_ones(bound)
}

fn same_flags(a: &PackedBits, b: &PackedBits) -> bool {
    if a.len() != b.len() {
        return false;
    }
    for i in 0..a.len() {
        if a.is_set(i) != b.is_set(i) {
            return false;
        }
    }
    true
}

#[test]
fn total_below_300() {
    assert_eq!(total_below(300, 16, 64), 62);
    assert_eq!(total_below(300, 1, 4096), 62);
}

#[test]
fn total_below_3_million() {
    assert_eq!(total_below(3_000_000, 16, 4096), 216_816);
}

#[test]
fn total_below_30_million() {
    assert_eq!(total_below(30_000_000, 16, 4096), 1_857_859);
}

#[test]
fn total_below_300_million() {
    assert_eq!(total_below(300_000_000, 16, 4096), 16_252_325);
}

#[test]
fn base_sieve_matches_single_page_pipeline() {
    for n in [1usize, 2, 3, 7, 8, 64, 100, 1000, 4096, 5000] {
        let base = packed_sieve((n - 1) as u64);
        let full = compute_primality_below(n, 1, n);
        assert!(same_flags(&base, &full));
    }
}

#[test]
fn tuning_does_not_change_flags() {
    let reference = compute_primality_below(100_000, 1, 100_000);
    for (threads, page) in [(1usize, 64usize), (3, 64), (8, 128), (16, 256), (2, 4096), (32, 512)] {
        let tuned = compute_primality_below(100_000, threads, page);
        assert!(same_flags(&reference, &tuned));
    }
}

#[test]
fn repeated_runs_agree() {
    let first = compute_primality_below(50_000, 4, 256);
    let second = compute_primality_below(50_000, 4, 256);
    assert!(same_flags(&first, &second));
    assert_eq!(first.count_ones(50_000), 5133);
}

#[test]
fn smallest_entries() {
    for bound in [8usize, 9, 64, 65, 1000] {
        let bits = compute_primality_below(bound, 2, 64);
        assert!(!bits.is_set(0));
        assert!(!bits.is_set(1));
        assert!(bits.is_set(2));
        assert!(bits.is_set(3));
        assert!(!bits.is_set(4));
        assert!(bits.is_set(5));
        assert!(!bits.is_set(6));
        assert!(bits.is_set(7));
    }
}

#[test]
fn empty_and_tiny_bounds() {
    assert_eq!(compute_primality_below(0, 4, 64).len(), 0);
    let one = compute_primality_below(1, 4, 64);
    assert_eq!(one.len(), 1);
    assert!(!one.is_set(0));
    let three = compute_primality_below(3, 4, 64);
    assert_eq!(three.count_ones(3), 1);
}

#[test]
fn bound_just_past_a_page() {
    assert_eq!(total_below(65, 1, 64), 18);
    assert_eq!(total_below(4097, 16, 4096), 564);
    assert_eq!(total_below(4096 * 4096 + 1, 16, 4096), 1_077_871);
}

#[test]
fn packed_sieve_flags() {
    let bits = packed_sieve(30);
    assert_eq!(bits.len(), 31);
    let primes: Vec<usize> = (0..31).filter(|&i| bits.is_set(i)).collect();
    assert_eq!(primes, vec![2, 3, 5, 7, 11, 13, 17, 19, 23, 29]);
    let zero = packed_sieve(0);
    assert_eq!(zero.len(), 1);
    assert!(!zero.is_set(0));
}

#[test]
fn bool_sieve_flags() {
    let flags = sieve(30);
    assert_eq!(flags.len(), 31);
    let primes: Vec<usize> = (0..31).filter(|&i| flags[i]).collect();
    assert_eq!(primes, vec![2, 3, 5, 7, 11, 13, 17, 19, 23, 29]);
    let count = sieve(2_999_999).iter().filter(|&&b| b).count();
    assert_eq!(count, 216_816);
}

#[test]
fn segment_with_prime_base() {
    let base = packed_sieve(9);
    let seg = sieve_segment(&base, 90, 110);
    let primes: Vec<usize> = (0..20).filter(|&k| seg.is_set(k)).map(|k| 90 + k).collect();
    assert_eq!(primes, vec![97, 101, 103, 107, 109]);
}

#[test]
fn segment_from_zero_clears_zero_and_one() {
    let base = packed_sieve(3);
    let seg = sieve_segment(&base, 0, 10);
    let kept: Vec<usize> = (0..10).filter(|&k| seg.is_set(k)).collect();
    assert_eq!(kept, vec![5, 7]);
}

#[test]
fn extend_appends_segments_in_order() {
    let base = packed_sieve(63);
    let all = extend(base, 1000, 3, 64);
    let reference = packed_sieve(999);
    assert!(same_flags(&all, &reference));
}

#[test]
fn bool_pipeline_totals() {
    let flags = segmented_bool_sieve(3_000_000, 16, 4096);
    assert_eq!(flags.len(), 3_000_000);
    assert_eq!(flags.iter().filter(|&&b| b).count(), 216_816);
    let small = segmented_bool_sieve(300, 4, 3);
    assert_eq!(small.iter().filter(|&&b| b).count(), 62);
}

#[test]
fn bool_pipeline_matches_packed() {
    for (bound, threads, page) in [(0usize, 1usize, 3usize), (1, 1, 1), (10, 2, 3), (1000, 3, 7), (5000, 8, 64), (20_000, 16, 100)] {
        let flags = segmented_bool_sieve(bound, threads, page);
        let packed = packed_sieve(bound as u64);
        assert_eq!(flags.len(), bound);
        for i in 0..bound {
            assert_eq!(flags[i], packed.is_set(i));
        }
    }
}

#[test]
fn bool_segment_with_prime_base() {
    let base = sieve(9);
    let seg = sieve_segment_bools(&base, 90, 110);
    let primes: Vec<usize> = (0..20).filter(|&k| seg[k]).map(|k| 90 + k).collect();
    assert_eq!(primes, vec![97, 101, 103, 107, 109]);
    let from_zero = sieve_segment_bools(&sieve(3), 0, 10);
    let kept: Vec<usize> = (0..10).filter(|&k| from_zero[k]).collect();
    assert_eq!(kept, vec![5, 7]);
}
