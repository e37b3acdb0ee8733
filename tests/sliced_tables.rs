use prime_sieve::sieve::packed_sieve;
use prime_sieve::sliced::{
    aligned_split_accepts, equal_split_accepts, recursive_primes_aligned_slices,
    recursive_primes_equal_slices,
};

fn matches_packed(flags: &[bool]) -> bool {
    let packed = packed_sieve(flags.len() as u64);
    (0..flags.len()).all(|i| flags[i] == packed.is_set(i))
}

#[test]
fn equal_slices_total_below_3_million() {
    let flags = recursive_primes_equal_slices(3_000_000, 4);
    assert_eq!(flags.len(), 3_000_000);
    assert_eq!(flags.iter().filter(|&&b| b).count(), 216_816);
}

#[test]
fn equal_slices_cover_whole_slices() {
    let flags = recursive_primes_equal_slices(1001, 4);
    assert_eq!(flags.len(), 1005);
    assert!(matches_packed(&flags));
    let direct = recursive_primes_equal_slices(100, 4);
    assert_eq!(direct.len(), 100);
    assert_eq!(direct.iter().filter(|&&b| b).count(), 25);
}

#[test]
fn aligned_slices_total() {
    let flags = recursive_primes_aligned_slices(3_000_000, 4, 32 * 1024);
    assert_eq!(flags.len(), 3_112_960);
    assert!(matches_packed(&flags));
}

#[test]
fn aligned_slices_small_pages() {
    let flags = recursive_primes_aligned_slices(1000, 2, 16);
    assert_eq!(flags.len(), 3 * 336);
    assert!(matches_packed(&flags));
    let direct = recursive_primes_aligned_slices(300, 4, 300);
    assert_eq!(direct.iter().filter(|&&b| b).count(), 62);
}

#[test]
fn equal_split_acceptance() {
    assert!(equal_split_accepts(3_000_000, 4));
    assert!(equal_split_accepts(3_000_000_000, 4));
    assert!(equal_split_accepts(1001, 4));
    assert!(equal_split_accepts(1, 4));
    assert!(!equal_split_accepts(0, 4));
    assert!(!equal_split_accepts(1000, 0));
    assert!(!equal_split_accepts(101, 50));
    assert!(!equal_split_accepts(usize::MAX, 2));
}

#[test]
fn aligned_split_acceptance() {
    assert!(aligned_split_accepts(3_000_000, 4, 32 * 1024));
    assert!(aligned_split_accepts(1000, 2, 16));
    assert!(aligned_split_accepts(300, 4, 300));
    assert!(!aligned_split_accepts(127, 1, 64));
    assert!(!aligned_split_accepts(0, 4, 64));
    assert!(!aligned_split_accepts(1000, 0, 64));
    assert!(!aligned_split_accepts(1000, 4, 0));
    assert!(!aligned_split_accepts(usize::MAX / 2, 4, 64));
}
