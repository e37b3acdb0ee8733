use prime_sieve::trial::{is_prime1, is_prime_store, prime_slice, Primes3};

#[test]
fn slow_test_values() {
    let expected = [(0u64, 1u64), (1, 1), (2, 1), (3, 1), (4, 0), (5, 1), (9, 0), (25, 0), (29, 1), (97, 1), (7919, 1), (7921, 0)];
    for (n, r) in expected {
        assert_eq!(is_prime1(n), r);
    }
    let sum: u64 = (1..1000).map(is_prime1).sum();
    assert_eq!(sum, 169);
}

#[test]
fn store_pushes_primes_once() {
    let small = [2u64, 3, 5, 7];
    let mut v = Vec::new();
    for n in 0..60u64 {
        is_prime_store(n, &small, &mut v);
    }
    assert_eq!(v, vec![2, 3, 5, 7, 11, 13, 17, 19, 23, 29, 31, 37, 41, 43, 47, 53, 59]);
}

#[test]
fn slice_of_odd_numbers() {
    let small = [2u64, 3, 5, 7, 11, 13];
    assert_eq!(prime_slice(&small, 15, 60), vec![17, 19, 23, 29, 31, 37, 41, 43, 47, 53, 59]);
    assert_eq!(prime_slice(&small, 15, 15), Vec::<u64>::new());
    assert_eq!(prime_slice(&small, 91, 92), Vec::<u64>::new());
    assert_eq!(prime_slice(&small, 97, 98), vec![97]);
}

#[test]
fn memo_counts_primes_in_order() {
    let mut memo = Primes3::new();
    let mut sum = 2;
    let mut i = 5;
    while i < 10_000 {
        sum += memo.to_prime_mut(i);
        i += 2;
    }
    assert_eq!(sum, 1229);
}

#[test]
fn memo_small_numbers() {
    let mut memo = Primes3::new();
    assert_eq!(memo.to_prime_mut(0), 0);
    assert_eq!(memo.to_prime_mut(1), 0);
    assert_eq!(memo.to_prime_mut(2), 1);
    assert_eq!(memo.to_prime_mut(3), 1);
    assert_eq!(memo.to_prime_mut(15), 0);
    assert_eq!(memo.to_prime_mut(17), 1);
}

#[test]
fn memo_grows_by_slices() {
    let mut memo = Primes3::new();
    let mut sum = 6;
    let mut last = 15u64;
    while last < 3000 {
        let mut v = memo.prime_slice(last, last + 100);
        sum += v.len();
        memo.prime_slice_store(&mut v);
        assert!(v.is_empty());
        last += 100;
    }
    assert_eq!(sum, 432);
}
