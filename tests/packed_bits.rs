use prime_sieve::packed_bits::PackedBits;

#[test]
fn new_set_fills_every_flag() {
    let ones = PackedBits::new_set(130, true);
    let zeros = PackedBits::new_set(130, false);
    assert_eq!(ones.len(), 130);
    assert_eq!(zeros.len(), 130);
    for i in 0..130 {
        assert!(ones.is_set(i));
        assert!(!zeros.is_set(i));
    }
}

#[test]
fn empty_vector_is_valid() {
    let empty = PackedBits::new_set(0, true);
    assert_eq!(empty.len(), 0);
    assert_eq!(empty.count_ones(0), 0);
}

#[test]
fn clear_touches_one_flag() {
    let mut bits = PackedBits::new_set(200, true);
    bits.clear(0);
    bits.clear(63);
    bits.clear(64);
    bits.clear(199);
    for i in 0..200 {
        assert_eq!(bits.is_set(i), !(i == 0 || i == 63 || i == 64 || i == 199));
    }
    bits.clear(63);
    assert!(!bits.is_set(63));
    assert_eq!(bits.count_ones(200), 196);
}

#[test]
fn append_on_word_boundary() {
    let mut head = PackedBits::new_set(128, false);
    head.clear(5);
    let mut tail = PackedBits::new_set(70, true);
    tail.clear(1);
    head.append(&mut tail);
    assert_eq!(head.len(), 198);
    assert_eq!(tail.len(), 0);
    for i in 0..128 {
        assert!(!head.is_set(i));
    }
    for i in 128..198 {
        assert_eq!(head.is_set(i), i != 129);
    }
    assert_eq!(head.count_ones(198), 69);
}

#[test]
fn append_of_empty_keeps_flags() {
    let mut head = PackedBits::new_set(64, true);
    let mut tail = PackedBits::new_set(0, false);
    head.append(&mut tail);
    assert_eq!(head.len(), 64);
    assert_eq!(head.count_ones(64), 64);
}

#[test]
fn count_whole_words() {
    let bits = PackedBits::new_set(256, true);
    assert_eq!(bits.count_ones(256), 256);
    assert_eq!(bits.count_ones(128), 128);
    let mut sparse = PackedBits::new_set(256, false);
    sparse.append(&mut PackedBits::new_set(0, false));
    assert_eq!(sparse.count_ones(256), 0);
}

#[test]
fn count_partial_word_matches_scan() {
    let mut bits = PackedBits::new_set(300, true);
    let mut i = 0;
    while i < 300 {
        bits.clear(i);
        i += 3;
    }
    for limit in [1usize, 63, 64, 65, 127, 128, 129, 191, 299, 300] {
        let mut scan = 0;
        for j in 0..limit {
            if bits.is_set(j) {
                scan += 1;
            }
        }
        assert_eq!(bits.count_ones(limit), scan);
    }
}

#[test]
fn clone_keeps_flags() {
    let mut bits = PackedBits::new_set(100, true);
    bits.clear(42);
    let copy = bits.clone();
    bits.clear(43);
    assert_eq!(copy.len(), 100);
    assert!(!copy.is_set(42));
    assert!(copy.is_set(43));
    assert_eq!(copy.count_ones(100), 99);
}
