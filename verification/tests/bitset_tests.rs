use bitset::bit_count64;
use bitset::BitSet;

#[test]
fn test_bit_count64() {
    assert!(bit_count64(0) == 0);
    assert!(bit_count64(1) == 1);
    assert!(bit_count64(3) == 2);
    assert!(bit_count64(u64::MAX) == 64);
}

#[test]
fn test_new() {
    let bitset = BitSet::new();
    assert!(bitset.count() == 0);
    assert!(bitset.size() == 0);
}

#[test]
fn test_with_capacity() {
    let mut bitset = BitSet::with_capacity(100);

    // set/reset/test
    assert!(bitset.test(99) == false);
    bitset.set(0, true);
    assert!(bitset.test(0) == true);
    bitset.set(0, false);
    assert!(bitset.test(0) == false);
    bitset.set(99, true);
    assert!(bitset.test(99) == true);
    bitset.set(99, false);
    assert!(bitset.test(99) == false);
    bitset.reset();
    bitset.set(0, true);
    assert!(bitset.test(0) == true);

    // any/none
    bitset.reset();
    assert!(bitset.any() == false);
    assert!(bitset.none() == true);
    bitset.flip(0);
    assert!(bitset.any() == true);
    assert!(bitset.none() == false);

    // flip
    bitset.reset();
    bitset.set(99, true);
    assert!(bitset.test(99) == true);
    bitset.flip(99);
    assert!(bitset.test(99) == false);
    bitset.flip(99);
    assert!(bitset.test(99) == true);

    // flip_all
    bitset.reset();
    bitset.flip_all();
    for i in 0..100 {
        assert!(bitset.test(i) == true);
    }
    bitset.flip_all();
    for i in 0..100 {
        assert!(bitset.test(i) == false);
    }
}

#[test]
fn test_capacity_size() {
    assert!(BitSet::with_capacity(0).size() == 0);
    assert!(BitSet::with_capacity(1).size() == 1);
    assert!(BitSet::with_capacity(64).size() == 64);
    assert!(BitSet::with_capacity(100).size() == 100);
    let fresh = BitSet::with_capacity(100);
    assert!(fresh.count() == 0);
    assert!(fresh.none() == true);
    assert!(fresh.any() == false);
}

#[test]
fn test_from_u64() {
    let bs = BitSet::from_u64(2);
    assert!(bs.test(0) == false);
    assert!(bs.test(1) == true);
    assert!(bs.size() == 64);
    assert!(bs.count() == 1);
    for i in 2..64 {
        assert!(bs.test(i) == false);
    }
}

#[test]
fn test_from_vec64() {
    let vec = vec![u64::MAX, 0, u64::MAX];
    let bs = BitSet::from_vec64(&vec);
    assert!(bs.test(63) == true);
    assert!(bs.test(64) == false);
    assert!(bs.test(127) == false);
    assert!(bs.test(128) == true);
    assert!(bs.size() == 192);
    assert!(bs.count() == 128);
}

#[test]
fn test_set_then_clear() {
    let mut bs = BitSet::with_capacity(130);
    bs.set(77, true);
    assert!(bs.test(77) == true);
    bs.set(77, false);
    assert!(bs.test(77) == false);
    bs.set(129, true);
    assert!(bs.test(129) == true);
    assert!(bs.test(128) == false);
    assert!(bs.count() == 1);
}

#[test]
fn test_flip_is_involution() {
    let mut bs = BitSet::with_capacity(100);
    bs.set(40, true);
    let before_set = bs.test(40);
    let before_clear = bs.test(41);
    bs.flip(40);
    bs.flip(40);
    bs.flip(41);
    bs.flip(41);
    assert!(bs.test(40) == before_set);
    assert!(bs.test(41) == before_clear);
}

#[test]
fn test_flip_all_is_involution() {
    let mut bs = BitSet::with_capacity(100);
    bs.set(3, true);
    bs.set(98, true);
    let count_before = bs.count();
    bs.flip_all();
    bs.flip_all();
    assert!(bs.count() == count_before);
    assert!(bs.test(3) == true);
    assert!(bs.test(98) == true);
    assert!(bs.test(4) == false);
}

#[test]
fn test_reset_scenario() {
    let mut bs = BitSet::with_capacity(100);
    bs.set(99, true);
    assert!(bs.test(99) == true);
    bs.reset();
    assert!(bs.test(99) == false);
    assert!(bs.any() == false);
    assert!(bs.count() == 0);
    bs.flip(0);
    assert!(bs.any() == true);
    assert!(bs.none() == false);
    bs.reset();
    bs.flip_all();
    for i in 0..100 {
        assert!(bs.test(i) == true);
    }
}

#[test]
fn test_count_counts_padding_bits() {
    // Capacity 1 still allocates a full word: indices 1..=63 are padding,
    // writable through `set`, and included in `count`.
    let mut bs = BitSet::with_capacity(1);
    assert!(bs.size() == 1);
    bs.set(63, true);
    assert!(bs.test(63) == true);
    assert!(bs.count() == 1);
    bs.flip_all();
    assert!(bs.count() == 63);
    assert!(bs.test(63) == false);
    assert!(bs.test(0) == true);
}

#[test]
fn test_out_of_range_is_noop() {
    let mut bs = BitSet::with_capacity(100);
    // Two words are allocated; index 128 is beyond them.
    bs.set(128, true);
    assert!(bs.test(128) == false);
    assert!(bs.count() == 0);
    bs.flip(128);
    assert!(bs.test(128) == false);
    assert!(bs.any() == false);
    bs.set(127, true);
    assert!(bs.test(127) == true);
    assert!(bs.count() == 1);
}

#[test]
fn test_empty_bitset() {
    let mut bs = BitSet::new();
    assert!(bs.size() == 0);
    assert!(bs.count() == 0);
    assert!(bs.any() == false);
    assert!(bs.none() == true);
    assert!(bs.test(0) == false);
    bs.set(0, true);
    assert!(bs.test(0) == false);
    bs.flip(0);
    bs.flip_all();
    bs.reset();
    assert!(bs.count() == 0);
}

#[test]
fn test_bit_count64_more() {
    assert!(bit_count64(2) == 1);
    assert!(bit_count64(0x8000_0000_0000_0000) == 1);
    assert!(bit_count64(0x5555_5555_5555_5555) == 32);
    assert!(bit_count64(0xFF00_FF00_FF00_FF00) == 32);
    assert!(bit_count64(u64::MAX - 1) == 63);
}
