use ferroplan::bitset;
use ferroplan::bitset::{clear, count, words_for};

#[test]
fn words_round_up() {
    assert_eq!(words_for(0), 0);
    assert_eq!(words_for(1), 1);
    assert_eq!(words_for(64), 1);
    assert_eq!(words_for(65), 2);
    assert_eq!(words_for(128), 2);
}

#[test]
fn set_test_clear_count() {
    let mut w = vec![0u64; words_for(130)];
    bitset::set(&mut w, 0);
    bitset::set(&mut w, 63);
    bitset::set(&mut w, 64);
    bitset::set(&mut w, 129);
    assert!(bitset::test(&w, 0) && bitset::test(&w, 63) && bitset::test(&w, 64) && bitset::test(&w, 129));
    assert!(!bitset::test(&w, 1) && !bitset::test(&w, 128));
    assert_eq!(w[0], 1 | (1u64 << 63));
    assert_eq!(w[1], 1);
    assert_eq!(w[2], 2);
    assert_eq!(count(&w), 4);
    bitset::set(&mut w, 63);
    assert_eq!(count(&w), 4);
    clear(&mut w, 63);
    assert!(!bitset::test(&w, 63));
    assert!(bitset::test(&w, 0) && bitset::test(&w, 64));
    assert_eq!(count(&w), 3);
    clear(&mut w, 5);
    assert_eq!(count(&w), 3);
    assert_eq!(count(&[u64::MAX, 0, 0b1011]), 67);
}
