use ferroplan::hash::{FxHasher, K};

#[test]
fn one_word_from_zero_is_the_multiplier() {
    let mut h = FxHasher::new();
    h.write_u64(1);
    assert_eq!(h.finish(), K);
    assert_eq!(K, 0x517c_c1b7_2722_0a95);
}

#[test]
fn byte_writes_chunk_little_endian_words() {
    let mut h = FxHasher::new();
    h.write(b"abc");
    assert_eq!(h.finish(), 0x8c41a58af3920c75);
    let mut h = FxHasher::new();
    h.write(b"abcdefghi");
    assert_eq!(h.finish(), 0x5549a2d1fb0673f9);
    let mut e = FxHasher::new();
    e.write(b"");
    assert_eq!(e.finish(), 0);
}

#[test]
fn integer_writes_mix_one_word_each() {
    let mut a = FxHasher::new();
    a.write_u8(7);
    a.write_i64(-1);
    assert_eq!(a.finish(), 0x5f5104d783744978);
    let mut b = FxHasher::new();
    b.write_u32(7);
    b.write_usize(usize::MAX);
    let mut c = FxHasher::new();
    c.add(7);
    c.add(u64::MAX);
    assert_eq!(b.finish(), c.finish());
    assert_eq!(a.finish(), c.finish());
}
