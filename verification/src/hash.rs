//! FxHash, the rustc-hash algorithm: fast, seedless and deterministic. The
//! same input gives the same output on every machine and every thread count.

use vstd::prelude::*;
use crate::digest::pow256;

verus! {

/// The FxHash multiplier.
pub const K: u64 = 0x517c_c1b7_2722_0a95;

/// `h.rotate_left(5)`.
pub open spec fn rotl5(h: u64) -> u64 {
    ((h << 5u64) | (h >> 59u64)) as u64
}

/// One mixing step: rotate, xor in the word, multiply (wrapping) by `K`.
pub open spec fn mix(h: u64, i: u64) -> u64 {
    ((rotl5(h) ^ i) as int * K as int % 0x1_0000_0000_0000_0000) as u64
}

/// The little-endian value of up to eight bytes (missing high bytes are
/// zero, which is what zero-padding a short tail gives).
pub open spec fn le_word(b: Seq<u8>) -> nat
    decreases b.len(),
{
    if b.len() == 0 {
        0
    } else {
        b[0] as nat + 256 * le_word(b.drop_first())
    }
}

/// The state after `write(bytes)`: whole 8-byte little-endian words first,
/// then one zero-padded word for a non-empty tail.
pub open spec fn write_bytes(h: u64, bytes: Seq<u8>) -> u64
    decreases bytes.len(),
{
    if bytes.len() >= 8 {
        write_bytes(mix(h, le_word(bytes.take(8)) as u64), bytes.skip(8))
    } else if bytes.len() > 0 {
        mix(h, le_word(bytes) as u64)
    } else {
        h
    }
}

proof fn lemma_le_word_bound(b: Seq<u8>)
    ensures
        le_word(b) < pow256(b.len()),
    decreases b.len(),
{
    if b.len() > 0 {
        lemma_le_word_bound(b.drop_first());
        assert(b[0] as nat + 256 * le_word(b.drop_first()) < 256 * pow256((b.len() - 1) as nat))
            by (nonlinear_arith)
            requires
                b[0] < 256,
                le_word(b.drop_first()) < pow256((b.len() - 1) as nat),
        ;
    }
}

proof fn lemma_pow256_8()
    ensures
        pow256(8) == 0x1_0000_0000_0000_0000,
{
    reveal_with_fuel(pow256, 9);
}

proof fn lemma_pow256_mono(a: nat, b: nat)
    requires
        a <= b,
    ensures
        pow256(a) <= pow256(b),
    decreases b,
{
    if a < b {
        lemma_pow256_mono(a, (b - 1) as nat);
    }
}

/// The FxHash state.
pub struct FxHasher {
    pub hash: u64,
}

impl FxHasher {
    /// A fresh hasher: state zero.
    pub fn new() -> (h: Self)
        ensures
            h.hash == 0,
    {
        FxHasher { hash: 0 }
    }

    /// Mix one word into the state.
    pub fn add(&mut self, i: u64)
        ensures
            final(self).hash == mix(old(self).hash, i),
    {
        let h = self.hash;
        let r = (h << 5u64) | (h >> 59u64);
        self.hash = (r ^ i).wrapping_mul(K);
    }

    /// The little-endian word of `bytes[from..to]` (at most eight bytes).
    fn word_at(bytes: &[u8], from: usize, to: usize) -> (w: u64)
        requires
            from <= to <= bytes@.len(),
            to - from <= 8,
        ensures
            w as nat == le_word(bytes@.subrange(from as int, to as int)),
    {
        let mut w: u64 = 0;
        let mut j: usize = to;
        proof {
            assert(bytes@.subrange(to as int, to as int) =~= Seq::<u8>::empty());
        }
        while j > from
            invariant
                from <= j <= to,
                to <= bytes@.len(),
                to - from <= 8,
                w as nat == le_word(bytes@.subrange(j as int, to as int)),
            decreases j,
        {
            let ghost tail = bytes@.subrange(j as int, to as int);
            let ghost full = bytes@.subrange(j - 1, to as int);
            proof {
                assert(full.drop_first() =~= tail);
                lemma_le_word_bound(tail);
                lemma_pow256_mono((to - j) as nat, 7);
                assert(pow256(7) == 0x100_0000_0000_0000) by {
                    reveal_with_fuel(pow256, 8);
                }
            }
            j = j - 1;
            w = (bytes[j] as u64) + 256 * w;
        }
        w
    }

    /// `Hasher::write`: whole 8-byte little-endian words, then one
    /// zero-padded word for a non-empty tail.
    pub fn write(&mut self, bytes: &[u8])
        ensures
            final(self).hash == write_bytes(old(self).hash, bytes@),
    {
        let mut pos: usize = 0;
        assert(bytes@.skip(0) =~= bytes@);
        while bytes.len() - pos >= 8
            invariant
                pos <= bytes@.len(),
                write_bytes(self.hash, bytes@.skip(pos as int)) == write_bytes(
                    old(self).hash,
                    bytes@,
                ),
            decreases bytes@.len() - pos,
        {
            let ghost rest = bytes@.skip(pos as int);
            let w = Self::word_at(bytes, pos, pos + 8);
            proof {
                assert(rest.take(8) =~= bytes@.subrange(pos as int, pos + 8));
                assert(rest.skip(8) =~= bytes@.skip(pos + 8));
                lemma_le_word_bound(rest.take(8));
                lemma_pow256_8();
            }
            self.add(w);
            pos = pos + 8;
        }
        if pos < bytes.len() {
            let ghost rest = bytes@.skip(pos as int);
            let w = Self::word_at(bytes, pos, bytes.len());
            proof {
                assert(rest =~= bytes@.subrange(pos as int, bytes@.len() as int));
                lemma_le_word_bound(rest);
                lemma_pow256_mono(rest.len(), 8);
                lemma_pow256_8();
            }
            self.add(w);
        }
    }

    pub fn write_u8(&mut self, i: u8)
        ensures
            final(self).hash == mix(old(self).hash, i as u64),
    {
        self.add(i as u64);
    }

    pub fn write_u32(&mut self, i: u32)
        ensures
            final(self).hash == mix(old(self).hash, i as u64),
    {
        self.add(i as u64);
    }

    pub fn write_u64(&mut self, i: u64)
        ensures
            final(self).hash == mix(old(self).hash, i),
    {
        self.add(i);
    }

    pub fn write_usize(&mut self, i: usize)
        ensures
            final(self).hash == mix(old(self).hash, i as u64),
    {
        self.add(i as u64);
    }

    /// Two's-complement reinterpretation of a signed word.
    pub fn write_i64(&mut self, i: i64)
        ensures
            final(self).hash == mix(old(self).hash, i as u64),
    {
        self.add(i as u64);
    }

    /// The hash value: the state itself.
    pub fn finish(&self) -> (r: u64)
        ensures
            r == self.hash,
    {
        self.hash
    }
}

} // verus!
