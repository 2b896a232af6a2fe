//! Fixed-width flags over `u64` words: the fact layer of a planning state,
//! packed tight. Flag `i` lives in word `i / 64` at bit `i % 64`.

use vstd::prelude::*;

verus! {

/// Flag `i` of the word array `w`.
pub open spec fn bit(w: Seq<u64>, i: int) -> bool {
    (w[i / 64] >> ((i % 64) as u64)) & 1u64 == 1u64
}

/// The number of flags standing among the first `n` positions.
pub open spec fn count_upto(w: Seq<u64>, n: nat) -> nat
    decreases n,
{
    if n == 0 {
        0
    } else {
        count_upto(w, (n - 1) as nat) + if bit(w, n - 1) {
            1nat
        } else {
            0nat
        }
    }
}

/// The number of words needed to hold `n_bits` flags: `n_bits / 64` rounded up.
pub open spec fn words_needed(n_bits: nat) -> nat {
    (n_bits + 63) / 64
}

/// Words needed to hold `n_bits` flags.
pub fn words_for(n_bits: usize) -> (r: usize)
    ensures
        r == words_needed(n_bits as nat),
        r * 64 >= n_bits,
        r * 64 < n_bits + 64,
{
    n_bits / 64 + if n_bits % 64 != 0 {
        1
    } else {
        0
    }
}

proof fn lemma_index(i: usize)
    ensures
        i >> 6usize == i / 64,
        i & 63usize == i % 64,
{
    assert(i >> 6usize == i / 64) by (bit_vector);
    assert(i & 63usize == i % 64) by (bit_vector);
}

/// Whether flag `i` stands.
pub fn test(w: &[u64], i: usize) -> (b: bool)
    requires
        i / 64 < w@.len(),
    ensures
        b == bit(w@, i as int),
{
    proof {
        lemma_index(i);
    }
    let off: usize = i & 63;
    let y = w[i >> 6] >> (off as u64);
    proof {
        assert((y & 1u64 != 0) == (y & 1u64 == 1u64)) by (bit_vector);
    }
    y & 1 != 0
}

proof fn lemma_or_bit(x: u64, k: u64, m: u64)
    requires
        k < 64,
        m < 64,
    ensures
        ((x | (1u64 << k)) >> m) & 1u64 == 1u64 <==> (m == k || (x >> m) & 1u64 == 1u64),
{
    assert(((x | (1u64 << k)) >> m) & 1u64 == 1u64 <==> (m == k || (x >> m) & 1u64 == 1u64))
        by (bit_vector)
        requires
            k < 64,
            m < 64,
    ;
}

proof fn lemma_clear_bit(x: u64, k: u64, m: u64)
    requires
        k < 64,
        m < 64,
    ensures
        ((x & !(1u64 << k)) >> m) & 1u64 == 1u64 <==> (m != k && (x >> m) & 1u64 == 1u64),
{
    assert(((x & !(1u64 << k)) >> m) & 1u64 == 1u64 <==> (m != k && (x >> m) & 1u64 == 1u64))
        by (bit_vector)
        requires
            k < 64,
            m < 64,
    ;
}

/// Raise flag `i`; every other flag keeps its value.
pub fn set(w: &mut [u64], i: usize)
    requires
        i / 64 < old(w)@.len(),
    ensures
        final(w)@.len() == old(w)@.len(),
        forall|j: int|
            0 <= j < 64 * old(w)@.len() ==> #[trigger] bit(final(w)@, j) == (j == i || bit(
                old(w)@,
                j,
            )),
{
    proof {
        lemma_index(i);
    }
    let idx: usize = i >> 6;
    let off: usize = i & 63;
    let word = w[idx] | (1u64 << (off as u64));
    w[idx] = word;
    proof {
        assert forall|j: int| 0 <= j < 64 * old(w)@.len() implies #[trigger] bit(w@, j) == (j
            == i || bit(old(w)@, j)) by {
            if j / 64 == idx as int {
                lemma_or_bit(old(w)@[idx as int], off as u64, (j % 64) as u64);
            }
        }
    }
}

/// Lower flag `i`; every other flag keeps its value.
pub fn clear(w: &mut [u64], i: usize)
    requires
        i / 64 < old(w)@.len(),
    ensures
        final(w)@.len() == old(w)@.len(),
        forall|j: int|
            0 <= j < 64 * old(w)@.len() ==> #[trigger] bit(final(w)@, j) == (j != i && bit(
                old(w)@,
                j,
            )),
{
    proof {
        lemma_index(i);
    }
    let idx: usize = i >> 6;
    let off: usize = i & 63;
    let word = w[idx] & !(1u64 << (off as u64));
    w[idx] = word;
    proof {
        assert forall|j: int| 0 <= j < 64 * old(w)@.len() implies #[trigger] bit(w@, j) == (j
            != i && bit(old(w)@, j)) by {
            if j / 64 == idx as int {
                lemma_clear_bit(old(w)@[idx as int], off as u64, (j % 64) as u64);
            }
        }
    }
}

/// Count the flags standing across the whole word array.
pub fn count(w: &[u64]) -> (r: usize)
    requires
        64 * w@.len() <= usize::MAX,
    ensures
        r == count_upto(w@, 64 * w@.len() as nat),
{
    let mut total: usize = 0;
    let mut i: usize = 0;
    while i < w.len()
        invariant
            i <= w@.len(),
            64 * w@.len() <= usize::MAX,
            total == count_upto(w@, 64 * i as nat),
            total <= 64 * i,
        decreases w@.len() - i,
    {
        let x = w[i];
        let mut k: u64 = 0;
        while k < 64
            invariant
                i < w@.len(),
                64 * w@.len() <= usize::MAX,
                k <= 64,
                x == w@[i as int],
                total == count_upto(w@, (64 * i + k) as nat),
                total <= 64 * i + k,
            decreases 64 - k,
        {
            let b = (x >> k) & 1;
            proof {
                let n = (64 * i + k) as int;
                assert(n / 64 == i as int && n % 64 == k as int) by {
                    vstd::arithmetic::div_mod::lemma_fundamental_div_mod_converse(
                        n,
                        64,
                        i as int,
                        k as int,
                    );
                }
                assert(b == 0 || b == 1) by (bit_vector)
                    requires
                        b == (x >> k) & 1u64,
                ;
                assert(count_upto(w@, (n + 1) as nat) == count_upto(w@, n as nat) + if bit(
                    w@,
                    n,
                ) {
                    1nat
                } else {
                    0nat
                });
            }
            total = total + b as usize;
            k = k + 1;
        }
        i = i + 1;
    }
    total
}

} // verus!
