//! BLAKE3 digests over byte strings that this library frames itself, and
//! the little-endian length framing used around them.

use vstd::prelude::*;
use vstd::utf8::encode_utf8;

verus! {

/// The lowercase hexadecimal BLAKE3 digest of `data`, as
/// `blake3::hash(data).to_hex()` renders it.
pub uninterp spec fn blake3_hex(data: Seq<u8>) -> Seq<char>;

/// A lowercase hexadecimal digit.
pub open spec fn is_hex_digit(c: char) -> bool {
    ('0' <= c && c <= '9') || ('a' <= c && c <= 'f')
}

/// `blake3::hash(data).to_hex()`: the 32-byte BLAKE3 digest of `data`,
/// rendered as 64 lowercase hexadecimal digits (two per byte, from the
/// table `0123456789abcdef`).
#[verifier::external_body]
pub(crate) fn blake3_hex_digest(data: &[u8]) -> (r: String)
    ensures
        r@ == blake3_hex(data@),
        r@.len() == 64,
        forall|i: int| 0 <= i < 64 ==> is_hex_digit(#[trigger] r@[i]),
{
    blake3::hash(data).to_hex().to_string()
}

pub open spec fn pow256(k: nat) -> nat
    decreases k,
{
    if k == 0 {
        1
    } else {
        256 * pow256((k - 1) as nat)
    }
}

/// The eight little-endian bytes of `x` (what `(x as u64).to_le_bytes()`
/// gives for `x < 2^64`).
pub open spec fn le8(x: nat) -> Seq<u8> {
    Seq::new(8, |k: int| (x / pow256(k as nat) % 256) as u8)
}

proof fn lemma_pow256_pos(k: nat)
    ensures
        pow256(k) >= 1,
    decreases k,
{
    if k > 0 {
        lemma_pow256_pos((k - 1) as nat);
    }
}

/// Appends the eight little-endian bytes of `x`.
pub fn push_le8(buf: &mut Vec<u8>, x: u64)
    ensures
        final(buf)@ == old(buf)@ + le8(x as nat),
{
    let ghost start = buf@;
    let mut y: u64 = x;
    let mut k: usize = 0;
    assert(pow256(0) == 1);
    assert(x as nat / 1 == x as nat);
    while k < 8
        invariant
            k <= 8,
            buf@.len() == start.len() + k,
            buf@.subrange(0, start.len() as int) == start,
            forall|j: int| 0 <= j < k ==> buf@[start.len() + j] == le8(x as nat)[j],
            y as nat == x as nat / pow256(k as nat),
        decreases 8 - k,
    {
        let b: u8 = (y % 256) as u8;
        proof {
            lemma_pow256_pos(k as nat);
            vstd::arithmetic::div_mod::lemma_div_denominator(
                x as int,
                pow256(k as nat) as int,
                256,
            );
            assert(pow256(k as nat) * 256 == pow256((k + 1) as nat)) by (nonlinear_arith)
                requires
                    pow256((k + 1) as nat) == 256 * pow256(k as nat),
            ;
        }
        buf.push(b);
        y = y / 256;
        k = k + 1;
    }
    proof {
        assert(buf@ =~= start + le8(x as nat));
    }
}

/// Appends a length-prefixed field: the eight little-endian bytes of its
/// UTF-8 length, then its UTF-8 bytes.
pub fn push_field(buf: &mut Vec<u8>, s: &str)
    ensures
        final(buf)@ == old(buf)@ + field_bytes(s@),
{
    let bytes = s.as_bytes();
    push_le8(buf, bytes.len() as u64);
    buf.extend_from_slice(bytes);
}

/// A length-prefixed field.
pub open spec fn field_bytes(s: Seq<char>) -> Seq<u8> {
    le8(vstd::utf8::encode_utf8(s).len()) + vstd::utf8::encode_utf8(s)
}

// ----- reading a framing back --------------------------------------------------------

proof fn lemma_digits_determine(x: nat, y: nat, n: nat)
    requires
        x < pow256(n),
        y < pow256(n),
        forall|k: nat| k < n ==> #[trigger] ((x / pow256(k)) % 256) == (y / pow256(k)) % 256,
    ensures
        x == y,
    decreases n,
{
    if n > 0 {
        let x1 = x / 256;
        let y1 = y / 256;
        assert(pow256(0) == 1);
        assert((x / pow256(0)) % 256 == (y / pow256(0)) % 256);
        assert(x % 256 == y % 256);
        assert(pow256(n) == 256 * pow256((n - 1) as nat));
        lemma_pow256_pos((n - 1) as nat);
        assert(x1 < pow256((n - 1) as nat)) by (nonlinear_arith)
            requires
                x < 256 * pow256((n - 1) as nat),
                x1 == x / 256,
        ;
        assert(y1 < pow256((n - 1) as nat)) by (nonlinear_arith)
            requires
                y < 256 * pow256((n - 1) as nat),
                y1 == y / 256,
        ;
        assert forall|k: nat| k < n - 1 implies #[trigger] ((x1 / pow256(k)) % 256) == (y1 / pow256(
            k,
        )) % 256 by {
            lemma_pow256_pos(k);
            vstd::arithmetic::div_mod::lemma_div_denominator(x as int, 256, pow256(k) as int);
            vstd::arithmetic::div_mod::lemma_div_denominator(y as int, 256, pow256(k) as int);
            assert(pow256(k + 1) == 256 * pow256(k));
            assert((x / pow256(k + 1)) % 256 == (y / pow256(k + 1)) % 256);
        }
        lemma_digits_determine(x1, y1, (n - 1) as nat);
        assert(x == 256 * x1 + x % 256) by (nonlinear_arith)
            requires
                x1 == x / 256,
        ;
        assert(y == 256 * y1 + y % 256) by (nonlinear_arith)
            requires
                y1 == y / 256,
        ;
    }
}

/// Eight little-endian bytes name one number below 2^64.
pub proof fn lemma_le8_injective(x: nat, y: nat)
    requires
        x < pow256(8),
        y < pow256(8),
        le8(x) == le8(y),
    ensures
        x == y,
{
    assert forall|k: nat| k < 8 implies #[trigger] ((x / pow256(k)) % 256) == (y / pow256(k)) % 256 by {
        lemma_pow256_pos(k);
        let dx = x / pow256(k) % 256;
        let dy = y / pow256(k) % 256;
        assert(le8(x)[k as int] == dx as u8);
        assert(le8(y)[k as int] == dy as u8);
        assert(dx < 256 && dy < 256);
        assert(dx as u8 == dx);
        assert(dy as u8 == dy);
    }
    lemma_digits_determine(x, y, 8);
}

/// A count framing is read back: the count, and what follows it.
pub proof fn lemma_le8_decodes(x: nat, y: nat, ra: Seq<u8>, rb: Seq<u8>)
    requires
        x < pow256(8),
        y < pow256(8),
        le8(x) + ra == le8(y) + rb,
    ensures
        x == y,
        ra == rb,
{
    let sa = le8(x) + ra;
    let sb = le8(y) + rb;
    assert(sa.take(8) =~= le8(x));
    assert(sb.take(8) =~= le8(y));
    lemma_le8_injective(x, y);
    assert(sa.skip(8) =~= ra);
    assert(sb.skip(8) =~= rb);
}

/// A field framing is read back: the field, and what follows it.
pub proof fn lemma_field_decodes(a: Seq<char>, b: Seq<char>, ra: Seq<u8>, rb: Seq<u8>)
    requires
        encode_utf8(a).len() < pow256(8),
        encode_utf8(b).len() < pow256(8),
        field_bytes(a) + ra == field_bytes(b) + rb,
    ensures
        a == b,
        ra == rb,
{
    let ea = encode_utf8(a);
    let eb = encode_utf8(b);
    assert(field_bytes(a) + ra =~= le8(ea.len()) + (ea + ra));
    assert(field_bytes(b) + rb =~= le8(eb.len()) + (eb + rb));
    lemma_le8_decodes(ea.len(), eb.len(), ea + ra, eb + rb);
    assert((ea + ra).take(ea.len() as int) =~= ea);
    assert((eb + rb).take(eb.len() as int) =~= eb);
    assert((ea + ra).skip(ea.len() as int) =~= ra);
    assert((eb + rb).skip(eb.len() as int) =~= rb);
    vstd::utf8::encode_utf8_decode_utf8(a);
    vstd::utf8::encode_utf8_decode_utf8(b);
}

} // verus!
