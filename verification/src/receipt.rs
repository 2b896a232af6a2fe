//! Policy receipts: the BLAKE3 digest that binds a canonical receipt
//! payload, and the checks that a receipt, and a chain of them, hold
//! together.

use vstd::prelude::*;
use vstd::utf8::encode_utf8;
use crate::digest::{blake3_hex, blake3_hex_digest, le8, push_le8};
use vstd::string::StringExecFns;
use crate::text::{cat3, str_eq};

verus! {

/// The schema every policy receipt names.
pub const RECEIPT_SCHEMA: &'static str = "urn:chatman:ferroplan-policy-receipt:v1";

/// The domain-separation prefix of every receipt digest: the schema's
/// bytes and a zero byte.
pub open spec fn receipt_domain() -> Seq<u8> {
    encode_utf8(RECEIPT_SCHEMA@) + seq![0u8]
}

/// The digest of a canonical JSON document: BLAKE3 over the domain prefix,
/// the document's length (eight little-endian bytes) and the document.
pub open spec fn digest_of(canonical_json: Seq<u8>) -> Seq<char> {
    blake3_hex(receipt_domain() + le8(canonical_json.len()) + canonical_json)
}

/// The digest of a canonical JSON document (the caller serializes the
/// value with its object keys sorted; this frames and hashes the bytes).
pub fn canonical_digest(canonical_json: &[u8]) -> (d: String)
    ensures
        d@ == digest_of(canonical_json@),
{
    let mut b: Vec<u8> = Vec::new();
    let schema = RECEIPT_SCHEMA.as_bytes();
    b.extend_from_slice(schema);
    b.push(0u8);
    push_le8(&mut b, canonical_json.len() as u64);
    b.extend_from_slice(canonical_json);
    proof {
        assert(b@ =~= receipt_domain() + le8(canonical_json@.len()) + canonical_json@);
    }
    blake3_hex_digest(b.as_slice())
}

/// `serde_json`'s rendering of a string: in double quotes, with `"` and
/// `\` escaped by a backslash, `\u{8}`, `\u{c}`, `\n`, `\r` and `\t` by
/// their short escapes, every other control character below `\u{20}` as
/// `\u00XX` (lowercase hex), and everything else as it is.
pub open spec fn json_quoted(s: Seq<char>) -> Seq<char> {
    seq!['"'] + json_escaped(s) + seq!['"']
}

pub open spec fn hex_digit(n: u32) -> char {
    if n < 10 {
        (('0' as u32) + n) as char
    } else {
        (('a' as u32) + n - 10) as char
    }
}

pub open spec fn json_escaped(s: Seq<char>) -> Seq<char>
    decreases s.len(),
{
    if s.len() == 0 {
        seq![]
    } else {
        json_escaped(s.drop_last()) + json_char(s.last())
    }
}

pub open spec fn json_char(c: char) -> Seq<char> {
    if c == '"' {
        seq!['\\', '"']
    } else if c == '\\' {
        seq!['\\', '\\']
    } else if c == '\u{8}' {
        seq!['\\', 'b']
    } else if c == '\u{c}' {
        seq!['\\', 'f']
    } else if c == '\n' {
        seq!['\\', 'n']
    } else if c == '\r' {
        seq!['\\', 'r']
    } else if c == '\t' {
        seq!['\\', 't']
    } else if (c as u32) < 0x20 {
        seq!['\\', 'u', '0', '0', hex_digit((c as u32) / 16), hex_digit((c as u32) % 16)]
    } else {
        seq![c]
    }
}

/// `serde_json::to_string(s)` for a string slice: the string quoted and
/// escaped as [`json_quoted`] says. Serialising a `str` into an in-memory
/// buffer cannot fail, so the empty fallback is never taken.
#[verifier::external_body]
fn json_string(s: &str) -> (r: String)
    ensures
        r@ == json_quoted(s@),
{
    serde_json::to_string(s).unwrap_or_default()
}

/// A policy receipt. The objective and the risk constraints are held as
/// their canonical JSON (object keys in order, compact), which is how they
/// enter the receipt's payload.
#[derive(Clone, Debug)]
pub struct PolicyReceipt {
    pub schema: String,
    pub model_digest: String,
    pub policy_digest: String,
    pub verifier_digest: String,
    /// The objective, as its canonical JSON value.
    pub objective: String,
    /// The risk constraints, as their canonical JSON array.
    pub constraints: String,
    pub predecessor: Option<String>,
    pub receipt_digest: String,
}

/// The canonical JSON of a receipt's payload, rebuilt from the receipt's
/// own fields: the schema, the three digests, the objective, the
/// constraints and the predecessor, keys in order.
pub open spec fn payload_text(r: PolicyReceipt) -> Seq<char> {
    "{\"constraints\":"@ + r.constraints@ + ",\"model_digest\":"@ + json_quoted(r.model_digest@)
        + ",\"objective\":"@ + r.objective@ + ",\"policy_digest\":"@ + json_quoted(
        r.policy_digest@,
    ) + ",\"predecessor\":"@ + match r.predecessor {
        None => "null"@,
        Some(p) => json_quoted(p@),
    } + ",\"schema\":"@ + json_quoted(RECEIPT_SCHEMA@) + ",\"verifier_digest\":"@ + json_quoted(
        r.verifier_digest@,
    ) + "}"@
}

/// The bytes of a receipt's payload.
pub open spec fn payload_of(r: PolicyReceipt) -> Seq<u8> {
    encode_utf8(payload_text(r))
}

/// A receipt holds together: it names the receipt schema and its digest is
/// the digest of the payload rebuilt from its own fields.
pub open spec fn receipt_valid(r: PolicyReceipt) -> bool {
    r.schema@ == RECEIPT_SCHEMA@ && digest_of(payload_of(r)) == r.receipt_digest@
}

/// The canonical JSON of a receipt's payload, from its fields.
pub fn receipt_payload(r: &PolicyReceipt) -> (t: String)
    ensures
        t@ == payload_text(*r),
{
    let pred = match &r.predecessor {
        None => String::from_str("null"),
        Some(p) => json_string(p.as_str()),
    };
    let a = cat3("{\"constraints\":", r.constraints.as_str(), ",\"model_digest\":");
    let b = cat3(a.as_str(), json_string(r.model_digest.as_str()).as_str(), ",\"objective\":");
    let c = cat3(b.as_str(), r.objective.as_str(), ",\"policy_digest\":");
    let d = cat3(c.as_str(), json_string(r.policy_digest.as_str()).as_str(), ",\"predecessor\":");
    let e = cat3(d.as_str(), pred.as_str(), ",\"schema\":");
    let f = cat3(e.as_str(), json_string(RECEIPT_SCHEMA).as_str(), ",\"verifier_digest\":");
    cat3(f.as_str(), json_string(r.verifier_digest.as_str()).as_str(), "}")
}

/// Bind a policy receipt: the given digests, objective, constraints and
/// predecessor under the receipt schema, with the digest of the payload
/// they make.
pub fn bind_policy_receipt(
    model_digest: String,
    policy_digest: String,
    verifier_digest: String,
    objective: String,
    constraints: String,
    predecessor: Option<String>,
) -> (r: PolicyReceipt)
    ensures
        r.schema@ == RECEIPT_SCHEMA@,
        r.model_digest == model_digest,
        r.policy_digest == policy_digest,
        r.verifier_digest == verifier_digest,
        r.objective == objective,
        r.constraints == constraints,
        r.predecessor == predecessor,
        r.receipt_digest@ == digest_of(payload_of(r)),
{
    let mut r = PolicyReceipt {
        schema: String::from_str(RECEIPT_SCHEMA),
        model_digest,
        policy_digest,
        verifier_digest,
        objective,
        constraints,
        predecessor,
        receipt_digest: String::new(),
    };
    let text = receipt_payload(&r);
    let digest = canonical_digest(text.as_str().as_bytes());
    r.receipt_digest = digest;
    r
}

/// What `bind_policy_receipt` makes verifies: binding and checking read
/// the same payload.
pub proof fn law_bound_receipt_verifies(r: PolicyReceipt)
    requires
        r.schema@ == RECEIPT_SCHEMA@,
        r.receipt_digest@ == digest_of(payload_of(r)),
    ensures
        receipt_valid(r),
{
}

/// A chain holds together: every receipt is valid, the first has no
/// predecessor, and every other names the digest of the one before it.
pub open spec fn chain_valid(rs: Seq<PolicyReceipt>) -> bool {
    forall|i: int|
        0 <= i < rs.len() ==> receipt_valid(#[trigger] rs[i]) && if i == 0 {
            rs[i].predecessor is None
        } else {
            rs[i].predecessor matches Some(p) && p@ == rs[i - 1].receipt_digest@
        }
}

/// Whether a receipt names the receipt schema and carries the digest of its
/// own payload.
pub fn verify_policy_receipt(receipt: &PolicyReceipt) -> (b: bool)
    ensures
        b == receipt_valid(*receipt),
{
    if !str_eq(receipt.schema.as_str(), RECEIPT_SCHEMA) {
        return false;
    }
    let text = receipt_payload(receipt);
    let d = canonical_digest(text.as_str().as_bytes());
    str_eq(d.as_str(), receipt.receipt_digest.as_str())
}

/// Whether a chain of receipts holds together: each receipt verifies, the
/// first has no predecessor, and each later one names the digest of the
/// receipt before it.
pub fn verify_policy_chain(receipts: &[PolicyReceipt]) -> (b: bool)
    ensures
        b == chain_valid(receipts@),
{
    let mut i: usize = 0;
    while i < receipts.len()
        invariant
            i <= receipts@.len(),
            forall|k: int|
                0 <= k < i ==> receipt_valid(#[trigger] receipts@[k]) && if k == 0 {
                    receipts@[k].predecessor is None
                } else {
                    receipts@[k].predecessor matches Some(p) && p@ == receipts@[k - 1].receipt_digest@
                },
        decreases receipts@.len() - i,
    {
        let r = &receipts[i];
        if !verify_policy_receipt(r) {
            return false;
        }
        if i == 0 {
            if r.predecessor.is_some() {
                return false;
            }
        } else {
            match &r.predecessor {
                None => {
                    return false;
                },
                Some(p) => {
                    if !str_eq(p.as_str(), receipts[i - 1].receipt_digest.as_str()) {
                        return false;
                    }
                },
            }
        }
        i = i + 1;
    }
    true
}

/// Every prefix of a valid chain is a valid chain.
pub proof fn law_chain_prefix_is_valid(rs: Seq<PolicyReceipt>, n: int)
    requires
        chain_valid(rs),
        0 <= n <= rs.len(),
    ensures
        chain_valid(rs.take(n)),
{
    assert forall|i: int| 0 <= i < n implies rs.take(n)[i] == rs[i] by {}
}

/// A valid chain extended by a valid receipt that names the digest of the
/// chain's last receipt (or, for an empty chain, names no predecessor) is a
/// valid chain.
pub proof fn law_chain_extends(rs: Seq<PolicyReceipt>, next: PolicyReceipt)
    requires
        chain_valid(rs),
        receipt_valid(next),
        rs.len() == 0 ==> next.predecessor is None,
        rs.len() > 0 ==> (next.predecessor matches Some(p) && p@ == rs.last().receipt_digest@),
    ensures
        chain_valid(rs.push(next)),
{
    let ext = rs.push(next);
    assert forall|i: int| 0 <= i < ext.len() implies receipt_valid(#[trigger] ext[i]) && if i
        == 0 {
        ext[i].predecessor is None
    } else {
        ext[i].predecessor matches Some(p) && p@ == ext[i - 1].receipt_digest@
    } by {
        if i < rs.len() {
            assert(ext[i] == rs[i]);
            if i > 0 {
                assert(ext[i - 1] == rs[i - 1]);
            }
        }
    }
}

proof fn lemma_hex_digit(n1: u32, n2: u32)
    requires
        n1 < 16,
        n2 < 16,
        hex_digit(n1) == hex_digit(n2),
    ensures
        n1 == n2,
{
    assert((hex_digit(n1) as u32) == if n1 < 10 { 48 + n1 } else { 87 + n1 });
    assert((hex_digit(n2) as u32) == if n2 < 10 { 48 + n2 } else { 87 + n2 });
}

/// Two escaped characters that begin one text are the same character.
proof fn lemma_json_char_prefix(c1: char, c2: char, x: Seq<char>, y: Seq<char>)
    requires
        json_char(c1) + x == json_char(c2) + y,
    ensures
        c1 == c2,
{
    let e1 = json_char(c1);
    let e2 = json_char(c2);
    let t = e1 + x;
    assert(t[0] == e1[0]);
    assert(t[0] == e2[0]);
    if e1[0] == '\\' {
        assert(t[1] == e1[1]);
        assert(t[1] == e2[1]);
        if e1[1] == 'u' {
            assert(t[4] == e1[4] && t[5] == e1[5]);
            assert(t[4] == e2[4] && t[5] == e2[5]);
            lemma_hex_digit((c1 as u32) / 16, (c2 as u32) / 16);
            lemma_hex_digit((c1 as u32) % 16, (c2 as u32) % 16);
            assert((c1 as u32) == (c2 as u32));
        }
    }
}

proof fn lemma_escaped_front(s: Seq<char>)
    requires
        s.len() > 0,
    ensures
        json_escaped(s) == json_char(s[0]) + json_escaped(s.drop_first()),
    decreases s.len(),
{
    if s.len() == 1 {
        assert(s.drop_last() =~= Seq::<char>::empty());
        assert(s.drop_first() =~= Seq::<char>::empty());
        assert(json_escaped(s) =~= json_char(s[0]) + json_escaped(s.drop_first()));
    } else {
        lemma_escaped_front(s.drop_last());
        assert(s.drop_first().drop_last() =~= s.drop_last().drop_first());
        assert(s.drop_first().last() == s.last());
        assert(s.drop_last()[0] == s[0]);
        assert(json_escaped(s) =~= json_char(s[0]) + json_escaped(s.drop_first()));
    }
}

/// Escaping loses nothing: two texts with one escaped form are one text.
proof fn lemma_escaped_injective(a: Seq<char>, b: Seq<char>)
    requires
        json_escaped(a) == json_escaped(b),
    ensures
        a == b,
    decreases a.len(),
{
    if a.len() == 0 {
        if b.len() > 0 {
            lemma_escaped_front(b);
            assert(json_escaped(b).len() > 0);
        }
        assert(a =~= b);
    } else {
        lemma_escaped_front(a);
        if b.len() == 0 {
            assert(json_escaped(a).len() > 0);
        }
        lemma_escaped_front(b);
        lemma_json_char_prefix(a[0], b[0], json_escaped(a.drop_first()), json_escaped(b.drop_first()));
        assert(json_escaped(a.drop_first()) =~= json_escaped(a).subrange(
            json_char(a[0]).len() as int,
            json_escaped(a).len() as int,
        ));
        assert(json_escaped(b.drop_first()) =~= json_escaped(b).subrange(
            json_char(b[0]).len() as int,
            json_escaped(b).len() as int,
        ));
        lemma_escaped_injective(a.drop_first(), b.drop_first());
        assert(a =~= seq![a[0]] + a.drop_first());
        assert(b =~= seq![b[0]] + b.drop_first());
    }
}

proof fn lemma_quoted_injective(a: Seq<char>, b: Seq<char>)
    requires
        json_quoted(a) == json_quoted(b),
    ensures
        a == b,
{
    let qa = json_quoted(a);
    assert(json_escaped(a) =~= qa.subrange(1, qa.len() - 1));
    assert(json_escaped(b) =~= json_quoted(b).subrange(1, json_quoted(b).len() - 1));
    lemma_escaped_injective(a, b);
}

pub open spec fn concat_all(ps: Seq<Seq<char>>) -> Seq<char>
    decreases ps.len(),
{
    if ps.len() == 0 {
        seq![]
    } else {
        concat_all(ps.drop_last()) + ps.last()
    }
}

/// In a concatenation of pieces, one piece is fixed by the whole and the
/// other pieces.
proof fn lemma_concat_piece(ps1: Seq<Seq<char>>, ps2: Seq<Seq<char>>, i: int)
    requires
        ps1.len() == ps2.len(),
        0 <= i < ps1.len(),
        forall|j: int| 0 <= j < ps1.len() && j != i ==> ps1[j] == ps2[j],
        concat_all(ps1) == concat_all(ps2),
    ensures
        ps1[i] == ps2[i],
    decreases ps1.len(),
{
    let d1 = ps1.drop_last();
    let d2 = ps2.drop_last();
    let a1 = concat_all(d1);
    let a2 = concat_all(d2);
    if i == ps1.len() - 1 {
        assert(d1 =~= d2);
        let x = ps1.last();
        let y = ps2.last();
        assert(x.len() == y.len()) by {
            assert((a1 + x).len() == (a2 + y).len());
        }
        assert(x =~= (a1 + x).subrange(a1.len() as int, (a1.len() + x.len()) as int));
        assert(y =~= (a2 + y).subrange(a2.len() as int, (a2.len() + y.len()) as int));
    } else {
        let t = ps1.last();
        assert(ps2.last() == t);
        assert(a1.len() == a2.len()) by {
            assert((a1 + t).len() == (a2 + t).len());
        }
        assert(a1 =~= (a1 + t).subrange(0, a1.len() as int));
        assert(a2 =~= (a2 + t).subrange(0, a2.len() as int));
        assert forall|j: int| 0 <= j < d1.len() && j != i implies d1[j] == d2[j] by {
            assert(d1[j] == ps1[j] && d2[j] == ps2[j]);
        }
        lemma_concat_piece(d1, d2, i);
    }
}

/// The fields of a receipt that its payload carries.
pub enum PayloadField {
    Constraints,
    ModelDigest,
    Objective,
    PolicyDigest,
    Predecessor,
    VerifierDigest,
}

pub open spec fn pred_view(p: Option<String>) -> Option<Seq<char>> {
    match p {
        None => None,
        Some(s) => Some(s@),
    }
}

/// Two receipts' payload fields agree, except perhaps `f`.
pub open spec fn agree_but(r1: PolicyReceipt, r2: PolicyReceipt, f: PayloadField) -> bool {
    &&& (f !is Constraints ==> r1.constraints@ == r2.constraints@)
    &&& (f !is ModelDigest ==> r1.model_digest@ == r2.model_digest@)
    &&& (f !is Objective ==> r1.objective@ == r2.objective@)
    &&& (f !is PolicyDigest ==> r1.policy_digest@ == r2.policy_digest@)
    &&& (f !is Predecessor ==> pred_view(r1.predecessor) == pred_view(r2.predecessor))
    &&& (f !is VerifierDigest ==> r1.verifier_digest@ == r2.verifier_digest@)
}

/// Two receipts' payload fields all agree.
pub open spec fn same_payload_fields(r1: PolicyReceipt, r2: PolicyReceipt) -> bool {
    agree_but(r1, r2, PayloadField::Constraints) && r1.constraints@ == r2.constraints@
}

pub open spec fn pred_text(p: Option<String>) -> Seq<char> {
    match p {
        None => "null"@,
        Some(s) => json_quoted(s@),
    }
}

/// A receipt whose payload fields all agree with a valid one's, but whose
/// schema or digest was changed, does not verify.
pub proof fn law_changed_schema_or_digest_fails(r1: PolicyReceipt, r2: PolicyReceipt)
    requires
        receipt_valid(r1),
        same_payload_fields(r1, r2),
        r2.schema@ != r1.schema@ || r2.receipt_digest@ != r1.receipt_digest@,
    ensures
        !receipt_valid(r2),
{
    assert(pred_text(r1.predecessor) == pred_text(r2.predecessor));
    assert(payload_text(r1) =~= payload_text(r2));
}

/// Changing one field that the payload carries changes the payload (so a
/// receipt so changed verifies only if the two payloads share a BLAKE3
/// digest).
pub proof fn law_changed_field_moves_the_payload(r1: PolicyReceipt, r2: PolicyReceipt, f: PayloadField)
    requires
        agree_but(r1, r2, f),
        payload_of(r1) == payload_of(r2),
    ensures
        r1.constraints@ == r2.constraints@,
        r1.model_digest@ == r2.model_digest@,
        r1.objective@ == r2.objective@,
        r1.policy_digest@ == r2.policy_digest@,
        pred_view(r1.predecessor) == pred_view(r2.predecessor),
        r1.verifier_digest@ == r2.verifier_digest@,
{
    broadcast use vstd::utf8::encode_utf8_decode_utf8;
    assert(vstd::utf8::decode_utf8(payload_of(r1)) == payload_text(r1));
    assert(payload_text(r1) == payload_text(r2));
    lemma_payload_pieces(r1);
    lemma_payload_pieces(r2);
    let ps1 = payload_pieces(r1);
    let ps2 = payload_pieces(r2);
    let i: int = match f {
        PayloadField::Constraints => 1,
        PayloadField::ModelDigest => 3,
        PayloadField::Objective => 5,
        PayloadField::PolicyDigest => 7,
        PayloadField::Predecessor => 9,
        PayloadField::VerifierDigest => 13,
    };
    assert forall|j: int| 0 <= j < ps1.len() && j != i implies ps1[j] == ps2[j] by {}
    lemma_concat_piece(ps1, ps2, i);
    match f {
        PayloadField::ModelDigest => {
            lemma_quoted_injective(r1.model_digest@, r2.model_digest@);
        },
        PayloadField::PolicyDigest => {
            lemma_quoted_injective(r1.policy_digest@, r2.policy_digest@);
        },
        PayloadField::VerifierDigest => {
            lemma_quoted_injective(r1.verifier_digest@, r2.verifier_digest@);
        },
        PayloadField::Predecessor => {
            let d1 = pred_text(r1.predecessor);
            let d2 = pred_text(r2.predecessor);
            match (r1.predecessor, r2.predecessor) {
                (Some(a), Some(b)) => {
                    lemma_quoted_injective(a@, b@);
                },
                (None, Some(b)) => {
                    reveal_strlit("null");
                    assert(d1[0] != d2[0]);
                },
                (Some(a), None) => {
                    reveal_strlit("null");
                    assert(d1[0] != d2[0]);
                },
                (None, None) => {},
            }
        },
        _ => {},
    }
}

/// The pieces of a receipt's payload, in order.
pub open spec fn payload_pieces(r: PolicyReceipt) -> Seq<Seq<char>> {
    seq![
        "{\"constraints\":"@,
        r.constraints@,
        ",\"model_digest\":"@,
        json_quoted(r.model_digest@),
        ",\"objective\":"@,
        r.objective@,
        ",\"policy_digest\":"@,
        json_quoted(r.policy_digest@),
        ",\"predecessor\":"@,
        pred_text(r.predecessor),
        ",\"schema\":"@,
        json_quoted(RECEIPT_SCHEMA@),
        ",\"verifier_digest\":"@,
        json_quoted(r.verifier_digest@),
        "}"@,
    ]
}

proof fn lemma_payload_pieces(r: PolicyReceipt)
    ensures
        payload_text(r) == concat_all(payload_pieces(r)),
{
    let ps = payload_pieces(r);
    assert(ps.subrange(0, 0) =~= Seq::<Seq<char>>::empty());
    assert(ps.subrange(0, 1).drop_last() =~= ps.subrange(0, 0));
    assert(concat_all(ps.subrange(0, 1)) == concat_all(ps.subrange(0, 0)) + ps[0]);
    assert(ps.subrange(0, 2).drop_last() =~= ps.subrange(0, 1));
    assert(concat_all(ps.subrange(0, 2)) == concat_all(ps.subrange(0, 1)) + ps[1]);
    assert(ps.subrange(0, 3).drop_last() =~= ps.subrange(0, 2));
    assert(concat_all(ps.subrange(0, 3)) == concat_all(ps.subrange(0, 2)) + ps[2]);
    assert(ps.subrange(0, 4).drop_last() =~= ps.subrange(0, 3));
    assert(concat_all(ps.subrange(0, 4)) == concat_all(ps.subrange(0, 3)) + ps[3]);
    assert(ps.subrange(0, 5).drop_last() =~= ps.subrange(0, 4));
    assert(concat_all(ps.subrange(0, 5)) == concat_all(ps.subrange(0, 4)) + ps[4]);
    assert(ps.subrange(0, 6).drop_last() =~= ps.subrange(0, 5));
    assert(concat_all(ps.subrange(0, 6)) == concat_all(ps.subrange(0, 5)) + ps[5]);
    assert(ps.subrange(0, 7).drop_last() =~= ps.subrange(0, 6));
    assert(concat_all(ps.subrange(0, 7)) == concat_all(ps.subrange(0, 6)) + ps[6]);
    assert(ps.subrange(0, 8).drop_last() =~= ps.subrange(0, 7));
    assert(concat_all(ps.subrange(0, 8)) == concat_all(ps.subrange(0, 7)) + ps[7]);
    assert(ps.subrange(0, 9).drop_last() =~= ps.subrange(0, 8));
    assert(concat_all(ps.subrange(0, 9)) == concat_all(ps.subrange(0, 8)) + ps[8]);
    assert(ps.subrange(0, 10).drop_last() =~= ps.subrange(0, 9));
    assert(concat_all(ps.subrange(0, 10)) == concat_all(ps.subrange(0, 9)) + ps[9]);
    assert(ps.subrange(0, 11).drop_last() =~= ps.subrange(0, 10));
    assert(concat_all(ps.subrange(0, 11)) == concat_all(ps.subrange(0, 10)) + ps[10]);
    assert(ps.subrange(0, 12).drop_last() =~= ps.subrange(0, 11));
    assert(concat_all(ps.subrange(0, 12)) == concat_all(ps.subrange(0, 11)) + ps[11]);
    assert(ps.subrange(0, 13).drop_last() =~= ps.subrange(0, 12));
    assert(concat_all(ps.subrange(0, 13)) == concat_all(ps.subrange(0, 12)) + ps[12]);
    assert(ps.subrange(0, 14).drop_last() =~= ps.subrange(0, 13));
    assert(concat_all(ps.subrange(0, 14)) == concat_all(ps.subrange(0, 13)) + ps[13]);
    assert(ps.subrange(0, 15).drop_last() =~= ps.subrange(0, 14));
    assert(concat_all(ps.subrange(0, 15)) == concat_all(ps.subrange(0, 14)) + ps[14]);
    assert(ps.subrange(0, 15) =~= ps);
    assert(concat_all(ps) =~= payload_text(r));
}

} // verus!
