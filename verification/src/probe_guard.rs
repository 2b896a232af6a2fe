//! Admission guards for counterfactual session probes. Each guard returns
//! evidence (the offending value), never authority: a refusal only stops a
//! candidate from being forked.

use vstd::prelude::*;
use vstd::utf8::encode_utf8;
use crate::text::{chars_eq, chars_of, is_whitespace, is_ws, str_eq, string_from, to_upper_char, upper, upper_char};

verus! {

/// Maximum candidate id length (bytes) accepted by either probe surface.
pub const MAX_PROBE_ID_BYTES: usize = 256;

/// UTF-8 length of a character sequence (what `str::len` reports).
pub open spec fn byte_len(s: Seq<char>) -> nat {
    encode_utf8(s).len()
}

/// The maximal runs of non-whitespace characters of `s`, in order (what
/// `str::split_whitespace` yields).
pub open spec fn words(s: Seq<char>) -> Seq<Seq<char>>
    decreases s.len(),
{
    if s.len() == 0 {
        seq![]
    } else {
        let w = words(s.drop_last());
        let c = s.last();
        if is_ws(c) {
            w
        } else if s.len() >= 2 && !is_ws(s[s.len() - 2]) {
            w.update(w.len() - 1, w.last().push(c))
        } else {
            w.push(seq![c])
        }
    }
}

/// The words joined by single spaces.
pub open spec fn join_words(ws: Seq<Seq<char>>) -> Seq<char>
    decreases ws.len(),
{
    if ws.len() == 0 {
        seq![]
    } else if ws.len() == 1 {
        ws[0]
    } else {
        join_words(ws.drop_last()) + seq![' '] + ws.last()
    }
}

/// The canonical key of a fact display: whitespace runs collapsed to one
/// space, leading and trailing whitespace dropped, ASCII uppercased.
pub open spec fn key_of(s: Seq<char>) -> Seq<char> {
    upper(join_words(words(s)))
}

pub(crate) proof fn lemma_words_nonempty(s: Seq<char>)
    requires
        s.len() > 0,
        !is_ws(s.last()),
    ensures
        words(s).len() > 0,
    decreases s.len(),
{
    if s.len() >= 2 && !is_ws(s[s.len() - 2]) {
        let t = s.drop_last();
        assert(t.last() == s[s.len() - 2]);
        lemma_words_nonempty(t);
    }
}

proof fn lemma_join_extend(ws: Seq<Seq<char>>, c: char)
    requires
        ws.len() > 0,
    ensures
        join_words(ws.update(ws.len() - 1, ws.last().push(c))) == join_words(ws).push(c),
{
    let u = ws.update(ws.len() - 1, ws.last().push(c));
    if ws.len() == 1 {
    } else {
        assert(u.drop_last() =~= ws.drop_last());
        assert(join_words(u) =~= join_words(ws).push(c));
    }
}

proof fn lemma_join_push(ws: Seq<Seq<char>>, x: Seq<char>)
    ensures
        join_words(ws.push(x)) == if ws.len() == 0 {
            x
        } else {
            join_words(ws) + seq![' '] + x
        },
{
    assert(ws.push(x).drop_last() =~= ws);
}

proof fn lemma_upper_concat(a: Seq<char>, b: Seq<char>)
    ensures
        upper(a + b) == upper(a) + upper(b),
{
    assert(upper(a + b) =~= upper(a) + upper(b));
}

/// The canonical key of a fact display, over characters.
pub fn fact_key_chars(s: &[char]) -> (k: Vec<char>)
    ensures
        k@ == key_of(s@),
{
    let mut out: Vec<char> = Vec::new();
    let mut prev_ws = true;
    let mut i: usize = 0;
    proof {
        assert(s@.take(0) =~= Seq::<char>::empty());
    }
    while i < s.len()
        invariant
            i <= s.len(),
            out@ == key_of(s@.take(i as int)),
            (words(s@.take(i as int)).len() == 0) == (out@.len() == 0),
            prev_ws == (i == 0 || is_ws(s@[i - 1])),
        decreases s.len() - i,
    {
        let c = s[i];
        let ghost pre = s@.take(i as int);
        let ghost cur = s@.take(i + 1);
        proof {
            assert(cur.drop_last() =~= pre);
            assert(cur.last() == c);
            if i > 0 {
                assert(cur[cur.len() - 2] == s@[i - 1]);
            }
        }
        if is_whitespace(c) {
            prev_ws = true;
        } else {
            let ghost w = words(pre);
            if prev_ws {
                if out.len() > 0 {
                    out.push(' ');
                }
                out.push(to_upper_char(c));
                proof {
                    assert(words(cur) == w.push(seq![c]));
                    lemma_join_push(w, seq![c]);
                    if w.len() == 0 {
                        assert(out@ =~= upper(seq![c]));
                    } else {
                        lemma_upper_concat(join_words(w) + seq![' '], seq![c]);
                        lemma_upper_concat(join_words(w), seq![' ']);
                        assert(upper(seq![' ']) =~= seq![' ']);
                        assert(upper(seq![c]) =~= seq![upper_char(c)]);
                    }
                    lemma_words_nonempty(cur);
                }
            } else {
                out.push(to_upper_char(c));
                proof {
                    lemma_words_nonempty(pre);
                    assert(words(cur) == w.update(w.len() - 1, w.last().push(c)));
                    lemma_join_extend(w, c);
                    assert(join_words(w).push(c) =~= join_words(w) + seq![c]);
                    lemma_upper_concat(join_words(w), seq![c]);
                    assert(upper(seq![c]) =~= seq![upper_char(c)]);
                }
            }
            prev_ws = false;
        }
        i = i + 1;
    }
    proof {
        assert(s@.take(s.len() as int) =~= s@);
    }
    out
}

/// Canonical key for a fact display: ASCII-uppercased with whitespace runs
/// collapsed, matching how the grounder canonicalises `(at a)` / `(AT  A)`.
pub fn fact_key(fact: &str) -> (k: String)
    ensures
        k@ == key_of(fact@),
{
    let cs = chars_of(fact);
    let k = fact_key_chars(cs.as_slice());
    string_from(k.as_slice())
}

/// Whether a candidate id is malformed: empty, or longer than
/// [`MAX_PROBE_ID_BYTES`].
pub open spec fn malformed(id: Seq<char>) -> bool {
    id.len() == 0 || byte_len(id) > MAX_PROBE_ID_BYTES
}

/// First candidate id that is empty or longer than [`MAX_PROBE_ID_BYTES`].
pub fn malformed_id<'a>(ids: &[&'a str]) -> (r: Option<&'a str>)
    ensures
        r is None <==> forall|i: int| 0 <= i < ids@.len() ==> !malformed(#[trigger] ids@[i]@),
        r matches Some(id) ==> exists|i: int|
            0 <= i < ids@.len() && ids@[i] == id && malformed(id@) && forall|j: int|
                0 <= j < i ==> !malformed(#[trigger] ids@[j]@),
{
    let mut i: usize = 0;
    while i < ids.len()
        invariant
            i <= ids@.len(),
            forall|j: int| 0 <= j < i ==> !malformed(#[trigger] ids@[j]@),
        decreases ids@.len() - i,
    {
        let id = ids[i];
        if id.is_empty() || id.as_bytes().len() > MAX_PROBE_ID_BYTES {
            return Some(id);
        }
        i = i + 1;
    }
    None
}

/// Index of the first id delivered a second time: the smallest `i` with an
/// equal id at some `j < i`.
pub open spec fn first_repeat(ids: Seq<Seq<char>>, i: int) -> bool {
    &&& 0 <= i < ids.len()
    &&& exists|j: int| 0 <= j < i && ids[j] == ids[i]
    &&& forall|k: int, j: int| 0 <= j < k < i ==> ids[j] != ids[k]
}

/// First candidate id delivered more than once in one probe request.
/// Duplicate ids make the result set ambiguous for a consumer that keys
/// results by id, so the whole request is refused before any fork.
pub fn duplicate_id<'a>(ids: &[&'a str]) -> (r: Option<&'a str>)
    ensures
        r is None <==> forall|j: int, k: int|
            0 <= j < k < ids@.len() ==> ids@[j]@ != ids@[k]@,
        r matches Some(id) ==> exists|i: int|
            first_repeat(ids@.map_values(|s: &str| s@), i) && ids@[i] == id,
{
    let ghost views = ids@.map_values(|s: &str| s@);
    let mut i: usize = 0;
    while i < ids.len()
        invariant
            i <= ids@.len(),
            views == ids@.map_values(|s: &str| s@),
            forall|j: int, k: int| 0 <= j < k < i ==> ids@[j]@ != ids@[k]@,
        decreases ids@.len() - i,
    {
        let mut j: usize = 0;
        while j < i
            invariant
                j <= i < ids@.len(),
                views == ids@.map_values(|s: &str| s@),
                forall|j: int, k: int| 0 <= j < k < i ==> ids@[j]@ != ids@[k]@,
                forall|m: int| 0 <= m < j ==> ids@[m]@ != ids@[i as int]@,
            decreases i - j,
        {
            if str_eq(ids[j], ids[i]) {
                proof {
                    assert(views[j as int] == views[i as int]);
                    assert forall|k: int, m: int| 0 <= m < k < i implies views[m] != views[k] by {
                        assert(views[m] == ids@[m]@ && views[k] == ids@[k]@);
                    }
                    assert(first_repeat(views, i as int));
                }
                return Some(ids[i]);
            }
            j = j + 1;
        }
        i = i + 1;
    }
    None
}

/// The first contradiction in a sight list: the smallest `i` whose fact key
/// was seen earlier with the other truth value.
pub open spec fn first_contradiction(keys: Seq<Seq<char>>, vals: Seq<bool>, i: int) -> bool {
    &&& 0 <= i < keys.len()
    &&& exists|j: int| 0 <= j < i && keys[j] == keys[i] && vals[j] != vals[i]
    &&& forall|k: int, j: int|
        0 <= j < k < i ==> !(keys[j] == keys[k] && vals[j] != vals[k])
}

pub open spec fn sight_keys(sight: Seq<(String, bool)>) -> Seq<Seq<char>> {
    sight.map_values(|e: (String, bool)| key_of(e.0@))
}

pub open spec fn sight_values(sight: Seq<(String, bool)>) -> Seq<bool> {
    sight.map_values(|e: (String, bool)| e.1)
}

/// First fact observed with both `true` and `false` in one candidate's
/// sight (facts compared by their canonical key). A contradictory sight
/// would silently depend on list order, so it is refused instead.
pub fn contradictory_fact(sight: &[(String, bool)]) -> (r: Option<&str>)
    ensures
        r is None <==> forall|j: int, k: int|
            0 <= j < k < sight@.len() ==> !(sight_keys(sight@)[j] == sight_keys(sight@)[k]
                && sight@[j].1 != sight@[k].1),
        r matches Some(f) ==> exists|i: int|
            first_contradiction(sight_keys(sight@), sight_values(sight@), i) && f@
                == sight@[i].0@,
{
    let ghost keys = sight_keys(sight@);
    let ghost vals = sight_values(sight@);
    let mut ks: Vec<Vec<char>> = Vec::new();
    let mut i: usize = 0;
    while i < sight.len()
        invariant
            i <= sight@.len(),
            keys == sight_keys(sight@),
            vals == sight_values(sight@),
            ks@.len() == i,
            forall|m: int| 0 <= m < i ==> (#[trigger] ks@[m])@ == keys[m],
            forall|j: int, k: int|
                0 <= j < k < i ==> !(keys[j] == keys[k] && vals[j] != vals[k]),
        decreases sight@.len() - i,
    {
        let cs = chars_of(sight[i].0.as_str());
        let key = fact_key_chars(cs.as_slice());
        let value = sight[i].1;
        let mut j: usize = 0;
        while j < i
            invariant
                j <= i < sight@.len(),
                ks@.len() == i,
                keys == sight_keys(sight@),
                vals == sight_values(sight@),
                key@ == keys[i as int],
                value == vals[i as int],
                forall|m: int| 0 <= m < i ==> (#[trigger] ks@[m])@ == keys[m],
                forall|m: int| 0 <= m < j ==> !(keys[m] == keys[i as int] && vals[m] != vals[i as int]),
                forall|j: int, k: int|
                    0 <= j < k < i ==> !(keys[j] == keys[k] && vals[j] != vals[k]),
            decreases i - j,
        {
            if sight[j].1 != value && chars_eq(ks[j].as_slice(), key.as_slice()) {
                proof {
                    assert(ks@[j as int]@ == keys[j as int]);
                    assert(vals[j as int] == sight@[j as int].1);
                    assert(keys[j as int] == keys[i as int] && vals[j as int] != vals[i as int]);
                    assert(first_contradiction(keys, vals, i as int));
                }
                return Some(sight[i].0.as_str());
            }
            proof {
                assert(ks@[j as int]@ == keys[j as int]);
                assert(vals[j as int] == sight@[j as int].1);
            }
            j = j + 1;
        }
        ks.push(key);
        i = i + 1;
    }
    None
}

/// Whether a sight holds a contradiction does not depend on the order of its
/// entries nor on how each fact is spelled: any permutation of a sight, and
/// any respelling with the same canonical keys, is refused exactly when the
/// sight itself is.
pub proof fn law_contradiction_is_order_and_spelling_independent(
    keys: Seq<Seq<char>>,
    vals: Seq<bool>,
    keys2: Seq<Seq<char>>,
    vals2: Seq<bool>,
    perm: Seq<int>,
)
    requires
        keys.len() == vals.len(),
        keys2.len() == vals2.len(),
        keys2.len() == keys.len(),
        perm.len() == keys.len(),
        forall|i: int| 0 <= i < perm.len() ==> 0 <= #[trigger] perm[i] < keys.len(),
        forall|i: int, j: int| 0 <= i < j < perm.len() ==> perm[i] != perm[j],
        forall|i: int|
            0 <= i < perm.len() ==> keys2[i] == keys[#[trigger] perm[i]] && vals2[i]
                == vals[perm[i]],
    ensures
        (exists|j: int, k: int|
            0 <= j < k < keys.len() && keys[j] == keys[k] && vals[j] != vals[k]) <==> (exists|
            j: int,
            k: int,
        | 0 <= j < k < keys2.len() && keys2[j] == keys2[k] && vals2[j] != vals2[k]),
{
    if exists|j: int, k: int|
        0 <= j < k < keys2.len() && keys2[j] == keys2[k] && vals2[j] != vals2[k] {
        let (j, k) = choose|j: int, k: int|
            0 <= j < k < keys2.len() && keys2[j] == keys2[k] && vals2[j] != vals2[k];
        let (a, b) = if perm[j] < perm[k] {
            (perm[j], perm[k])
        } else {
            (perm[k], perm[j])
        };
        assert(0 <= a < b < keys.len() && keys[a] == keys[b] && vals[a] != vals[b]);
    }
    if exists|j: int, k: int|
        0 <= j < k < keys.len() && keys[j] == keys[k] && vals[j] != vals[k] {
        let (j, k) = choose|j: int, k: int|
            0 <= j < k < keys.len() && keys[j] == keys[k] && vals[j] != vals[k];
        lemma_perm_onto(perm, keys.len() as int, j);
        lemma_perm_onto(perm, keys.len() as int, k);
        let x = choose|x: int| 0 <= x < perm.len() && perm[x] == j;
        let y = choose|y: int| 0 <= y < perm.len() && perm[y] == k;
        let (a, b) = if x < y {
            (x, y)
        } else {
            (y, x)
        };
        assert(0 <= a < b < keys2.len() && keys2[a] == keys2[b] && vals2[a] != vals2[b]);
    }
}

/// An injective map from `0..n` into `0..n` reaches every value.
proof fn lemma_perm_onto(perm: Seq<int>, n: int, v: int)
    requires
        perm.len() == n,
        0 <= v < n,
        forall|i: int| 0 <= i < perm.len() ==> 0 <= #[trigger] perm[i] < n,
        forall|i: int, j: int| 0 <= i < j < perm.len() ==> perm[i] != perm[j],
    ensures
        exists|x: int| 0 <= x < perm.len() && perm[x] == v,
{
    if !(exists|x: int| 0 <= x < perm.len() && perm[x] == v) {
        // Then `perm` maps `n` indices injectively into `n - 1` values.
        let s = perm.to_set();
        let t = Set::new(|x: int| 0 <= x < n && x != v);
        assert(s.subset_of(t)) by {
            assert forall|x: int| s.contains(x) implies t.contains(x) by {
                let i = choose|i: int| 0 <= i < perm.len() && perm[i] == x;
            }
        }
        assert(t =~= Set::new(|x: int| 0 <= x < n).remove(v));
        vstd::set_lib::lemma_int_range(0, n);
        assert(Set::new(|x: int| 0 <= x < n) =~= vstd::set_lib::set_int_range(0, n));
        vstd::set_lib::lemma_len_subset(s, t);
        assert(perm.no_duplicates()) by {
            assert forall|i: int, j: int| 0 <= i < perm.len() && 0 <= j < perm.len() && i != j implies perm[i] != perm[j] by {
                if i > j {
                    assert(perm[j] != perm[i]);
                }
            }
        }
        perm.unique_seq_to_set();
    }
}

} // verus!
