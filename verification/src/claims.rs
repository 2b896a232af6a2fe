//! The claims policy of a session's action surface: an actor's moves are
//! scoped by their display prefix, and a move whose received item someone
//! has already claimed is blacked out.

use vstd::prelude::*;
use crate::probe_guard::{lemma_words_nonempty, words};
use crate::text::{
    char_views, chars_of, is_whitespace, is_ws, split_chars, split_on, string_from, to_upper_char,
    trim, trim_chars, upper,
};

verus! {

/// The claimed items of a comma-separated claim list: each piece trimmed
/// and ASCII-uppercased, empty pieces dropped, in list order.
pub open spec fn claim_items(pieces: Seq<Seq<char>>) -> Seq<Seq<char>>
    decreases pieces.len(),
{
    if pieces.len() == 0 {
        seq![]
    } else {
        let prev = claim_items(pieces.drop_last());
        let item = upper(trim(pieces.last()));
        if item.len() == 0 {
            prev
        } else {
            prev.push(item)
        }
    }
}

/// `y.trim_end_matches(')')`: `y` without its trailing `)`s.
pub open spec fn strip_closing(y: Seq<char>) -> Seq<char>
    decreases y.len(),
{
    if y.len() > 0 && y.last() == ')' {
        strip_closing(y.drop_last())
    } else {
        y
    }
}

/// Whether a move display passes the policy: it starts with the actor's
/// prefix, and its fifth token (the item received), without trailing `)`s,
/// is not claimed. A display with fewer than five tokens passes on its
/// prefix alone.
pub open spec fn claims_pass(display: Seq<char>, prefix: Seq<char>, claims: Seq<Seq<char>>) -> bool {
    &&& display.len() >= prefix.len() && display.take(prefix.len() as int) == prefix
    &&& words(display).len() > 4 ==> !claims.contains(strip_closing(words(display)[4]))
}

/// The claimed items of a comma-separated claim list: each piece trimmed
/// and ASCII-uppercased, empty pieces dropped.
pub fn claimed_items(claimed: &str) -> (items: Vec<String>)
    ensures
        items@.map_values(|s: String| s@) == claim_items(split_on(claimed@, ',')),
{
    let cs = chars_of(claimed);
    let pieces = split_chars(cs.as_slice(), ',');
    let ghost ps = char_views(pieces@);
    let mut items: Vec<String> = Vec::new();
    let mut i: usize = 0;
    proof {
        assert(ps.take(0) =~= Seq::<Seq<char>>::empty());
        assert(items@.map_values(|s: String| s@) =~= Seq::<Seq<char>>::empty());
    }
    while i < pieces.len()
        invariant
            i <= pieces@.len(),
            ps == char_views(pieces@),
            ps == split_on(claimed@, ','),
            items@.map_values(|s: String| s@) == claim_items(ps.take(i as int)),
        decreases pieces@.len() - i,
    {
        let t = trim_chars(pieces[i].as_slice());
        let mut up: Vec<char> = Vec::new();
        let mut k: usize = 0;
        while k < t.len()
            invariant
                k <= t@.len(),
                up@ == upper(t@.take(k as int)),
            decreases t@.len() - k,
        {
            up.push(to_upper_char(t[k]));
            k = k + 1;
            proof {
                assert(up@ =~= upper(t@.take(k as int)));
            }
        }
        proof {
            assert(t@.take(t@.len() as int) =~= t@);
            assert(ps.take(i + 1).drop_last() =~= ps.take(i as int));
            assert(ps.take(i + 1).last() == pieces@[i as int]@);
        }
        if up.len() > 0 {
            let ghost before = items@;
            let s = string_from(up.as_slice());
            items.push(s);
            proof {
                assert(items@.map_values(|s: String| s@) =~= before.map_values(|s: String| s@).push(
                    up@,
                ));
            }
        }
        i = i + 1;
    }
    proof {
        assert(ps.take(ps.len() as int) =~= ps);
    }
    items
}

/// The whitespace-separated tokens of `s`.
fn tokens(s: &[char]) -> (ws: Vec<Vec<char>>)
    ensures
        char_views(ws@) == words(s@),
{
    let mut ws: Vec<Vec<char>> = Vec::new();
    let mut prev_ws = true;
    let mut i: usize = 0;
    proof {
        assert(s@.take(0) =~= Seq::<char>::empty());
        assert(char_views(ws@) =~= Seq::<Seq<char>>::empty());
    }
    while i < s.len()
        invariant
            i <= s@.len(),
            char_views(ws@) == words(s@.take(i as int)),
            prev_ws == (i == 0 || is_ws(s@[i - 1])),
        decreases s@.len() - i,
    {
        let c = s[i];
        let ghost pre = s@.take(i as int);
        let ghost cur = s@.take(i + 1);
        proof {
            assert(cur.drop_last() =~= pre);
            assert(cur.last() == c);
            if i > 0 {
                assert(cur[cur.len() - 2] == s@[i - 1]);
            }
        }
        if is_whitespace(c) {
            prev_ws = true;
        } else {
            if prev_ws {
                let ghost before = ws@;
                let mut w: Vec<char> = Vec::new();
                w.push(c);
                ws.push(w);
                proof {
                    assert(char_views(ws@) =~= char_views(before).push(seq![c]));
                }
            } else {
                proof {
                    lemma_words_nonempty(pre);
                }
                let last = ws.len() - 1;
                let ghost before = ws@;
                let mut w = ws.pop().unwrap();
                w.push(c);
                ws.push(w);
                proof {
                    assert(char_views(ws@) =~= char_views(before).update(
                        last as int,
                        char_views(before)[last as int].push(c),
                    ));
                }
            }
            prev_ws = false;
        }
        i = i + 1;
    }
    proof {
        assert(s@.take(s@.len() as int) =~= s@);
    }
    ws
}

fn strip_closing_exec(y: &[char]) -> (r: Vec<char>)
    ensures
        r@ == strip_closing(y@),
{
    let mut end: usize = y.len();
    proof {
        assert(y@.take(end as int) =~= y@);
    }
    while end > 0 && y[end - 1] == ')'
        invariant
            end <= y@.len(),
            strip_closing(y@) == strip_closing(y@.take(end as int)),
        decreases end,
    {
        proof {
            assert(y@.take(end as int).drop_last() =~= y@.take(end - 1));
        }
        end = end - 1;
    }
    let mut r: Vec<char> = Vec::new();
    let mut k: usize = 0;
    while k < end
        invariant
            k <= end <= y@.len(),
            r@ == y@.take(k as int),
        decreases end - k,
    {
        r.push(y[k]);
        k = k + 1;
        proof {
            assert(r@ =~= y@.take(k as int));
        }
    }
    r
}

/// Whether a move display passes the claims policy for an actor's prefix.
pub fn claims_allow(display: &str, prefix: &str, claims: &[String]) -> (b: bool)
    ensures
        b == claims_pass(display@, prefix@, claims@.map_values(|s: String| s@)),
{
    let d = chars_of(display);
    let p = chars_of(prefix);
    if d.len() < p.len() {
        return false;
    }
    let mut i: usize = 0;
    while i < p.len()
        invariant
            i <= p@.len() <= d@.len(),
            d@ == display@,
            p@ == prefix@,
            forall|k: int| 0 <= k < i ==> d@[k] == p@[k],
        decreases p@.len() - i,
    {
        if d[i] != p[i] {
            assert(d@.take(p@.len() as int)[i as int] != p@[i as int]);
            return false;
        }
        i = i + 1;
    }
    proof {
        assert(d@.take(p@.len() as int) =~= p@);
    }
    let ws = tokens(d.as_slice());
    if ws.len() <= 4 {
        return true;
    }
    proof {
        assert(char_views(ws@)[4] == ws@[4]@);
    }
    let y = strip_closing_exec(ws[4].as_slice());
    let ghost cl = claims@.map_values(|s: String| s@);
    let mut j: usize = 0;
    while j < claims.len()
        invariant
            j <= claims@.len(),
            cl == claims@.map_values(|s: String| s@),
            d@ == display@,
            p@ == prefix@,
            d@.len() >= p@.len() && d@.take(p@.len() as int) == p@,
            char_views(ws@) == words(d@),
            ws@.len() > 4,
            y@ == strip_closing(ws@[4]@),
            forall|k: int| 0 <= k < j ==> cl[k] != y@,
        decreases claims@.len() - j,
    {
        let c = chars_of(claims[j].as_str());
        if crate::text::chars_eq(c.as_slice(), y.as_slice()) {
            proof {
                assert(cl[j as int] == y@);
            }
            return false;
        }
        j = j + 1;
    }
    proof {
        assert(!cl.contains(y@));
    }
    true
}

} // verus!
