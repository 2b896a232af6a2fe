//! The request-field readers of the wire adapter: doctrine names, feature
//! flags and size bounds, checked before anything is solved.

use vstd::prelude::*;
use vstd::string::StringExecFns;
use vstd::utf8::{encode_utf8, is_char_boundary};
use crate::api::{Mode, Search};
use crate::features::{order, set_overrides, Overrides};
use crate::probe_guard::byte_len;
use crate::dfcm_route::Refusal;
use crate::text::{cat, cat3, char_views, chars_are, chars_of, dec, lower, lower_chars, numbered, split_chars, split_on, string_from, trim, trim_chars};

verus! {

/// The mode a (lowercased) name selects.
pub open spec fn mode_named(s: Seq<char>) -> Option<Mode> {
    if s == "auto"@ {
        Some(Mode::Auto)
    } else if s == "ff"@ {
        Some(Mode::Ff)
    } else if s == "pddl3"@ {
        Some(Mode::Pddl3)
    } else if s == "partition"@ {
        Some(Mode::Partition)
    } else if s == "temporal"@ {
        Some(Mode::Temporal)
    } else if s == "portfolio"@ {
        Some(Mode::Portfolio)
    } else {
        None
    }
}

fn mode_of(s: &[char]) -> (m: Option<Mode>)
    ensures
        m == mode_named(s@),
{
    if chars_are(s, "auto") {
        Some(Mode::Auto)
    } else if chars_are(s, "ff") {
        Some(Mode::Ff)
    } else if chars_are(s, "pddl3") {
        Some(Mode::Pddl3)
    } else if chars_are(s, "partition") {
        Some(Mode::Partition)
    } else if chars_are(s, "temporal") {
        Some(Mode::Temporal)
    } else if chars_are(s, "portfolio") {
        Some(Mode::Portfolio)
    } else {
        None
    }
}

/// The lenient mode reader: an absent or unknown name means `auto`.
pub fn parse_mode(m: Option<&str>) -> (r: Mode)
    ensures
        r == match m {
            Some(s) => match mode_named(lower(s@)) {
                Some(md) => md,
                None => Mode::Auto,
            },
            None => Mode::Auto,
        },
{
    match m {
        Some(s) => {
            let l = lower_chars(s);
            match mode_of(l.as_slice()) {
                Some(md) => md,
                None => Mode::Auto,
            }
        },
        None => Mode::Auto,
    }
}

/// The strict mode reader: an absent name means `auto`, an unknown one is
/// refused by name.
pub fn parse_mode_strict(m: Option<&str>) -> (r: Result<Mode, String>)
    ensures
        match m {
            None => r == Ok::<Mode, String>(Mode::Auto),
            Some(s) => match mode_named(lower(s@)) {
                Some(md) => r == Ok::<Mode, String>(md),
                None => r matches Err(e) && e@ == "unsupported mode `"@ + lower(s@) + "`"@,
            },
        },
{
    match m {
        None => Ok(Mode::Auto),
        Some(s) => {
            let l = lower_chars(s);
            match mode_of(l.as_slice()) {
                Some(md) => Ok(md),
                None => {
                    let other = string_from(l.as_slice());
                    let mut e = cat("unsupported mode `", other.as_str());
                    e.append("`");
                    Err(e)
                },
            }
        },
    }
}

/// The search a (lowercased) name selects on the lenient path.
pub open spec fn search_named(s: Seq<char>) -> Option<Search> {
    if s == "ehc"@ {
        Some(Search::Ehc)
    } else if s == "best-first"@ {
        Some(Search::BestFirst)
    } else if s == "ehc-then-bf"@ {
        Some(Search::EhcThenBestFirst)
    } else {
        None
    }
}

/// The search a (lowercased) name selects on the strict path, which also
/// knows `auto` and the long spelling `ehc-then-best-first`.
pub open spec fn search_named_strict(s: Seq<char>) -> Option<Search> {
    if s == "auto"@ {
        Some(Search::Auto)
    } else if s == "ehc-then-best-first"@ {
        Some(Search::EhcThenBestFirst)
    } else {
        search_named(s)
    }
}

fn search_of(s: &[char]) -> (r: Option<Search>)
    ensures
        r == search_named(s@),
{
    if chars_are(s, "ehc") {
        Some(Search::Ehc)
    } else if chars_are(s, "best-first") {
        Some(Search::BestFirst)
    } else if chars_are(s, "ehc-then-bf") {
        Some(Search::EhcThenBestFirst)
    } else {
        None
    }
}

/// The lenient search reader: an absent or unknown name means `auto`.
pub fn parse_search(s: Option<&str>) -> (r: Search)
    ensures
        r == match s {
            Some(x) => match search_named(lower(x@)) {
                Some(sr) => sr,
                None => Search::Auto,
            },
            None => Search::Auto,
        },
{
    match s {
        Some(x) => {
            let l = lower_chars(x);
            match search_of(l.as_slice()) {
                Some(sr) => sr,
                None => Search::Auto,
            }
        },
        None => Search::Auto,
    }
}

/// The strict search reader: an absent name means `auto`, an unknown one
/// is refused by name.
pub fn parse_search_strict(s: Option<&str>) -> (r: Result<Search, String>)
    ensures
        match s {
            None => r == Ok::<Search, String>(Search::Auto),
            Some(x) => match search_named_strict(lower(x@)) {
                Some(sr) => r == Ok::<Search, String>(sr),
                None => r matches Err(e) && e@ == "unsupported search strategy `"@ + lower(x@)
                    + "`"@,
            },
        },
{
    match s {
        None => Ok(Search::Auto),
        Some(x) => {
            let l = lower_chars(x);
            if chars_are(l.as_slice(), "auto") {
                return Ok(Search::Auto);
            }
            if chars_are(l.as_slice(), "ehc-then-best-first") {
                return Ok(Search::EhcThenBestFirst);
            }
            match search_of(l.as_slice()) {
                Some(sr) => Ok(sr),
                None => {
                    let other = string_from(l.as_slice());
                    let mut e = cat("unsupported search strategy `", other.as_str());
                    e.append("`");
                    Err(e)
                },
            }
        },
    }
}

/// Whether the comma-separated flag list names `flag` (entries trimmed).
pub open spec fn flag_requested(flags: Seq<char>, flag: Seq<char>) -> bool {
    exists|i: int| 0 <= i < split_on(flags, ',').len() && trim(#[trigger] split_on(flags, ',')[i]) == flag
}

fn requested(pieces: &Vec<Vec<char>>, flag: &str) -> (b: bool)
    ensures
        b == exists|i: int| 0 <= i < pieces@.len() && trim(#[trigger] pieces@[i]@) == flag@,
{
    let mut i: usize = 0;
    while i < pieces.len()
        invariant
            i <= pieces@.len(),
            forall|k: int| 0 <= k < i ==> trim(#[trigger] pieces@[k]@) != flag@,
        decreases pieces@.len() - i,
    {
        let t = trim_chars(pieces[i].as_slice());
        if chars_are(t.as_slice(), flag) {
            return true;
        }
        i = i + 1;
    }
    false
}

/// Put standing orders on the temporal switches from a comma-separated flag
/// list: each of `tdemand`, `tdecomp`, `tconc` is lit exactly when the list
/// names it, and cut otherwise. An absent list cuts all three.
pub fn apply_flags(o: &mut Overrides, flags: Option<&str>)
    ensures
        ({
            let f = match flags {
                Some(x) => x@,
                None => Seq::<char>::empty(),
            };
            *final(o) == (Overrides {
                tdemand: order(flag_requested(f, "tdemand"@)),
                tdecomp: order(flag_requested(f, "tdecomp"@)),
                tconc: order(flag_requested(f, "tconc"@)),
                ..*old(o)
            })
        }),
{
    let cs = match flags {
        Some(x) => chars_of(x),
        None => Vec::new(),
    };
    let ghost f = match flags {
        Some(x) => x@,
        None => Seq::<char>::empty(),
    };
    proof {
        assert(cs@ =~= f);
    }
    let pieces = split_chars(cs.as_slice(), ',');
    proof {
        assert forall|i: int| 0 <= i < pieces@.len() implies pieces@[i]@ == split_on(cs@, ',')[i] by {
            assert(char_views(pieces@)[i] == pieces@[i]@);
        }
        assert(pieces@.len() == split_on(cs@, ',').len());
    }
    let tdemand = requested(&pieces, "tdemand");
    let tdecomp = requested(&pieces, "tdecomp");
    let tconc = requested(&pieces, "tconc");
    proof {
        lemma_requested_matches(pieces@, f, "tdemand"@);
        lemma_requested_matches(pieces@, f, "tdecomp"@);
        lemma_requested_matches(pieces@, f, "tconc"@);
    }
    set_overrides(o, tdemand, tdecomp, tconc);
}

proof fn lemma_requested_matches(pieces: Seq<Vec<char>>, f: Seq<char>, flag: Seq<char>)
    requires
        pieces.len() == split_on(f, ',').len(),
        forall|i: int| 0 <= i < pieces.len() ==> pieces[i]@ == split_on(f, ',')[i],
    ensures
        (exists|i: int| 0 <= i < pieces.len() && trim(#[trigger] pieces[i]@) == flag)
            == flag_requested(f, flag),
{
    if exists|i: int| 0 <= i < pieces.len() && trim(#[trigger] pieces[i]@) == flag {
        let i = choose|i: int| 0 <= i < pieces.len() && trim(#[trigger] pieces[i]@) == flag;
        assert(trim(split_on(f, ',')[i]) == flag);
    }
    if flag_requested(f, flag) {
        let i = choose|i: int|
            0 <= i < split_on(f, ',').len() && trim(#[trigger] split_on(f, ',')[i]) == flag;
        assert(trim(pieces[i]@) == flag);
    }
}

/// Refuse a field longer than `max_bytes` bytes, naming it by `label`.
pub fn bounded(value: &str, max_bytes: usize, label: &str) -> (r: Result<(), String>)
    ensures
        byte_len(value@) > max_bytes ==> (r matches Err(e) && e@ == label@ + " exceeds the "@ + dec(
            max_bytes as nat,
        ) + "-byte limit"@),
        byte_len(value@) <= max_bytes ==> r is Ok,
{
    if value.as_bytes().len() > max_bytes {
        let mut e = String::from_str(label);
        let tail = numbered(" exceeds the ", max_bytes, "-byte limit");
        e.append(tail.as_str());
        Err(e)
    } else {
        Ok(())
    }
}

/// Most evaluations one bounded think may spend (both surfaces).
pub const MAX_THINK_EVALS: usize = 1_000_000;
/// Most memory, in MiB, one bounded think may use (both surfaces).
pub const MAX_THINK_MEMORY_MB: usize = 2_048;

/// The budget of a bounded think on a surface (`browser`, `WASI`): the
/// evaluations, then the memory, must be positive and within the surface's
/// production limits.
pub fn think_budget(evals: usize, mem_mb: usize, surface: &str) -> (r: Result<(usize, usize), Refusal>)
    ensures
        (evals == 0 || evals > MAX_THINK_EVALS) ==> (r matches Err((code, m)) && code
            == "FP_LIMIT_SEARCH" && m@ == "evals must be within the "@ + surface@
            + " production budget"@),
        !(evals == 0 || evals > MAX_THINK_EVALS) && (mem_mb == 0 || mem_mb > MAX_THINK_MEMORY_MB)
            ==> (r matches Err((code, m)) && code == "FP_LIMIT_MEMORY" && m@
            == "mem_mb must be within the "@ + surface@ + " production budget"@),
        !(evals == 0 || evals > MAX_THINK_EVALS) && !(mem_mb == 0 || mem_mb > MAX_THINK_MEMORY_MB)
            ==> r == Ok::<(usize, usize), Refusal>((evals, mem_mb)),
{
    if evals == 0 || evals > MAX_THINK_EVALS {
        return Err(
            ("FP_LIMIT_SEARCH", cat3("evals must be within the ", surface, " production budget")),
        );
    }
    if mem_mb == 0 || mem_mb > MAX_THINK_MEMORY_MB {
        return Err(
            ("FP_LIMIT_MEMORY", cat3("mem_mb must be within the ", surface, " production budget")),
        );
    }
    Ok((evals, mem_mb))
}

/// The last character boundary of `bytes` at or below `i`.
pub open spec fn boundary_at_or_below(bytes: Seq<u8>, i: int) -> int
    decreases i,
{
    if i <= 0 {
        0
    } else if is_char_boundary(bytes, i) {
        i
    } else {
        boundary_at_or_below(bytes, i - 1)
    }
}

/// Cut a string to at most `max_bytes` bytes, at the last character
/// boundary that fits; a string that fits is kept whole.
pub fn bounded_string(value: String, max_bytes: usize) -> (s: String)
    ensures
        encode_utf8(value@).len() <= max_bytes ==> s@ == value@,
        encode_utf8(value@).len() > max_bytes ==> encode_utf8(s@) == encode_utf8(value@).take(
            boundary_at_or_below(encode_utf8(value@), max_bytes as int),
        ),
{
    proof {
        vstd::utf8::encode_utf8_valid_utf8(value@);
    }
    if value.as_str().as_bytes().len() <= max_bytes {
        return value;
    }
    let ghost bytes = encode_utf8(value@);
    let mut end: usize = max_bytes;
    while end > 0 && !value.as_str().is_char_boundary(end)
        invariant
            end <= max_bytes,
            bytes == encode_utf8(value@),
            vstd::utf8::valid_utf8(bytes),
            boundary_at_or_below(bytes, max_bytes as int) == boundary_at_or_below(bytes, end as int),
        decreases end,
    {
        end = end - 1;
    }
    let (head, _tail) = value.as_str().split_at(end);
    proof {
        assert(encode_utf8(head@) =~= bytes.take(end as int));
    }
    head.to_owned()
}

/// The browser surface's hard limit on a domain or problem text, in bytes.
pub const HARD_INPUT_BYTES: usize = 64 * 1024 * 1024;

/// Refuse a domain or problem text beyond the browser's hard input limit.
pub fn ensure_compat_input(domain: &str, problem: &str) -> (r: Result<(), String>)
    ensures
        (byte_len(domain@) > HARD_INPUT_BYTES || byte_len(problem@) > HARD_INPUT_BYTES) ==> (r matches Err(
            e,
        ) && e@ == "domain or problem exceeds the browser hard input limit"@),
        !(byte_len(domain@) > HARD_INPUT_BYTES || byte_len(problem@) > HARD_INPUT_BYTES) ==> r is Ok,
{
    if domain.as_bytes().len() > HARD_INPUT_BYTES || problem.as_bytes().len() > HARD_INPUT_BYTES {
        return Err(String::from_str("domain or problem exceeds the browser hard input limit"));
    }
    Ok(())
}

} // verus!
