//! The typed shapes at the engine's front door: the doctrines a solve runs
//! under, the statistics it reports, the syntax report of a quick parse,
//! and the errors that stop a solution from forming.

use vstd::prelude::*;
use vstd::string::StringExecFns;
use crate::text::{chars_of, join_sp, to_lowercase, to_upper_char, unicode_lower, upper, views};

verus! {

/// The doctrine the engine runs under.
#[derive(Clone, Copy, PartialEq, Eq, Debug)]
pub enum Mode {
    /// Reads the wire: PDDL3 metric if the job carries preferences, plain
    /// FF otherwise.
    Auto,
    /// Straight delete-relaxation FF, best-first.
    Ff,
    /// Carve the task into pieces, solve, stitch.
    Partition,
    /// Soft goals on the table, anytime branch-and-bound on the metric.
    Pddl3,
    /// PDDL2.1 durative actions, decision-epoch temporal search.
    Temporal,
    /// A line of classical configurations against one shared eval budget.
    Portfolio,
}

impl Default for Mode {
    fn default() -> (m: Self)
        ensures
            m == Mode::Auto,
    {
        Mode::Auto
    }
}

/// The search doctrine inside a mode.
#[derive(Clone, Copy, PartialEq, Eq, Debug)]
pub enum Search {
    /// Hill-climb hard, drop to weighted best-first the moment it stalls.
    Auto,
    /// Enforced hill-climbing riding helpful actions, falling back to
    /// best-first when no improving state turns up.
    Ehc,
    /// Weighted best-first, complete, ignores helpful actions.
    BestFirst,
    /// EHC first, best-first when it chokes.
    EhcThenBestFirst,
}

impl Default for Search {
    fn default() -> (s: Self)
        ensures
            s == Search::Auto,
    {
        Search::Auto
    }
}

/// The receipts from grounding and search: what it cost to get here.
#[derive(Clone, Copy, PartialEq, Eq, Debug)]
pub struct Statistics {
    pub grounded_facts: usize,
    pub grounded_actions: usize,
    pub evaluated_states: usize,
    pub threads: usize,
}

impl Default for Statistics {
    fn default() -> (s: Self)
        ensures
            s == (Statistics { grounded_facts: 0, grounded_actions: 0, evaluated_states: 0, threads: 0 }),
    {
        Statistics { grounded_facts: 0, grounded_actions: 0, evaluated_states: 0, threads: 0 }
    }
}

/// A quick syntax pass over one PDDL file: guessed kind, shape, and the
/// error (with a line number) when the parse breaks.
#[derive(Clone, Debug)]
pub struct ParseReport {
    pub ok: bool,
    /// `"domain"` or `"problem"`: a best guess, made even when the parse
    /// fails.
    pub kind: Option<String>,
    pub name: Option<String>,
    pub requirements: Vec<String>,
    pub error: Option<String>,
    pub domain: Option<DomainSummary>,
    pub problem: Option<ProblemSummary>,
}

/// A domain's signatures, rendered `name argtypes...`.
#[derive(Clone, Debug)]
pub struct DomainSummary {
    pub types: Vec<String>,
    pub predicates: Vec<String>,
    pub functions: Vec<String>,
    pub actions: Vec<String>,
    pub durative_actions: Vec<String>,
    pub derived: usize,
}

/// A problem's shape.
#[derive(Clone, Debug)]
pub struct ProblemSummary {
    /// The domain this problem calls home.
    pub domain: String,
    pub objects: usize,
    pub init_facts: usize,
    pub init_fluents: usize,
    pub timed_initial_literals: usize,
    pub has_goal: bool,
    pub has_metric: bool,
}

/// Everything that can stop a solution from ever forming. Parse errors
/// carry the parser's rendered message.
#[derive(Clone, Debug)]
pub enum SolveError {
    DomainParse(String),
    ProblemParse(String),
    EmptyType { kind: String, pred: String, ty: String },
    Derived(String),
    Unsupported(String),
}

/// `name argtype1 argtype2 ...`, lowercased; just `name` when there are no
/// arguments.
pub open spec fn sig_text(name: Seq<char>, arg_types: Seq<Seq<char>>) -> Seq<char> {
    if arg_types.len() == 0 {
        unicode_lower(name)
    } else {
        unicode_lower(name) + seq![' '] + join_sp(arg_types.map_values(|t: Seq<char>| unicode_lower(t)))
    }
}

/// Render a predicate or function signature: `name argtype1 argtype2 ...`,
/// lowercased, or just `name` when it carries no arguments.
pub fn render_sig(name: &str, arg_types: &[String]) -> (s: String)
    ensures
        s@ == sig_text(name@, views(arg_types@)),
{
    let mut s = to_lowercase(name);
    if arg_types.len() == 0 {
        return s;
    }
    let ghost lowered = views(arg_types@).map_values(|t: Seq<char>| unicode_lower(t));
    let mut i: usize = 0;
    let ghost head = s@;
    while i < arg_types.len()
        invariant
            i <= arg_types@.len(),
            head == unicode_lower(name@),
            lowered == views(arg_types@).map_values(|t: Seq<char>| unicode_lower(t)),
            i == 0 ==> s@ == head,
            i > 0 ==> s@ == head + seq![' '] + join_sp(lowered.take(i as int)),
        decreases arg_types@.len() - i,
    {
        let t = to_lowercase(arg_types[i].as_str());
        proof {
            assert(lowered[i as int] == t@);
            assert(lowered.take(i + 1).drop_last() =~= lowered.take(i as int));
        }
        crate::text::push_char(&mut s, ' ');
        s.append(t.as_str());
        proof {
            if i > 0 {
                assert(s@ =~= head + seq![' '] + join_sp(lowered.take(i + 1)));
            } else {
                assert(join_sp(lowered.take(1)) == lowered[0]);
                assert(s@ =~= head + seq![' '] + join_sp(lowered.take(i + 1)));
            }
        }
        i = i + 1;
    }
    proof {
        assert(lowered.take(arg_types@.len() as int) =~= lowered);
    }
    s
}

/// The report of a parse that broke: the guessed kind and the parser's
/// message, nothing else.
pub fn parse_err(kind: &str, message: String) -> (r: ParseReport)
    ensures
        r.ok == false,
        r.kind matches Some(k) && k@ == kind@,
        r.name is None,
        r.requirements@.len() == 0,
        r.error == Some(message),
        r.domain is None,
        r.problem is None,
{
    ParseReport {
        ok: false,
        kind: Some(String::from_str(kind)),
        name: None,
        requirements: Vec::new(),
        error: Some(message),
        domain: None,
        problem: None,
    }
}

/// What a PDDL text is, as `parse` routes it.
#[derive(Clone, Copy, PartialEq, Eq, Debug)]
pub enum SourceKind {
    Domain,
    Problem,
}

/// Whether `pat` occurs in `s` at `i`.
pub open spec fn occurs_at(s: Seq<char>, pat: Seq<char>, i: int) -> bool {
    0 <= i && i + pat.len() <= s.len() && s.subrange(i, i + pat.len()) == pat
}

/// The first place at or after `k` where `pat` occurs in `s`, or -1.
pub open spec fn first_from(s: Seq<char>, pat: Seq<char>, k: int) -> int
    decreases s.len() + 1 - k,
{
    if k < 0 || k + pat.len() > s.len() {
        -1
    } else if occurs_at(s, pat, k) {
        k
    } else {
        first_from(s, pat, k + 1)
    }
}

/// The routing rule: ASCII case aside, a text is a problem when `(problem`
/// occurs in it and `(domain` does not occur before it; a domain otherwise.
pub open spec fn kind_of(src: Seq<char>) -> SourceKind {
    let up = upper(src);
    let p = first_from(up, "(PROBLEM"@, 0);
    let d = first_from(up, "(DOMAIN"@, 0);
    if p >= 0 && (d < 0 || p < d) {
        SourceKind::Problem
    } else {
        SourceKind::Domain
    }
}

fn first_occurrence(s: &Vec<char>, pat: &Vec<char>) -> (r: Option<usize>)
    ensures
        match r {
            Some(i) => i as int == first_from(s@, pat@, 0),
            None => first_from(s@, pat@, 0) == -1,
        },
{
    let mut k: usize = 0;
    while k < s.len() && pat.len() <= s.len() - k
        invariant
            k <= s.len(),
            first_from(s@, pat@, 0) == first_from(s@, pat@, k as int),
        decreases s.len() - k,
    {
        let mut j: usize = 0;
        let mut same = true;
        while j < pat.len() && same
            invariant
                j <= pat.len(),
                k + pat.len() <= s.len(),
                same == forall|m: int| 0 <= m < j ==> s@[k + m] == pat@[m],
            decreases pat.len() - j,
        {
            if s[k + j] != pat[j] {
                same = false;
            }
            j = j + 1;
        }
        if same {
            assert(s@.subrange(k as int, k + pat.len()) =~= pat@);
            return Some(k);
        }
        proof {
            if occurs_at(s@, pat@, k as int) {
                let m = choose|m: int| 0 <= m < j && s@[k + m] != pat@[m];
                assert(s@.subrange(k as int, k + pat.len())[m] == s@[k + m]);
            }
        }
        k = k + 1;
    }
    if k < s.len() {
        assert(first_from(s@, pat@, k as int) == -1);
    } else if pat.len() == 0 {
        assert(occurs_at(s@, pat@, k as int)) by {
            assert(s@.subrange(k as int, k as int) =~= pat@);
        }
        return Some(k);
    }
    None
}

/// Which kind of text `src` is, by the routing rule of [`kind_of`].
pub fn parse_kind(src: &str) -> (k: SourceKind)
    ensures
        k == kind_of(src@),
{
    let cs = chars_of(src);
    let mut up: Vec<char> = Vec::new();
    let mut i: usize = 0;
    while i < cs.len()
        invariant
            i <= cs.len(),
            cs@ == src@,
            up@ == upper(cs@.take(i as int)),
        decreases cs.len() - i,
    {
        up.push(to_upper_char(cs[i]));
        i = i + 1;
        assert(up@ =~= upper(cs@.take(i as int)));
    }
    assert(cs@.take(i as int) =~= cs@);
    let problem: Vec<char> = vec!['(', 'P', 'R', 'O', 'B', 'L', 'E', 'M'];
    let domain: Vec<char> = vec!['(', 'D', 'O', 'M', 'A', 'I', 'N'];
    proof {
        reveal_strlit("(PROBLEM");
        reveal_strlit("(DOMAIN");
        assert(problem@ =~= "(PROBLEM"@);
        assert(domain@ =~= "(DOMAIN"@);
    }
    let p = first_occurrence(&up, &problem);
    let d = first_occurrence(&up, &domain);
    match (p, d) {
        (Some(p), Some(d)) => if p < d {
            SourceKind::Problem
        } else {
            SourceKind::Domain
        },
        (Some(_), None) => SourceKind::Problem,
        _ => SourceKind::Domain,
    }
}

} // verus!
