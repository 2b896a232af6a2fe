//! The HDDL bridge's own text logic: the error shape of the HDDL pipeline
//! and the splice that gives an Eve-authored problem its root task network.

use vstd::prelude::*;
use vstd::string::StringExecFns;
use crate::text::{
    cat, cat3, chars_of, dec, decimal, join_sp, join_spaces, str_eq, string_from, trim, trim_chars, views,
};

verus! {

/// Where the HDDL pipeline (parse, ground, translate, solve) stopped.
#[derive(Clone, Debug, PartialEq, Eq)]
pub enum HddlError {
    Parse(String),
    Ground(String),
    Translate(String),
    /// The FOND planner refused the translated problem; the payload is the
    /// planner's own rendering of its error.
    Planner(String),
    /// The HDDL problem text already declares its own `(:htn ...)` root task
    /// network and it does not match the single root task named by the Eve
    /// handoff. `root_task` is Eve's task call; `problem_root_network` lists
    /// the task calls declared by the problem, each rendered `(name arg...)`.
    RootTaskMismatch { root_task: String, problem_root_network: Vec<String> },
    /// The wall-clock limit elapsed before the pipeline finished.
    Timeout { elapsed_ms: u128, limit_ms: u128 },
    /// The pipeline's worker terminated without producing a result.
    WorkerPanicked(String),
}

/// The wire error code of each pipeline stage.
pub open spec fn spec_error_code(e: HddlError) -> &'static str {
    match e {
        HddlError::Parse(_) => "FP_PARSE",
        HddlError::Ground(_) => "FP_HDDL_GROUND",
        HddlError::Translate(_) => "FP_HDDL_TRANSLATE",
        HddlError::RootTaskMismatch { .. } => "FP_HDDL_ROOT_MISMATCH",
        HddlError::Planner(_) => "FP_MODEL",
        HddlError::Timeout { .. } => "FP_TIMEOUT",
        HddlError::WorkerPanicked(_) => "FP_WORKER_PANICKED",
    }
}

/// The distinguishable wire error code of an HDDL pipeline failure: which
/// stage failed is diagnostic information a caller needs.
pub fn error_code(e: &HddlError) -> (c: &'static str)
    ensures
        c == spec_error_code(*e),
{
    match e {
        HddlError::Parse(_) => "FP_PARSE",
        HddlError::Ground(_) => "FP_HDDL_GROUND",
        HddlError::Translate(_) => "FP_HDDL_TRANSLATE",
        HddlError::RootTaskMismatch { .. } => "FP_HDDL_ROOT_MISMATCH",
        HddlError::Planner(_) => "FP_MODEL",
        HddlError::Timeout { .. } => "FP_TIMEOUT",
        HddlError::WorkerPanicked(_) => "FP_WORKER_PANICKED",
    }
}

/// std's `Debug` rendering of a list of strings: `[`, each string quoted
/// and escaped, separated by `, `, then `]`.
pub uninterp spec fn debug_strings(v: Seq<Seq<char>>) -> Seq<char>;

/// `format!("{:?}", v)` for a list of strings. The rendering is a function
/// of the strings alone; what it is character by character is left to
/// std's `Debug` for `Vec<String>`.
#[verifier::external_body]
fn debug_string_list(v: &Vec<String>) -> (s: String)
    ensures
        s@ == debug_strings(views(v@)),
{
    format!("{:?}", v)
}

/// The human-readable message of a pipeline failure.
pub open spec fn message_of(e: HddlError) -> Seq<char> {
    match e {
        HddlError::Parse(m) => "HDDL parse error: "@ + m@,
        HddlError::Ground(m) => "HDDL grounding error: "@ + m@,
        HddlError::Translate(m) => "HDDL translation error: "@ + m@,
        HddlError::Planner(m) => "planner error: "@ + m@,
        HddlError::RootTaskMismatch { root_task, problem_root_network } => "Eve root task "@
            + root_task@ + " conflicts with the problem's own :htn network "@ + debug_strings(
            views(problem_root_network@),
        ),
        HddlError::Timeout { elapsed_ms, limit_ms } => "solve_hddl wall-clock limit exceeded: "@
            + dec(elapsed_ms as nat) + "ms elapsed, limit "@ + dec(limit_ms as nat) + "ms"@,
        HddlError::WorkerPanicked(m) => "solve_hddl worker thread panicked: "@ + m@,
    }
}

/// The message a pipeline failure carries on the wire, beside its code.
pub open spec fn wire_message_of(e: HddlError) -> Seq<char> {
    match e {
        HddlError::RootTaskMismatch { .. } => "HDDL root-task mismatch: "@ + message_of(e),
        HddlError::Timeout { elapsed_ms, limit_ms } => "HDDL solve timed out after "@ + dec(
            elapsed_ms as nat,
        ) + "ms (limit "@ + dec(limit_ms as nat) + "ms)"@,
        HddlError::WorkerPanicked(m) => "HDDL solve worker panicked: "@ + m@,
        _ => message_of(e),
    }
}

impl HddlError {
    /// The human-readable message of the failure.
    pub fn message(&self) -> (s: String)
        ensures
            s@ == message_of(*self),
    {
        match self {
            HddlError::Parse(m) => cat("HDDL parse error: ", m.as_str()),
            HddlError::Ground(m) => cat("HDDL grounding error: ", m.as_str()),
            HddlError::Translate(m) => cat("HDDL translation error: ", m.as_str()),
            HddlError::Planner(m) => cat("planner error: ", m.as_str()),
            HddlError::RootTaskMismatch { root_task, problem_root_network } => {
                let head = cat3(
                    "Eve root task ",
                    root_task.as_str(),
                    " conflicts with the problem's own :htn network ",
                );
                cat(head.as_str(), debug_string_list(problem_root_network).as_str())
            },
            HddlError::Timeout { elapsed_ms, limit_ms } => {
                let head = cat3(
                    "solve_hddl wall-clock limit exceeded: ",
                    decimal(*elapsed_ms).as_str(),
                    "ms elapsed, limit ",
                );
                cat3(head.as_str(), decimal(*limit_ms).as_str(), "ms")
            },
            HddlError::WorkerPanicked(m) => cat("solve_hddl worker thread panicked: ", m.as_str()),
        }
    }
}

/// The message of a pipeline failure on the wire, beside
/// [`error_code`]: the human-readable message, except that a root-task
/// mismatch is introduced as such and a timeout and a worker panic read as
/// the solve's.
pub fn wire_message(e: &HddlError) -> (s: String)
    ensures
        s@ == wire_message_of(*e),
{
    match e {
        HddlError::RootTaskMismatch { .. } => cat("HDDL root-task mismatch: ", e.message().as_str()),
        HddlError::Timeout { elapsed_ms, limit_ms } => {
            let head = cat3("HDDL solve timed out after ", decimal(*elapsed_ms).as_str(), "ms (limit ");
            cat3(head.as_str(), decimal(*limit_ms).as_str(), "ms)")
        },
        HddlError::WorkerPanicked(m) => cat("HDDL solve worker panicked: ", m.as_str()),
        _ => e.message(),
    }
}

/// The position of the `)` that closes the first top-level form of `s`,
/// scanning from `i` at paren depth `depth`: parens inside `;` line comments
/// do not count, and a `)` at depth zero counts as closing.
pub open spec fn close_from(s: Seq<char>, i: int, depth: nat, in_comment: bool) -> Option<int>
    decreases s.len() - i,
{
    if i < 0 || i >= s.len() {
        None
    } else if in_comment {
        close_from(s, i + 1, depth, s[i] != '\n')
    } else if s[i] == ';' {
        close_from(s, i + 1, depth, true)
    } else if s[i] == '(' {
        close_from(s, i + 1, depth + 1, false)
    } else if s[i] == ')' {
        if depth <= 1 {
            Some(i)
        } else {
            close_from(s, i + 1, (depth - 1) as nat, false)
        }
    } else {
        close_from(s, i + 1, depth, false)
    }
}

/// The splice point of a problem text: where its top-level form closes.
pub open spec fn splice_point(s: Seq<char>) -> Option<int> {
    close_from(s, 0, 0, false)
}

/// The problem text with `(:htn :ordered-subtasks ROOT_TASK)` spliced in as
/// its final section, or the text unchanged when it has no splice point.
pub open spec fn spliced(s: Seq<char>, root_task: Seq<char>) -> Seq<char> {
    match splice_point(s) {
        Some(i) => s.subrange(0, i) + "(:htn :ordered-subtasks "@ + trim(root_task) + ")"@
            + s.subrange(i, s.len() as int),
        None => s,
    }
}

/// Splice `(:htn :ordered-subtasks ROOT_TASK)` into the problem text as its
/// final section, inserted immediately before the `)` that closes the
/// top-level `(define (problem ...) ...)` form. The scan tracks paren depth
/// and skips `;` line comments. If the scan never finds a balanced
/// top-level form, the text is handed through unchanged.
pub fn insert_htn_section(problem_src: &str, root_task: &str) -> (out: String)
    ensures
        out@ == spliced(problem_src@, root_task@),
{
    let s = chars_of(problem_src);
    let mut depth: usize = 0;
    let mut in_comment = false;
    let mut i: usize = 0;
    while i < s.len()
        invariant
            i <= s@.len(),
            s@ == problem_src@,
            depth <= i,
            splice_point(s@) == close_from(s@, i as int, depth as nat, in_comment),
        decreases s@.len() - i,
    {
        let ch = s[i];
        if in_comment {
            if ch == '\n' {
                in_comment = false;
            }
        } else if ch == ';' {
            in_comment = true;
        } else if ch == '(' {
            depth = depth + 1;
        } else if ch == ')' {
            if depth <= 1 {
                let mut out: Vec<char> = Vec::new();
                let mut k: usize = 0;
                while k < i
                    invariant
                        k <= i < s@.len(),
                        out@ == s@.subrange(0, k as int),
                    decreases i - k,
                {
                    out.push(s[k]);
                    k = k + 1;
                    assert(out@ =~= s@.subrange(0, k as int));
                }
                let head = chars_of("(:htn :ordered-subtasks ");
                let rt = chars_of(root_task);
                let task = trim_chars(rt.as_slice());
                let close = chars_of(")");
                let ghost before = out@;
                append_chars(&mut out, head.as_slice());
                append_chars(&mut out, task.as_slice());
                append_chars(&mut out, close.as_slice());
                let ghost mid = out@;
                let mut k: usize = i;
                while k < s.len()
                    invariant
                        i <= k <= s@.len(),
                        out@ == mid + s@.subrange(i as int, k as int),
                    decreases s@.len() - k,
                {
                    out.push(s[k]);
                    k = k + 1;
                    assert(out@ =~= mid + s@.subrange(i as int, k as int));
                }
                proof {
                    assert(out@ =~= spliced(problem_src@, root_task@));
                }
                return string_from(out.as_slice());
            }
            depth = depth - 1;
        }
        i = i + 1;
    }
    string_from(s.as_slice())
}

/// A term of a task call, as the HDDL grammar reads it: a `?variable`
/// (held without its `?`) or a constant.
#[derive(Clone, Debug, PartialEq, Eq)]
pub enum HddlTerm {
    Var(String),
    Const(String),
}

/// A task call `(name arg...)` of a task network, as the HDDL grammar reads
/// it.
#[derive(Clone, Debug, PartialEq, Eq)]
pub struct TaskCall {
    pub name: String,
    pub args: Vec<HddlTerm>,
}

/// A term spelled as the tokenizer read it.
pub open spec fn term_text(t: HddlTerm) -> Seq<char> {
    match t {
        HddlTerm::Var(v) => seq!['?'] + v@,
        HddlTerm::Const(c) => c@,
    }
}

/// The canonical rendering of a task call: `(name arg...)`, or `(name)`
/// without arguments.
pub open spec fn call_key(name: Seq<char>, args: Seq<HddlTerm>) -> Seq<char> {
    if args.len() == 0 {
        seq!['('] + name + seq![')']
    } else {
        seq!['('] + name + seq![' '] + join_sp(args.map_values(|t: HddlTerm| term_text(t)))
            + seq![')']
    }
}

/// A task network rendered call by call.
pub open spec fn network_keys(calls: Seq<TaskCall>) -> Seq<Seq<char>> {
    calls.map_values(|c: TaskCall| call_key(c.name@, c.args@))
}

/// Render a task call as `(name arg...)` (bare `(name)` when it has no
/// arguments): the form in which a problem's root network is compared with
/// Eve's root task and reported on a mismatch.
pub fn task_call_key(name: &str, args: &[HddlTerm]) -> (s: String)
    ensures
        s@ == call_key(name@, args@),
{
    proof {
        reveal_strlit("(");
        reveal_strlit(")");
        reveal_strlit(" ");
        reveal_strlit("?");
    }
    if args.len() == 0 {
        return cat3("(", name, ")");
    }
    let mut parts: Vec<String> = Vec::new();
    let mut i: usize = 0;
    while i < args.len()
        invariant
            i <= args@.len(),
            views(parts@) == args@.take(i as int).map_values(|t: HddlTerm| term_text(t)),
        decreases args@.len() - i,
    {
        let part = match &args[i] {
            HddlTerm::Var(v) => cat("?", v.as_str()),
            HddlTerm::Const(c) => c.clone(),
        };
        proof {
            reveal_strlit("?");
            assert(part@ == term_text(args@[i as int]));
        }
        let ghost before = parts@;
        parts.push(part);
        proof {
            assert(parts@ == before.push(part));
            assert(views(parts@) =~= views(before).push(part@));
            assert(args@.take(i + 1).map_values(|t: HddlTerm| term_text(t)) =~= args@.take(
                i as int,
            ).map_values(|t: HddlTerm| term_text(t)).push(term_text(args@[i as int])));
        }
        i = i + 1;
    }
    proof {
        assert(args@.take(args@.len() as int) =~= args@);
    }
    let joined = join_spaces(&parts);
    let head = cat3("(", name, " ");
    cat(head.as_str(), cat(joined.as_str(), ")").as_str())
}

/// A task network rendered call by call.
pub fn network_of(calls: &[TaskCall]) -> (v: Vec<String>)
    ensures
        views(v@) == network_keys(calls@),
{
    let mut v: Vec<String> = Vec::new();
    let mut i: usize = 0;
    while i < calls.len()
        invariant
            i <= calls@.len(),
            views(v@) == network_keys(calls@.take(i as int)),
        decreases calls@.len() - i,
    {
        let k = task_call_key(calls[i].name.as_str(), calls[i].args.as_slice());
        let ghost before = v@;
        v.push(k);
        proof {
            assert(views(v@) =~= views(before).push(k@));
            assert(network_keys(calls@.take(i + 1)) =~= network_keys(calls@.take(i as int)).push(
                call_key(calls@[i as int].name@, calls@[i as int].args@),
            ));
        }
        i = i + 1;
    }
    proof {
        assert(calls@.take(calls@.len() as int) =~= calls@);
    }
    v
}

fn same_keys(a: &Vec<String>, b: &Vec<String>) -> (r: bool)
    ensures
        r == (views(a@) == views(b@)),
{
    if a.len() != b.len() {
        proof {
            assert(views(a@).len() != views(b@).len());
        }
        return false;
    }
    let mut i: usize = 0;
    while i < a.len()
        invariant
            i <= a@.len(),
            a@.len() == b@.len(),
            forall|k: int| 0 <= k < i ==> a@[k]@ == b@[k]@,
        decreases a@.len() - i,
    {
        if !str_eq(a[i].as_str(), b[i].as_str()) {
            proof {
                assert(views(a@)[i as int] != views(b@)[i as int]);
            }
            return false;
        }
        i = i + 1;
    }
    proof {
        assert(views(a@) =~= views(b@));
    }
    true
}

/// Resolve the problem text handed to the HDDL pipeline so its root network
/// is exactly Eve's single root task, given the task networks the HDDL
/// grammar read from the problem text and from Eve's root task:
///
/// 1. a problem without a root network gets Eve's root task spliced in as
///    its `(:htn :ordered-subtasks ...)` section;
/// 2. a problem whose root network renders exactly as Eve's passes through
///    unchanged;
/// 3. any other root network is a mismatch, reported with Eve's root task
///    and the problem's network, call by call.
pub fn problem_with_eve_root_task(
    problem_src: &str,
    root_task: &str,
    problem_network: &[TaskCall],
    eve_network: &[TaskCall],
) -> (r: Result<String, HddlError>)
    ensures
        problem_network@.len() == 0 ==> (r matches Ok(t) && t@ == spliced(
            problem_src@,
            root_task@,
        )),
        problem_network@.len() > 0 && network_keys(problem_network@) == network_keys(eve_network@)
            ==> (r matches Ok(t) && t@ == problem_src@),
        problem_network@.len() > 0 && network_keys(problem_network@) != network_keys(eve_network@)
            ==> (r matches Err(HddlError::RootTaskMismatch { root_task: rt, problem_root_network: pn })
            && rt@ == root_task@ && views(pn@) == network_keys(problem_network@)),
{
    let eve = network_of(eve_network);
    if problem_network.len() == 0 {
        return Ok(insert_htn_section(problem_src, root_task));
    }
    let declared = network_of(problem_network);
    if same_keys(&declared, &eve) {
        return Ok(String::from_str(problem_src));
    }
    Err(
        HddlError::RootTaskMismatch {
            root_task: String::from_str(root_task),
            problem_root_network: declared,
        },
    )
}

fn append_chars(out: &mut Vec<char>, cs: &[char])
    ensures
        final(out)@ == old(out)@ + cs@,
{
    let mut k: usize = 0;
    while k < cs.len()
        invariant
            k <= cs@.len(),
            out@ == old(out)@ + cs@.subrange(0, k as int),
        decreases cs@.len() - k,
    {
        out.push(cs[k]);
        k = k + 1;
        assert(out@ =~= old(out)@ + cs@.subrange(0, k as int));
    }
    assert(cs@.subrange(0, cs@.len() as int) =~= cs@);
}

/// Splicing only inserts: taking the inserted section back out of the
/// result gives back the problem text as it was, character for character.
pub proof fn law_splice_only_inserts(s: Seq<char>, root_task: Seq<char>)
    requires
        splice_point(s) is Some,
    ensures
        ({
            let i = splice_point(s)->0;
            let section = "(:htn :ordered-subtasks "@ + trim(root_task) + ")"@;
            let out = spliced(s, root_task);
            &&& 0 <= i < s.len()
            &&& out.subrange(0, i) == s.subrange(0, i)
            &&& out.subrange(i, i + section.len()) == section
            &&& out.subrange(i, i + section.len()) + s.subrange(i, s.len() as int)
                == out.subrange(i, out.len() as int)
            &&& out.subrange(0, i) + out.subrange(i + section.len(), out.len() as int) == s
        }),
{
    let i = splice_point(s)->0;
    lemma_close_in_range(s, 0, 0, false);
    let section = "(:htn :ordered-subtasks "@ + trim(root_task) + ")"@;
    let out = spliced(s, root_task);
    assert(out =~= s.subrange(0, i) + section + s.subrange(i, s.len() as int));
    assert(out.subrange(0, i) =~= s.subrange(0, i));
    assert(out.subrange(i, i + section.len()) =~= section);
    assert(out.subrange(i, i + section.len()) + s.subrange(i, s.len() as int) =~= out.subrange(
        i,
        out.len() as int,
    ));
    assert(out.subrange(0, i) + out.subrange(i + section.len(), out.len() as int) =~= s);
}

proof fn lemma_close_in_range(s: Seq<char>, i: int, depth: nat, in_comment: bool)
    ensures
        close_from(s, i, depth, in_comment) matches Some(k) ==> i <= k < s.len() && s[k] == ')',
    decreases s.len() - i,
{
    if 0 <= i < s.len() {
        if in_comment {
            lemma_close_in_range(s, i + 1, depth, s[i] != '\n');
        } else if s[i] == ';' {
            lemma_close_in_range(s, i + 1, depth, true);
        } else if s[i] == '(' {
            lemma_close_in_range(s, i + 1, depth + 1, false);
        } else if s[i] == ')' {
            if depth > 1 {
                lemma_close_in_range(s, i + 1, (depth - 1) as nat, false);
            }
        } else {
            lemma_close_in_range(s, i + 1, depth, false);
        }
    }
}

} // verus!
