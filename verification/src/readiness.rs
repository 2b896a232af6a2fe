//! The readiness verifier's own logic: admission of evidence identifiers
//! read from evidence files, and the command line it answers to.

use vstd::prelude::*;
use vstd::string::StringExecFns;
use crate::probe_guard::byte_len;
use crate::text::{blank, cat, char_views, chars_are, chars_of, lemma_split_nonempty, split_chars, split_on, string_from, trim, trim_chars};

verus! {

/// The usage line of the readiness verifier.
pub const USAGE: &'static str = "usage: ferroplan-readiness --source <source-identity> --evidence <file> [--evidence <file> ...] [--compact]";

/// Largest evidence file the verifier reads.
pub const MAX_EVIDENCE_FILE_BYTES: usize = 4 * 1024 * 1024;

/// Longest evidence identifier (bytes).
pub const MAX_EVIDENCE_ID_BYTES: usize = 256;

/// A character allowed in an evidence identifier: ASCII alphanumeric, `.`,
/// `-` or `_`.
pub open spec fn evidence_char(c: char) -> bool {
    ||| ('a' <= c && c <= 'z')
    ||| ('A' <= c && c <= 'Z')
    ||| ('0' <= c && c <= '9')
    ||| c == '.'
    ||| c == '-'
    ||| c == '_'
}

pub open spec fn all_evidence_chars(s: Seq<char>) -> bool {
    forall|i: int| 0 <= i < s.len() ==> evidence_char(#[trigger] s[i])
}

fn is_evidence_char(c: char) -> (b: bool)
    ensures
        b == evidence_char(c),
{
    ('a' <= c && c <= 'z') || ('A' <= c && c <= 'Z') || ('0' <= c && c <= '9') || c == '.' || c
        == '-' || c == '_'
}

/// Whether every character of `value` may stand in an evidence identifier
/// (so no shell metacharacter, space or non-ASCII byte gets through).
pub fn is_evidence_identifier(value: &str) -> (b: bool)
    ensures
        b == all_evidence_chars(value@),
{
    let cs = chars_of(value);
    let mut i: usize = 0;
    while i < cs.len()
        invariant
            i <= cs@.len(),
            cs@ == value@,
            forall|k: int| 0 <= k < i ==> evidence_char(#[trigger] cs@[k]),
        decreases cs@.len() - i,
    {
        if !is_evidence_char(cs[i]) {
            return false;
        }
        i = i + 1;
    }
    true
}

/// Whether an evidence file of `len` bytes may be read at all.
pub fn evidence_file_within_limit(len: usize) -> (b: bool)
    ensures
        b == (len <= MAX_EVIDENCE_FILE_BYTES),
{
    len <= MAX_EVIDENCE_FILE_BYTES
}

/// The lines of `s`, as `str::lines` yields them before trimming: pieces
/// between `\n`s, with no empty final piece after a final line ending.
pub open spec fn text_lines(s: Seq<char>) -> Seq<Seq<char>> {
    let w = split_on(s, '\n');
    if w.last().len() == 0 {
        w.drop_last()
    } else {
        w
    }
}

/// A line that holds no identifier: blank, or a `#` comment.
pub open spec fn skipped(value: Seq<char>) -> bool {
    value.len() == 0 || value[0] == '#'
}

/// An identifier line that breaks the rules.
pub open spec fn invalid(value: Seq<char>) -> bool {
    byte_len(value) > MAX_EVIDENCE_ID_BYTES || !all_evidence_chars(value)
}

/// The identifiers of lines `0..n`, or the 1-based number of the first
/// invalid line among them.
pub open spec fn evidence_upto(lines: Seq<Seq<char>>, n: nat) -> Result<Seq<Seq<char>>, nat>
    decreases n,
{
    if n == 0 {
        Ok(seq![])
    } else {
        match evidence_upto(lines, (n - 1) as nat) {
            Err(k) => Err(k),
            Ok(ids) => {
                let value = trim(lines[n - 1]);
                if skipped(value) {
                    Ok(ids)
                } else if invalid(value) {
                    Err(n)
                } else {
                    Ok(ids.push(value))
                }
            },
        }
    }
}

/// The evidence identifiers of a file's text.
pub open spec fn evidence_of(text: Seq<char>) -> Result<Seq<Seq<char>>, nat> {
    evidence_upto(text_lines(text), text_lines(text).len())
}

/// The lines of a text, as character vectors.
fn lines_of(cs: &[char]) -> (lines: Vec<Vec<char>>)
    ensures
        char_views(lines@) == text_lines(cs@),
{
    let mut pieces = split_chars(cs, '\n');
    proof {
        lemma_split_nonempty(cs@, '\n');
    }
    let last = pieces.len() - 1;
    if pieces[last].len() == 0 {
        let _ = pieces.pop();
        proof {
            assert(char_views(pieces@) =~= split_on(cs@, '\n').drop_last());
        }
    }
    pieces
}

/// Read the evidence identifiers out of an evidence file's text, one per
/// line, trimmed; blank lines and `#` comments are skipped. An identifier
/// longer than 256 bytes or holding a character outside ASCII
/// alphanumerics, `.`, `-` and `_` refuses the whole file, naming its
/// 1-based line number.
pub fn parse_evidence(text: &str) -> (r: Result<Vec<String>, usize>)
    ensures
        match evidence_of(text@) {
            Ok(ids) => r matches Ok(v) && v@.map_values(|s: String| s@) == ids,
            Err(k) => r matches Err(e) && e == k,
        },
{
    let cs = chars_of(text);
    let lines = lines_of(cs.as_slice());
    let ghost ls = text_lines(text@);
    let mut ids: Vec<String> = Vec::new();
    let mut n: usize = 0;
    while n < lines.len()
        invariant
            n <= lines@.len(),
            char_views(lines@) == ls,
            ls == text_lines(text@),
            evidence_upto(ls, n as nat) matches Ok(v) && v == ids@.map_values(|s: String| s@),
        decreases lines@.len() - n,
    {
        let value = trim_chars(lines[n].as_slice());
        proof {
            assert(ls[n as int] == lines@[n as int]@);
        }
        match judge(&value) {
            Judged::Skip => {},
            Judged::Invalid => {
                proof {
                    lemma_refusal_sticks(ls, (n + 1) as nat, ls.len());
                }
                return Err(n + 1);
            },
            Judged::Keep => {
                ids.push(string_from(value.as_slice()));
            },
        }
        proof {
            assert(ids@.map_values(|s: String| s@) =~= match evidence_upto(ls, (n + 1) as nat) {
                Ok(v) => v,
                Err(_) => seq![],
            });
        }
        n = n + 1;
    }
    Ok(ids)
}

proof fn lemma_refusal_sticks(ls: Seq<Seq<char>>, m: nat, n: nat)
    requires
        m <= n,
        evidence_upto(ls, m) is Err,
    ensures
        evidence_upto(ls, n) == evidence_upto(ls, m),
    decreases n,
{
    if m < n {
        lemma_refusal_sticks(ls, m, (n - 1) as nat);
    }
}

enum Judged {
    Skip,
    Invalid,
    Keep,
}

fn judge(value: &Vec<char>) -> (j: Judged)
    ensures
        j is Skip <==> skipped(value@),
        j is Invalid <==> !skipped(value@) && invalid(value@),
        j is Keep <==> !skipped(value@) && !invalid(value@),
{
    if value.len() == 0 || value[0] == '#' {
        return Judged::Skip;
    }
    let s = string_from(value.as_slice());
    if s.as_str().as_bytes().len() > MAX_EVIDENCE_ID_BYTES || !is_evidence_identifier(s.as_str()) {
        Judged::Invalid
    } else {
        Judged::Keep
    }
}

// ----- the command line ------------------------------------------------------------

/// The verifier's arguments.
#[derive(Clone, Debug)]
pub struct Args {
    pub source: String,
    pub evidence_files: Vec<String>,
    pub pretty: bool,
}

/// What the command line asks for.
#[derive(Clone, Debug)]
pub enum CliAction {
    /// Print the usage line and stop successfully.
    Help,
    Run(Args),
}

/// The parser's state after some arguments.
pub struct ArgState {
    pub source: Option<Seq<char>>,
    pub evidence: Seq<Seq<char>>,
    pub pretty: bool,
}

pub enum ArgOutcome {
    Help,
    Error(Seq<char>),
    Done(ArgState),
}

/// The result of reading `args[i..]` from state `st`.
pub open spec fn read_args(args: Seq<Seq<char>>, i: int, st: ArgState) -> ArgOutcome
    decreases args.len() - i,
{
    if i < 0 || i >= args.len() {
        ArgOutcome::Done(st)
    } else {
        let a = args[i];
        if a == "--source"@ {
            if i + 1 >= args.len() {
                ArgOutcome::Error("--source requires a value"@)
            } else if blank(args[i + 1]) {
                ArgOutcome::Error("--source may not be empty"@)
            } else {
                read_args(args, i + 2, ArgState { source: Some(args[i + 1]), ..st })
            }
        } else if a == "--evidence"@ {
            if i + 1 >= args.len() {
                ArgOutcome::Error("--evidence requires a file path"@)
            } else {
                read_args(args, i + 2, ArgState { evidence: st.evidence.push(args[i + 1]), ..st })
            }
        } else if a == "--compact"@ {
            read_args(args, i + 1, ArgState { pretty: false, ..st })
        } else if a == "-h"@ || a == "--help"@ {
            ArgOutcome::Help
        } else {
            ArgOutcome::Error("unknown argument `"@ + a + "`; "@ + USAGE@)
        }
    }
}

/// What the whole command line (program name excluded) means.
pub open spec fn cli_answer(args: Seq<Seq<char>>, r: Result<CliAction, String>) -> bool {
    match read_args(args, 0, ArgState { source: None, evidence: seq![], pretty: true }) {
        ArgOutcome::Help => r matches Ok(CliAction::Help),
        ArgOutcome::Error(m) => r matches Err(e) && e@ == m,
        ArgOutcome::Done(st) => match st.source {
            None => r matches Err(e) && e@ == "missing --source; "@ + USAGE@,
            Some(src) => if st.evidence.len() == 0 {
                r matches Err(e) && e@ == "at least one --evidence file is required; "@ + USAGE@
            } else {
                r matches Ok(CliAction::Run(a)) && a.source@ == src && a.evidence_files@.map_values(
                    |f: String| f@,
                ) == st.evidence && a.pretty == st.pretty
            },
        },
    }
}

pub open spec fn opt_view(o: Option<String>) -> Option<Seq<char>> {
    match o {
        Some(s) => Some(s@),
        None => None,
    }
}

/// Read the verifier's command line (program name excluded).
pub fn parse_args(args: &Vec<String>) -> (r: Result<CliAction, String>)
    ensures
        cli_answer(args@.map_values(|s: String| s@), r),
{
    let ghost all = args@.map_values(|s: String| s@);
    let mut source: Option<String> = None;
    let mut evidence_files: Vec<String> = Vec::new();
    let mut pretty = true;
    let mut i: usize = 0;
    proof {
        assert(evidence_files@.map_values(|f: String| f@) =~= Seq::<Seq<char>>::empty());
    }
    while i < args.len()
        invariant
            i <= args@.len(),
            all == args@.map_values(|s: String| s@),
            read_args(all, 0, ArgState { source: None, evidence: seq![], pretty: true }) == read_args(
                all,
                i as int,
                ArgState {
                    source: opt_view(source),
                    evidence: evidence_files@.map_values(|f: String| f@),
                    pretty,
                },
            ),
        decreases args@.len() - i,
    {
        let ghost st = ArgState {
            source: opt_view(source),
            evidence: evidence_files@.map_values(|f: String| f@),
            pretty,
        };
        let a = chars_of(args[i].as_str());
        proof {
            assert(all[i as int] == args@[i as int]@);
        }
        if chars_are(a.as_slice(), "--source") {
            if i + 1 >= args.len() {
                return Err(String::from_str("--source requires a value"));
            }
            if crate::text::is_blank(args[i + 1].as_str()) {
                proof {
                    assert(all[i + 1] == args@[i + 1]@);
                }
                return Err(String::from_str("--source may not be empty"));
            }
            proof {
                assert(all[i + 1] == args@[i + 1]@);
            }
            source = Some(args[i + 1].clone());
            i = i + 2;
        } else if chars_are(a.as_slice(), "--evidence") {
            if i + 1 >= args.len() {
                return Err(String::from_str("--evidence requires a file path"));
            }
            proof {
                assert(all[i + 1] == args@[i + 1]@);
            }
            evidence_files.push(args[i + 1].clone());
            proof {
                assert(evidence_files@.map_values(|f: String| f@) =~= st.evidence.push(all[i + 1]));
            }
            i = i + 2;
        } else if chars_are(a.as_slice(), "--compact") {
            pretty = false;
            i = i + 1;
        } else if chars_are(a.as_slice(), "-h") || chars_are(a.as_slice(), "--help") {
            return Ok(CliAction::Help);
        } else {
            let mut m = cat("unknown argument `", args[i].as_str());
            m.append("`; ");
            m.append(USAGE);
            return Err(m);
        }
    }
    let source = match source {
        Some(s) => s,
        None => {
            return Err(cat("missing --source; ", USAGE));
        },
    };
    if evidence_files.len() == 0 {
        return Err(cat("at least one --evidence file is required; ", USAGE));
    }
    Ok(CliAction::Run(Args { source, evidence_files, pretty }))
}

} // verus!
