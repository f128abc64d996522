use vstd::prelude::*;
use vstd::string::*;
use crate::text::{push_text, text_eq};
use crate::trace_canon::{canon_trace_spec, canonicalize_trace};

verus! {

/// Exit status: the replay matched.
pub const EXIT_OK: i32 = 0;

/// Exit status: canonical output differs from what it was compared with.
pub const EXIT_MISMATCH: i32 = 1;

/// Exit status: bad arguments, unreadable files or an invalid trace.
pub const EXIT_ERROR: i32 = 2;

/// The replay tool's options.
pub struct ReplayArgs {
    pub trace: String,
    pub out: Option<String>,
    pub expect: Option<String>,
    pub check_canon: bool,
}

/// What a command line asks for.
pub enum ArgsOutcome {
    Parsed(Seq<char>, Option<Seq<char>>, Option<Seq<char>>, bool),
    Help,
    Invalid,
}

/// Reads the options from position `i` on, with those read so far.
pub open spec fn args_spec(
    a: Seq<Seq<char>>,
    i: int,
    trace: Option<Seq<char>>,
    out: Option<Seq<char>>,
    expect: Option<Seq<char>>,
    check: bool,
) -> ArgsOutcome
    decreases a.len() - i,
{
    if i < 0 || i >= a.len() {
        match trace {
            Some(t) => ArgsOutcome::Parsed(t, out, expect, check),
            None => ArgsOutcome::Invalid,
        }
    } else if a[i] == "--trace"@ {
        if i + 1 >= a.len() {
            ArgsOutcome::Invalid
        } else {
            args_spec(a, i + 2, Some(a[i + 1]), out, expect, check)
        }
    } else if a[i] == "--out"@ {
        if i + 1 >= a.len() {
            ArgsOutcome::Invalid
        } else {
            args_spec(a, i + 2, trace, Some(a[i + 1]), expect, check)
        }
    } else if a[i] == "--expect"@ {
        if i + 1 >= a.len() {
            ArgsOutcome::Invalid
        } else {
            args_spec(a, i + 2, trace, out, Some(a[i + 1]), check)
        }
    } else if a[i] == "--check-canon"@ {
        args_spec(a, i + 1, trace, out, expect, true)
    } else if a[i] == "--help"@ || a[i] == "-h"@ {
        ArgsOutcome::Help
    } else {
        ArgsOutcome::Invalid
    }
}

pub open spec fn texts(args: Seq<String>) -> Seq<Seq<char>> {
    Seq::new(args.len(), |i: int| args[i]@)
}

pub open spec fn opt_view_text(o: Option<String>) -> Option<Seq<char>> {
    match o {
        Some(s) => Some(s@),
        None => None,
    }
}

fn invalid(msg: &str) -> (r: Result<ReplayArgs, String>)
    requires
        msg@.len() > 0,
    ensures
        r is Err && r->Err_0@.len() > 0,
{
    Err(String::from_str(msg))
}

/// Parses the replay tool's command line. Help is reported as an error with an
/// empty message; every other error has a message.
pub fn parse_args(args: &[String]) -> (r: Result<ReplayArgs, String>)
    ensures
        match args_spec(texts(args@), 0, None, None, None, false) {
            ArgsOutcome::Parsed(t, o, e, c) => r is Ok && r->Ok_0.trace@ == t && opt_view_text(
                r->Ok_0.out,
            ) == o && opt_view_text(r->Ok_0.expect) == e && r->Ok_0.check_canon == c,
            ArgsOutcome::Help => r is Err && r->Err_0@.len() == 0,
            ArgsOutcome::Invalid => r is Err && r->Err_0@.len() > 0,
        },
{
    let ghost a = texts(args@);
    let mut trace: Option<String> = None;
    let mut out: Option<String> = None;
    let mut expect: Option<String> = None;
    let mut check_canon = false;
    let mut i: usize = 0;
    proof {
        reveal_strlit("--trace requires a path");
        reveal_strlit("--out requires a path");
        reveal_strlit("--expect requires a path");
        reveal_strlit("--trace is required");
        reveal_strlit("unknown argument: ");
    }
    while i < args.len()
        invariant
            a == texts(args@),
            0 <= i <= args@.len(),
            args_spec(a, 0, None, None, None, false) == args_spec(
                a,
                i as int,
                opt_view_text(trace),
                opt_view_text(out),
                opt_view_text(expect),
                check_canon,
            ),
        decreases args.len() - i,
    {
        let arg = args[i].as_str();
        if text_eq(arg, "--trace") {
            if i + 1 >= args.len() {
                proof {
                    reveal_strlit("--trace requires a path");
                }
                return invalid("--trace requires a path");
            }
            trace = Some(args[i + 1].clone());
            i += 2;
        } else if text_eq(arg, "--out") {
            if i + 1 >= args.len() {
                proof {
                    reveal_strlit("--out requires a path");
                }
                return invalid("--out requires a path");
            }
            out = Some(args[i + 1].clone());
            i += 2;
        } else if text_eq(arg, "--expect") {
            if i + 1 >= args.len() {
                proof {
                    reveal_strlit("--expect requires a path");
                }
                return invalid("--expect requires a path");
            }
            expect = Some(args[i + 1].clone());
            i += 2;
        } else if text_eq(arg, "--check-canon") {
            check_canon = true;
            i += 1;
        } else if text_eq(arg, "--help") || text_eq(arg, "-h") {
            return Err(String::new());
        } else {
            let mut msg = String::new();
            push_text(&mut msg, "unknown argument: ");
            proof {
                reveal_strlit("unknown argument: ");
            }
            push_text(&mut msg, arg);
            return Err(msg);
        }
    }
    match trace {
        Some(t) => Ok(ReplayArgs { trace: t, out, expect, check_canon }),
        None => {
            proof {
                reveal_strlit("--trace is required");
            }
            invalid("--trace is required")
        },
    }
}

/// The result of checking one trace.
pub enum ReplayVerdict {
    /// The canonical text, to be written and compared.
    Canonical(String),
    /// The input was not already canonical under `--check-canon`.
    NotCanonical,
    /// The trace could not be read or validated.
    Invalid(String),
}

/// Canonicalises a trace text; with `check_canon`, the text must already be
/// canonical.
pub fn replay_trace(original: &str, check_canon: bool) -> (r: ReplayVerdict)
    ensures
        match canon_trace_spec(original@) {
            None => r is Invalid,
            Some(c) => if check_canon && c != original@ {
                r is NotCanonical
            } else {
                r matches ReplayVerdict::Canonical(x) && x@ == c
            },
        },
{
    match canonicalize_trace(original) {
        Ok(canon) => {
            if check_canon && !text_eq(original, canon.as_str()) {
                ReplayVerdict::NotCanonical
            } else {
                ReplayVerdict::Canonical(canon)
            }
        },
        Err(e) => ReplayVerdict::Invalid(e),
    }
}

/// The exit status of comparing the canonical text with an expected artifact.
pub fn compare_expected(canon: &str, expected: &str) -> (r: i32)
    ensures
        r == (if canon@ == expected@ {
            EXIT_OK
        } else {
            EXIT_MISMATCH
        }),
{
    if text_eq(canon, expected) {
        EXIT_OK
    } else {
        EXIT_MISMATCH
    }
}

} // verus!
