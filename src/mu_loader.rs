use vstd::prelude::*;
use vstd::string::*;
use crate::formatter::{push_render, render};
use crate::parser::{parse_mu, parse_spec};
use crate::snapshot_json::{ActionSpec, action_view, find_arrow, keyword_is, rule_views, substring, trim, trim_text};
use crate::term::Term;
use crate::text::{push_char, push_text};
use crate::trace_canon::line_end;
use crate::types::{RcxProgram, RcxRule, RuleAction};

verus! {

/// The action a program file writes after `->`: `ra`, `lobe`, `sink` (any
/// ASCII case) or `rewrite(<term>)` (`rewrite` in any ASCII case).
pub open spec fn file_action_spec(rhs: Seq<char>) -> Option<ActionSpec> {
    if keyword_is(rhs, "ra"@) {
        Some(ActionSpec::ToRa)
    } else if keyword_is(rhs, "lobe"@) {
        Some(ActionSpec::ToLobe)
    } else if keyword_is(rhs, "sink"@) {
        Some(ActionSpec::ToSink)
    } else if rhs.len() >= 9 && keyword_is(rhs.subrange(0, 8), "rewrite("@) && rhs.last() == ')' {
        match parse_spec(rhs.subrange(8, rhs.len() - 1)) {
            Some(t) => Some(ActionSpec::Rewrite(t)),
            None => None,
        }
    } else {
        None
    }
}

/// The rule a program-file line spells: `<pattern> -> <action>`, one arrow.
pub open spec fn file_rule_spec(line: Seq<char>) -> Option<(Term, ActionSpec)> {
    match find_arrow(line, 0) {
        None => None,
        Some(p) => if find_arrow(line, p + 2) is Some {
            None
        } else {
            match (
                parse_spec(line.subrange(0, p)),
                file_action_spec(trim(line.subrange(p + 2, line.len() as int))),
            ) {
                (Some(t), Some(a)) => Some((t, a)),
                _ => None,
            }
        },
    }
}

/// The rules of a program file from position `i` on, after `acc`: blank lines
/// and lines starting with `#` (after white space) are skipped.
pub open spec fn program_from(s: Seq<char>, i: int, acc: Seq<(Term, ActionSpec)>) -> Option<
    Seq<(Term, ActionSpec)>,
>
    decreases s.len() - i,
{
    if i < 0 || i >= s.len() {
        Some(acc)
    } else {
        let e = line_end(s, i);
        let line = trim(s.subrange(i, e));
        let acc2 = if line.len() == 0 || line[0] == '#' {
            Some(acc)
        } else {
            match file_rule_spec(line) {
                Some(r) => Some(acc.push(r)),
                None => None,
            }
        };
        if e < i || e > s.len() || acc2 is None {
            None
        } else if e == s.len() {
            acc2
        } else {
            program_from(s, e + 1, acc2->Some_0)
        }
    }
}

fn file_action(rhs: &str) -> (r: Result<RuleAction, String>)
    ensures
        r is Ok <==> file_action_spec(rhs@) is Some,
        r is Ok ==> action_view(r->Ok_0) == file_action_spec(rhs@)->Some_0,
{
    if crate::snapshot_json::keyword_matches(rhs, "ra") {
        return Ok(RuleAction::ToRa);
    }
    if crate::snapshot_json::keyword_matches(rhs, "lobe") {
        return Ok(RuleAction::ToLobe);
    }
    if crate::snapshot_json::keyword_matches(rhs, "sink") {
        return Ok(RuleAction::ToSink);
    }
    let n = rhs.unicode_len();
    if n >= 9 {
        let head = substring(rhs, 0, 8);
        if crate::snapshot_json::keyword_matches(head.as_str(), "rewrite(") && rhs.get_char(n - 1)
            == ')' {
            let arg = substring(rhs, 8, n - 1);
            return match parse_mu(arg.as_str()) {
                Ok(m) => Ok(RuleAction::Rewrite(m)),
                Err(e) => Err(e),
            };
        }
    }
    let mut msg = String::new();
    push_text(&mut msg, "unknown target `");
    push_text(&mut msg, rhs);
    push_text(&mut msg, "` (expected ra|lobe|sink|rewrite(...))");
    Err(msg)
}

fn file_rule(line: &str) -> (r: Result<RcxRule, String>)
    ensures
        r is Ok <==> file_rule_spec(line@) is Some,
        r is Ok ==> (r->Ok_0.pattern@, action_view(r->Ok_0.action)) == file_rule_spec(line@)->Some_0,
{
    let n = line.unicode_len();
    let p = match crate::snapshot_json::find_arrow_exec(line, n, 0) {
        Some(p) => p,
        None => return Err(String::from_str("expected `lhs -> rhs`")),
    };
    if crate::snapshot_json::find_arrow_exec(line, n, p + 2).is_some() {
        return Err(String::from_str("expected `lhs -> rhs`"));
    }
    let lhs = substring(line, 0, p);
    let pattern = match parse_mu(lhs.as_str()) {
        Ok(m) => m,
        Err(e) => return Err(e),
    };
    let rest = substring(line, p + 2, n);
    let rhs = trim_text(rest.as_str());
    match file_action(rhs.as_str()) {
        Ok(action) => Ok(RcxRule { pattern, action }),
        Err(e) => Err(e),
    }
}

/// Reads a program file's text: one `<pattern> -> <action>` rule per line.
pub fn parse_program_text(content: &str) -> (r: Result<RcxProgram, String>)
    ensures
        r is Ok <==> program_from(content@, 0, Seq::empty()) is Some,
        r is Ok ==> rule_views(r->Ok_0.rules@) == program_from(content@, 0, Seq::empty())->Some_0,
{
    let n = content.unicode_len();
    let mut rules: Vec<RcxRule> = Vec::new();
    let mut i: usize = 0;
    proof {
        assert(rule_views(rules@) =~= Seq::<(Term, ActionSpec)>::empty());
    }
    while i < n
        invariant
            n == content@.len(),
            0 <= i <= n,
            program_from(content@, 0, Seq::empty()) == program_from(content@, i as int, rule_views(rules@)),
        decreases n - i,
    {
        let mut e = i;
        while e < n && content.get_char(e) != '\n'
            invariant
                n == content@.len(),
                i <= e <= n,
                line_end(content@, i as int) == line_end(content@, e as int),
            decreases n - e,
        {
            e += 1;
        }
        let raw = substring(content, i, e);
        let line = trim_text(raw.as_str());
        if line.unicode_len() > 0 && line.get_char(0) != '#' {
            match file_rule(line.as_str()) {
                Ok(rule) => {
                    let ghost before = rules@;
                    rules.push(rule);
                    proof {
                        assert(rule_views(rules@) =~= rule_views(before).push(
                            (rules@.last().pattern@, action_view(rules@.last().action)),
                        ));
                    }
                },
                Err(err) => {
                    return Err(err);
                },
            }
        }
        if e == n {
            i = n;
        } else {
            i = e + 1;
        }
    }
    Ok(RcxProgram { rules })
}

/// The text of an action in a program file.
pub open spec fn file_action_text(a: RuleAction) -> Seq<char> {
    match a {
        RuleAction::ToRa => "ra"@,
        RuleAction::ToLobe => "lobe"@,
        RuleAction::ToSink => "sink"@,
        RuleAction::Rewrite(m) => "rewrite("@ + render(m@) + ")"@,
    }
}

/// The first `n` rules as program-file lines, each ending in a newline.
pub open spec fn program_lines(rs: Seq<RcxRule>, n: int) -> Seq<char>
    decreases n,
{
    if n <= 0 || n > rs.len() {
        Seq::empty()
    } else {
        program_lines(rs, n - 1) + render(rs[n - 1].pattern@) + " -> "@ + file_action_text(
            rs[n - 1].action,
        ) + seq!['\n']
    }
}

/// Writes a program as program-file text.
pub fn program_to_text(program: &RcxProgram) -> (r: String)
    ensures
        r@ == program_lines(program.rules@, program.rules@.len() as int),
{
    let mut out = String::new();
    let rules = &program.rules;
    let mut i: usize = 0;
    while i < rules.len()
        invariant
            rules@ == program.rules@,
            0 <= i <= rules@.len(),
            out@ == program_lines(rules@, i as int),
        decreases rules.len() - i,
    {
        let ghost before = out@;
        push_render(&mut out, &rules[i].pattern);
        push_text(&mut out, " -> ");
        match &rules[i].action {
            RuleAction::ToRa => push_text(&mut out, "ra"),
            RuleAction::ToLobe => push_text(&mut out, "lobe"),
            RuleAction::ToSink => push_text(&mut out, "sink"),
            RuleAction::Rewrite(m) => {
                push_text(&mut out, "rewrite(");
                push_render(&mut out, m);
                push_text(&mut out, ")");
            },
        }
        push_char(&mut out, '\n');
        proof {
            assert(out@ =~= program_lines(rules@, i + 1));
        }
        i += 1;
    }
    out
}

} // verus!

verus! {

/// The first position at or after `i` that holds `/`, or the end.
pub open spec fn segment_end(s: Seq<char>, i: int) -> int
    decreases s.len() - i,
{
    if 0 <= i < s.len() && s[i] != '/' {
        segment_end(s, i + 1)
    } else {
        i
    }
}

/// The components of a `/`-separated path from `i` on: empty segments are
/// skipped, and so is `.` unless it opens a relative path.
pub open spec fn components_from(s: Seq<char>, i: int, first: bool) -> nat
    decreases s.len() - i,
{
    if i < 0 || i >= s.len() {
        0
    } else {
        let e = segment_end(s, i);
        let seg = s.subrange(i, e);
        let c: nat = if seg.len() == 0 || (seg == seq!['.'] && !first) {
            0
        } else {
            1
        };
        if e < i || e >= s.len() {
            c
        } else {
            c + components_from(s, e + 1, false)
        }
    }
}

/// The number of components of a `/`-separated path, a leading `/` counting as one.
pub open spec fn component_count(s: Seq<char>) -> nat {
    if s.len() > 0 && s[0] == '/' {
        1 + components_from(s, 1, false)
    } else {
        components_from(s, 0, true)
    }
}

/// The file name of a world: `name` with `.mu` added when missing.
pub open spec fn world_file(name: Seq<char>) -> Seq<char> {
    if name.len() >= 3 && name.subrange(name.len() - 3, name.len() as int) == ".mu"@ {
        name
    } else {
        name + ".mu"@
    }
}

/// Where a world named `name` is kept: a path with a directory part as it is,
/// else the file under `mu_programs/` (an absolute file name stays absolute).
pub open spec fn world_path(name: Seq<char>) -> Seq<char> {
    if component_count(name) > 1 {
        name
    } else if world_file(name).len() > 0 && world_file(name)[0] == '/' {
        world_file(name)
    } else {
        "mu_programs/"@ + world_file(name)
    }
}

fn count_components(s: &str) -> (r: u64)
    requires
        s@.len() < u64::MAX,
    ensures
        r as nat == component_count(s@),
{
    let n = s.unicode_len();
    let mut count: u64 = 0;
    let mut i: usize = 0;
    let mut first = true;
    if n > 0 && s.get_char(0) == '/' {
        count = 1;
        i = 1;
        first = false;
    }
    let ghost base = count;
    let ghost start_first = first;
    let ghost start = i;
    while i < n
        invariant
            n == s@.len(),
            n < u64::MAX,
            0 <= i <= n,
            count <= i,
            component_count(s@) == count + components_from(s@, i as int, first),
        decreases n - i,
    {
        let mut e = i;
        while e < n && s.get_char(e) != '/'
            invariant
                n == s@.len(),
                i <= e <= n,
                segment_end(s@, i as int) == segment_end(s@, e as int),
            decreases n - e,
        {
            e += 1;
        }
        let len = e - i;
        let dot = len == 1 && s.get_char(i) == '.';
        proof {
            assert(segment_end(s@, e as int) == e);
            assert(segment_end(s@, i as int) == e);
            let seg = s@.subrange(i as int, e as int);
            if dot {
                assert(seg =~= seq!['.']);
            }
            if seg == seq!['.'] {
                assert(seg.len() == 1);
                assert(seg[0] == '.');
                assert(s@[i as int] == seg[0]);
            }
            assert(dot <==> seg == seq!['.']);
            assert((len == 0) <==> seg.len() == 0);
        }
        let ghost old_count = count;
        let ghost old_first = first;
        if !(len == 0 || (dot && !first)) {
            count = count + 1;
        }
        proof {
            let c: nat = if s@.subrange(i as int, e as int).len() == 0 || (s@.subrange(i as int, e as int)
                == seq!['.'] && !old_first) {
                0
            } else {
                1
            };
            assert(count == old_count + c);
            assert(components_from(s@, i as int, old_first) == c + if e >= n {
                0nat
            } else {
                components_from(s@, e + 1, false)
            });
        }
        first = false;
        if e == n {
            i = n;
        } else {
            i = e + 1;
        }
    }
    count
}

/// Where a world named `name` is kept; see `world_path`.
pub fn normalize_world_path(name: &str) -> (r: String)
    requires
        name@.len() < u64::MAX,
    ensures
        r@ == world_path(name@),
{
    let n = name.unicode_len();
    if count_components(name) > 1 {
        return String::from_str(name);
    }
    let mut file = String::from_str(name);
    let has_ext = n >= 3 && {
        let tail = substring(name, n - 3, n);
        crate::text::text_eq(tail.as_str(), ".mu")
    };
    if !has_ext {
        push_text(&mut file, ".mu");
    }
    assert(file@ == world_file(name@));
    if file.unicode_len() > 0 && file.as_str().get_char(0) == '/' {
        return file;
    }
    let mut out = String::from_str("mu_programs/");
    push_text(&mut out, file.as_str());
    out
}

} // verus!
