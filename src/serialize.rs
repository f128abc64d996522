use vstd::prelude::*;
use vstd::string::*;
use crate::engine::pushed;
use crate::formatter::{bucket_list, bucket_to_string, push_render, render};
use crate::parser::{parse_mu, parse_spec};
use crate::snapshot_json::{
    ActionSpec,
    parse_rule_line,
    rule_spec,
    rule_text,
    rule_to_string,
    rule_views,
    substring,
    trim,
    trim_text,
};
use crate::state::RCXState;
use crate::term::{Mu, Term, children_of};
use crate::text::{push_char, push_text, text_eq};
use crate::trace_canon::line_end;
use crate::types::{RcxProgram, RcxRule, RuleAction};

verus! {

/// What a state file holds: rules and the three buckets.
pub struct SavedModel {
    pub rules: Seq<(Term, ActionSpec)>,
    pub ra: Seq<Term>,
    pub lobes: Seq<Term>,
    pub sink: Seq<Term>,
}

/// `line` starts with `prefix`; the rest.
pub open spec fn after_prefix(line: Seq<char>, prefix: Seq<char>) -> Option<Seq<char>> {
    if line.len() >= prefix.len() && line.subrange(0, prefix.len() as int) == prefix {
        Some(line.subrange(prefix.len() as int, line.len() as int))
    } else {
        None
    }
}

/// One trimmed line of a state file applied to `m`.
pub open spec fn saved_line(line: Seq<char>, m: SavedModel) -> Option<SavedModel> {
    if line.len() == 0 || line[0] == '#' || line == "PROGRAM:"@ || line == "STATE:"@ {
        Some(m)
    } else if after_prefix(line, "RULE: "@) is Some {
        match rule_spec(after_prefix(line, "RULE: "@)->Some_0) {
            Some(r) => Some(SavedModel { rules: m.rules.push(r), ..m }),
            None => None,
        }
    } else if after_prefix(line, "RA: "@) is Some {
        match parse_spec(after_prefix(line, "RA: "@)->Some_0) {
            Some(t) => Some(SavedModel { ra: m.ra.push(t), ..m }),
            None => None,
        }
    } else if after_prefix(line, "LOBE: "@) is Some {
        match parse_spec(after_prefix(line, "LOBE: "@)->Some_0) {
            Some(t) => Some(SavedModel { lobes: m.lobes.push(t), ..m }),
            None => None,
        }
    } else if after_prefix(line, "SINK: "@) is Some {
        match parse_spec(after_prefix(line, "SINK: "@)->Some_0) {
            Some(t) => Some(SavedModel { sink: m.sink.push(t), ..m }),
            None => None,
        }
    } else {
        None
    }
}

/// The state file's lines from `i` on, applied to `m`.
pub open spec fn saved_from(s: Seq<char>, i: int, m: SavedModel) -> Option<SavedModel>
    decreases s.len() - i,
{
    if i < 0 || i >= s.len() {
        Some(m)
    } else {
        let e = line_end(s, i);
        let m2 = saved_line(trim(s.subrange(i, e)), m);
        if e < i || e > s.len() || m2 is None {
            None
        } else if e == s.len() {
            m2
        } else {
            saved_from(s, e + 1, m2->Some_0)
        }
    }
}

pub open spec fn empty_saved() -> SavedModel {
    SavedModel { rules: Seq::empty(), ra: Seq::empty(), lobes: Seq::empty(), sink: Seq::empty() }
}

fn strip_prefix(line: &str, prefix: &str) -> (r: Option<String>)
    ensures
        opt_text(r) == after_prefix(line@, prefix@),
{
    let n = line.unicode_len();
    let m = prefix.unicode_len();
    if n < m {
        return None;
    }
    let head = substring(line, 0, m);
    if text_eq(head.as_str(), prefix) {
        Some(substring(line, m, n))
    } else {
        None
    }
}

pub open spec fn opt_text(o: Option<String>) -> Option<Seq<char>> {
    match o {
        Some(s) => Some(s@),
        None => None,
    }
}

/// A state with the given rules' buckets and nothing else.
pub open spec fn saved_of(rules: Seq<RcxRule>, s: RCXState) -> SavedModel {
    SavedModel {
        rules: rule_views(rules),
        ra: children_of(s.ra@),
        lobes: children_of(s.lobes@),
        sink: children_of(s.sink@),
    }
}

fn push_term(v: &mut Vec<Mu>, m: Mu)
    ensures
        children_of(final(v)@) == children_of(old(v)@).push(m@),
{
    let ghost before = v@;
    let ghost mv = m@;
    v.push(m);
    proof {
        assert(children_of(v@) =~= children_of(before).push(mv));
    }
}

/// Reads a state file's text: rules and bucket entries, one per line. The
/// state comes back with nothing in flight, empty registers, an empty log and
/// the counter at zero.
pub fn load_state_text(content: &str) -> (r: Result<(RCXState, RcxProgram), String>)
    ensures
        r is Ok <==> saved_from(content@, 0, empty_saved()) is Some,
        r is Ok ==> {
            let (s, p) = r->Ok_0;
            &&& saved_of(p.rules@, s) == saved_from(content@, 0, empty_saved())->Some_0
            &&& s.current is None
            &&& s.null_reg@.len() == 0 && s.inf_reg@.len() == 0
            &&& s.trace@.len() == 0 && s.step_counter == 0
        },
{
    let mut state = RCXState::new();
    let mut rules: Vec<RcxRule> = Vec::new();
    let n = content.unicode_len();
    let mut i: usize = 0;
    proof {
        assert(rule_views(rules@) =~= Seq::<(Term, ActionSpec)>::empty());
        assert(children_of(state.ra@) =~= Seq::<Term>::empty());
        assert(children_of(state.lobes@) =~= Seq::<Term>::empty());
        assert(children_of(state.sink@) =~= Seq::<Term>::empty());
        assert(saved_of(rules@, state) == empty_saved());
        reveal_strlit("RULE: ");
        reveal_strlit("RA: ");
        reveal_strlit("LOBE: ");
        reveal_strlit("SINK: ");
    }
    while i < n
        invariant
            n == content@.len(),
            0 <= i <= n,
            state.current is None,
            state.null_reg@.len() == 0 && state.inf_reg@.len() == 0,
            state.trace@.len() == 0 && state.step_counter == 0,
            saved_from(content@, 0, empty_saved()) == saved_from(content@, i as int, saved_of(rules@, state)),
        decreases n - i,
    {
        let mut e = i;
        while e < n && content.get_char(e) != '\n'
            invariant
                n == content@.len(),
                i <= e <= n,
                line_end(content@, i as int) == line_end(content@, e as int),
            decreases n - e,
        {
            e += 1;
        }
        let raw = substring(content, i, e);
        let line = trim_text(raw.as_str());
        let ghost before = saved_of(rules@, state);
        let l = line.as_str();
        if l.unicode_len() == 0 || l.get_char(0) == '#' || text_eq(l, "PROGRAM:") || text_eq(l, "STATE:") {
        } else if let Some(rest) = strip_prefix(l, "RULE: ") {
            match parse_rule_line(rest.as_str()) {
                Ok(rule) => {
                    let ghost rb = rules@;
                    rules.push(rule);
                    proof {
                        assert(rule_views(rules@) =~= rule_views(rb).push(
                            (rules@.last().pattern@, crate::snapshot_json::action_view(rules@.last().action)),
                        ));
                        assert(saved_of(rules@, state) =~~= SavedModel { rules: before.rules.push(rule_spec(rest@)->Some_0), ..before });
                    }
                },
                Err(err) => return Err(err),
            }
        } else if let Some(rest) = strip_prefix(l, "RA: ") {
            match parse_mu(rest.as_str()) {
                Ok(m) => {
                    push_term(&mut state.ra, m);
                    proof {
                        assert(saved_of(rules@, state) =~~= SavedModel { ra: before.ra.push(parse_spec(rest@)->Some_0), ..before });
                    }
                },
                Err(err) => return Err(err),
            }
        } else if let Some(rest) = strip_prefix(l, "LOBE: ") {
            match parse_mu(rest.as_str()) {
                Ok(m) => {
                    push_term(&mut state.lobes, m);
                    proof {
                        assert(saved_of(rules@, state) =~~= SavedModel { lobes: before.lobes.push(parse_spec(rest@)->Some_0), ..before });
                    }
                },
                Err(err) => return Err(err),
            }
        } else if let Some(rest) = strip_prefix(l, "SINK: ") {
            match parse_mu(rest.as_str()) {
                Ok(m) => {
                    push_term(&mut state.sink, m);
                    proof {
                        assert(saved_of(rules@, state) =~~= SavedModel { sink: before.sink.push(parse_spec(rest@)->Some_0), ..before });
                    }
                },
                Err(err) => return Err(err),
            }
        } else {
            let mut msg = String::new();
            push_text(&mut msg, "unrecognized line: `");
            push_text(&mut msg, l);
            push_text(&mut msg, "`");
            return Err(msg);
        }
        if e == n {
            i = n;
        } else {
            i = e + 1;
        }
    }
    Ok((state, RcxProgram { rules }))
}

/// `prefix` and the text of each term on its own line.
pub open spec fn term_lines(prefix: Seq<char>, ts: Seq<Term>, n: int) -> Seq<char>
    decreases n,
{
    if n <= 0 || n > ts.len() {
        Seq::empty()
    } else {
        term_lines(prefix, ts, n - 1) + prefix + render(ts[n - 1]) + seq!['\n']
    }
}

/// `RULE: ` and the text of each rule on its own line.
pub open spec fn rule_lines(rs: Seq<RcxRule>, n: int) -> Seq<char>
    decreases n,
{
    if n <= 0 || n > rs.len() {
        Seq::empty()
    } else {
        rule_lines(rs, n - 1) + "RULE: "@ + rule_text(rs[n - 1]) + seq!['\n']
    }
}

/// The state file text of a program and a state's buckets.
pub open spec fn state_file_text(rules: Seq<RcxRule>, s: RCXState) -> Seq<char> {
    "# RCX-\u{3c0} snapshot v1\nPROGRAM:\n"@ + rule_lines(rules, rules.len() as int) + "STATE:\n"@
        + term_lines("RA: "@, children_of(s.ra@), s.ra@.len() as int) + term_lines(
        "LOBE: "@,
        children_of(s.lobes@),
        s.lobes@.len() as int,
    ) + term_lines("SINK: "@, children_of(s.sink@), s.sink@.len() as int)
}

fn push_term_lines(out: &mut String, prefix: &str, v: &Vec<Mu>)
    ensures
        final(out)@ == old(out)@ + term_lines(prefix@, children_of(v@), v@.len() as int),
{
    let ghost start = out@;
    let ghost tv = children_of(v@);
    let mut i: usize = 0;
    while i < v.len()
        invariant
            tv == children_of(v@),
            0 <= i <= v@.len(),
            out@ == start + term_lines(prefix@, tv, i as int),
        decreases v.len() - i,
    {
        push_text(out, prefix);
        push_render(out, &v[i]);
        push_char(out, '\n');
        proof {
            assert(out@ =~= start + term_lines(prefix@, tv, i + 1));
        }
        i += 1;
    }
}

/// Writes a program and a state's buckets as state file text.
pub fn save_state_text(state: &RCXState, program: &RcxProgram) -> (r: String)
    ensures
        r@ == state_file_text(program.rules@, *state),
{
    let mut out = String::new();
    push_text(&mut out, "# RCX-\u{3c0} snapshot v1\nPROGRAM:\n");
    let ghost mid = out@;
    let rules = &program.rules;
    let mut i: usize = 0;
    while i < rules.len()
        invariant
            rules@ == program.rules@,
            0 <= i <= rules@.len(),
            out@ == mid + rule_lines(rules@, i as int),
        decreases rules.len() - i,
    {
        push_text(&mut out, "RULE: ");
        let t = rule_to_string(&rules[i]);
        push_text(&mut out, t.as_str());
        push_char(&mut out, '\n');
        proof {
            assert(out@ =~= mid + rule_lines(rules@, i + 1));
        }
        i += 1;
    }
    push_text(&mut out, "STATE:\n");
    push_term_lines(&mut out, "RA: ", &state.ra);
    push_term_lines(&mut out, "LOBE: ", &state.lobes);
    push_term_lines(&mut out, "SINK: ", &state.sink);
    proof {
        assert(out@ =~= state_file_text(program.rules@, *state));
    }
    out
}

/// The bucket file text: `ra = [..]`, `lobes = [..]` and `sink = [..]` lines.
pub open spec fn bucket_file_text(s: RCXState) -> Seq<char> {
    "# RCX state snapshot\nra = "@ + seq!['['] + bucket_list(children_of(s.ra@), s.ra@.len() as int)
        + seq![']'] + "\nlobes = "@ + seq!['['] + bucket_list(children_of(s.lobes@), s.lobes@.len() as int)
        + seq![']'] + "\nsink = "@ + seq!['['] + bucket_list(children_of(s.sink@), s.sink@.len() as int)
        + seq![']'] + "\n"@
}

/// Writes a state's buckets as bucket file text.
pub fn save_buckets_text(state: &RCXState) -> (r: String)
    ensures
        r@ == bucket_file_text(*state),
{
    let mut out = String::new();
    push_text(&mut out, "# RCX state snapshot\nra = ");
    let a = bucket_to_string(state.ra.as_slice());
    push_text(&mut out, a.as_str());
    push_text(&mut out, "\nlobes = ");
    let b = bucket_to_string(state.lobes.as_slice());
    push_text(&mut out, b.as_str());
    push_text(&mut out, "\nsink = ");
    let c = bucket_to_string(state.sink.as_slice());
    push_text(&mut out, c.as_str());
    push_text(&mut out, "\n");
    proof {
        assert(out@ =~= bucket_file_text(*state));
    }
    out
}

/// The bucket a bucket-file value spells: a node's children, or one term.
pub open spec fn bucket_spec(src: Seq<char>) -> Option<Seq<Term>> {
    match parse_spec(src) {
        Some(Term::Node(cs)) => Some(cs),
        Some(t) => Some(seq![t]),
        None => None,
    }
}

/// Reads one bucket-file value; see `bucket_spec`.
pub fn parse_bucket(src: &str) -> (r: Result<Vec<Mu>, String>)
    ensures
        r is Ok <==> bucket_spec(src@) is Some,
        r is Ok ==> children_of(r->Ok_0@) == bucket_spec(src@)->Some_0,
{
    match parse_mu(src) {
        Ok(Mu::Node(children)) => {
            proof {
                crate::term::lemma_node_view(children);
            }
            Ok(children)
        },
        Ok(other) => {
            let mut v: Vec<Mu> = Vec::new();
            push_term(&mut v, other);
            proof {
                assert(children_of(v@) =~= seq![other@]);
            }
            Ok(v)
        },
        Err(e) => Err(e),
    }
}

/// How one character is written by the world export: quotes, backslashes and
/// line breaks and tabs escaped, all else kept.
pub open spec fn plain_escape_char(c: char) -> Seq<char> {
    if c == '\\' {
        seq!['\\', '\\']
    } else if c == '"' {
        seq!['\\', '"']
    } else if c == '\n' {
        seq!['\\', 'n']
    } else if c == '\r' {
        seq!['\\', 'r']
    } else if c == '\t' {
        seq!['\\', 't']
    } else {
        seq![c]
    }
}

pub open spec fn plain_escape(s: Seq<char>) -> Seq<char>
    decreases s.len(),
{
    if s.len() == 0 {
        Seq::empty()
    } else {
        plain_escape(s.drop_last()) + plain_escape_char(s.last())
    }
}

/// Escapes a string for the inside of a JSON string literal (no quotes added).
pub fn escape_json_string(s: &str) -> (r: String)
    ensures
        r@ == plain_escape(s@),
{
    let mut out = String::new();
    let n = s.unicode_len();
    let mut i: usize = 0;
    while i < n
        invariant
            n == s@.len(),
            0 <= i <= n,
            out@ == plain_escape(s@.subrange(0, i as int)),
        decreases n - i,
    {
        let c = s.get_char(i);
        let ghost before = out@;
        if c == '\\' {
            push_char(&mut out, '\\');
            push_char(&mut out, '\\');
        } else if c == '"' {
            push_char(&mut out, '\\');
            push_char(&mut out, '"');
        } else if c == '\n' {
            push_char(&mut out, '\\');
            push_char(&mut out, 'n');
        } else if c == '\r' {
            push_char(&mut out, '\\');
            push_char(&mut out, 'r');
        } else if c == '\t' {
            push_char(&mut out, '\\');
            push_char(&mut out, 't');
        } else {
            push_char(&mut out, c);
        }
        proof {
            assert(s@.subrange(0, i + 1).drop_last() =~= s@.subrange(0, i as int));
            assert(out@ =~= before + plain_escape_char(c));
        }
        i += 1;
    }
    proof {
        assert(s@.subrange(0, n as int) =~= s@);
    }
    out
}

/// One rule of the world export.
pub open spec fn world_rule_json(r: RcxRule) -> Seq<char> {
    "    {\n      \"pattern\": \""@ + plain_escape(render(r.pattern@)) + "\",\n      \"action\": \""@
        + match r.action {
        RuleAction::ToRa => "ra\""@,
        RuleAction::ToLobe => "lobe\""@,
        RuleAction::ToSink => "sink\""@,
        RuleAction::Rewrite(m) => "rewrite\",\n      \"rewrite\": \""@ + plain_escape(render(m@))
            + "\""@,
    } + "\n    }"@
}

pub open spec fn world_rules_json(rs: Seq<RcxRule>, n: int) -> Seq<char>
    decreases n,
{
    if n <= 0 || n > rs.len() {
        Seq::empty()
    } else if n == 1 {
        world_rule_json(rs[0])
    } else {
        world_rules_json(rs, n - 1) + ",\n"@ + world_rule_json(rs[n - 1])
    }
}

/// The world export of a program: its rules as pretty-printed JSON.
pub open spec fn world_json(rs: Seq<RcxRule>) -> Seq<char> {
    "{\n  \"rules\": [\n"@ + world_rules_json(rs, rs.len() as int) + "\n  ]\n}\n"@
}

fn push_world_rule(out: &mut String, r: &RcxRule)
    ensures
        final(out)@ == old(out)@ + world_rule_json(*r),
{
    let ghost start = out@;
    push_text(out, "    {\n      \"pattern\": \"");
    let p = crate::formatter::mu_to_string(&r.pattern);
    let pe = escape_json_string(p.as_str());
    push_text(out, pe.as_str());
    push_text(out, "\",\n      \"action\": \"");
    match &r.action {
        RuleAction::ToRa => push_text(out, "ra\""),
        RuleAction::ToLobe => push_text(out, "lobe\""),
        RuleAction::ToSink => push_text(out, "sink\""),
        RuleAction::Rewrite(m) => {
            push_text(out, "rewrite\",\n      \"rewrite\": \"");
            let t = crate::formatter::mu_to_string(m);
            let te = escape_json_string(t.as_str());
            push_text(out, te.as_str());
            push_text(out, "\"");
        },
    }
    push_text(out, "\n    }");
    proof {
        assert(out@ =~= start + world_rule_json(*r));
    }
}

/// Writes a program's rules as the world export document.
pub fn world_json_text(program: &RcxProgram) -> (r: String)
    ensures
        r@ == world_json(program.rules@),
{
    let mut out = String::new();
    push_text(&mut out, "{\n  \"rules\": [\n");
    let ghost mid = out@;
    let rules = &program.rules;
    let mut i: usize = 0;
    while i < rules.len()
        invariant
            rules@ == program.rules@,
            0 <= i <= rules@.len(),
            out@ == mid + world_rules_json(rules@, i as int),
        decreases rules.len() - i,
    {
        if i > 0 {
            push_text(&mut out, ",\n");
        }
        push_world_rule(&mut out, &rules[i]);
        proof {
            assert(out@ =~= mid + world_rules_json(rules@, i + 1));
        }
        i += 1;
    }
    push_text(&mut out, "\n  ]\n}\n");
    proof {
        assert(out@ =~= world_json(program.rules@));
    }
    out
}

/// The value after the last trimmed line of `s` (from `i` on) that starts with
/// `prefix`, trimmed; `cur` when there is none.
pub open spec fn last_value(s: Seq<char>, i: int, prefix: Seq<char>, cur: Option<Seq<char>>) -> Option<
    Seq<char>,
>
    decreases s.len() - i,
{
    if i < 0 || i >= s.len() {
        cur
    } else {
        let e = line_end(s, i);
        let line = trim(s.subrange(i, e));
        let next = if line.len() > 0 && line[0] != '#' && after_prefix(line, prefix) is Some {
            Some(trim(after_prefix(line, prefix)->Some_0))
        } else {
            cur
        };
        if e < i || e >= s.len() {
            next
        } else {
            last_value(s, e + 1, prefix, next)
        }
    }
}

/// The source text of one bucket in a bucket file: its last `<name> =` line, or `[]`.
pub open spec fn bucket_source(s: Seq<char>, prefix: Seq<char>) -> Seq<char> {
    match last_value(s, 0, prefix, None) {
        Some(v) => v,
        None => "[]"@,
    }
}

/// The value after the last line of `content` that starts with `prefix`.
pub fn last_prefixed_value(content: &str, prefix: &str) -> (r: String)
    ensures
        r@ == bucket_source(content@, prefix@),
{
    let n = content.unicode_len();
    let mut cur: Option<String> = None;
    let mut i: usize = 0;
    while i < n
        invariant
            n == content@.len(),
            0 <= i <= n,
            last_value(content@, 0, prefix@, None) == last_value(content@, i as int, prefix@, opt_text(cur)),
        decreases n - i,
    {
        let mut e = i;
        while e < n && content.get_char(e) != '\n'
            invariant
                n == content@.len(),
                i <= e <= n,
                line_end(content@, i as int) == line_end(content@, e as int),
            decreases n - e,
        {
            e += 1;
        }
        let raw = substring(content, i, e);
        let line = trim_text(raw.as_str());
        if line.unicode_len() > 0 && line.get_char(0) != '#' {
            if let Some(rest) = strip_prefix(line.as_str(), prefix) {
                cur = Some(trim_text(rest.as_str()));
            }
        }
        if e == n {
            i = n;
        } else {
            i = e + 1;
        }
    }
    match cur {
        Some(v) => v,
        None => String::from_str("[]"),
    }
}

/// Reads the three buckets of a bucket file: `ra =`, `lobes =` and `sink =`
/// lines, the last of each counting; a missing one is empty.
pub fn load_buckets_text(content: &str) -> (r: Result<(Vec<Mu>, Vec<Mu>, Vec<Mu>), String>)
    ensures
        r is Ok <==> bucket_spec(bucket_source(content@, "ra ="@)) is Some && bucket_spec(
            bucket_source(content@, "lobes ="@),
        ) is Some && bucket_spec(bucket_source(content@, "sink ="@)) is Some,
        r is Ok ==> children_of(r->Ok_0.0@) == bucket_spec(bucket_source(content@, "ra ="@))->Some_0
            && children_of(r->Ok_0.1@) == bucket_spec(bucket_source(content@, "lobes ="@))->Some_0
            && children_of(r->Ok_0.2@) == bucket_spec(bucket_source(content@, "sink ="@))->Some_0,
{
    let a = last_prefixed_value(content, "ra =");
    let b = last_prefixed_value(content, "lobes =");
    let c = last_prefixed_value(content, "sink =");
    let ra = match parse_bucket(a.as_str()) {
        Ok(v) => v,
        Err(e) => return Err(e),
    };
    let lobes = match parse_bucket(b.as_str()) {
        Ok(v) => v,
        Err(e) => return Err(e),
    };
    let sink = match parse_bucket(c.as_str()) {
        Ok(v) => v,
        Err(e) => return Err(e),
    };
    Ok((ra, lobes, sink))
}

} // verus!
