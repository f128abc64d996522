use vstd::prelude::*;
use vstd::string::*;
use crate::formatter::{
    events_json,
    events_view,
    json_string,
    json_terms,
    push_events_json,
    push_json_string,
    push_json_terms,
    push_render,
    render,
    mu_to_string,
};
use crate::parser::{is_ws_char, parse_mu, parse_spec, rtrim, skip_ws, is_ws};
use crate::state::RCXState;
use crate::term::{Mu, Term, children_of, opt_view};
use crate::text::{decimal, push_char, push_decimal, push_text};
use crate::types::{RcxProgram, RcxRule, RuleAction};
use crate::json_value::{Json, JsonValue, entries_of, items_of, json_parse, lemma_array_view, lemma_object_view, digits_val, is_digit};
use crate::trace_canon::{field, opt_json_ref, find_field, index_text};

verus! {

/// The text of an action: `ra`, `lobe`, `sink` or `rewrite <template>`.
pub open spec fn action_text(a: RuleAction) -> Seq<char> {
    match a {
        RuleAction::ToRa => "ra"@,
        RuleAction::ToLobe => "lobe"@,
        RuleAction::ToSink => "sink"@,
        RuleAction::Rewrite(m) => "rewrite "@ + render(m@),
    }
}

/// The text of a rule: `<pattern> -> <action>`.
pub open spec fn rule_text(r: RcxRule) -> Seq<char> {
    render(r.pattern@) + " -> "@ + action_text(r.action)
}

pub fn rule_to_string(rule: &RcxRule) -> (r: String)
    ensures
        r@ == rule_text(*rule),
{
    let mut out = String::new();
    push_render(&mut out, &rule.pattern);
    push_text(&mut out, " -> ");
    match &rule.action {
        RuleAction::ToRa => push_text(&mut out, "ra"),
        RuleAction::ToLobe => push_text(&mut out, "lobe"),
        RuleAction::ToSink => push_text(&mut out, "sink"),
        RuleAction::Rewrite(m) => {
            push_text(&mut out, "rewrite ");
            push_render(&mut out, m);
        },
    }
    proof {
        assert(out@ =~= rule_text(*rule));
    }
    out
}

/// An action as its model sees it.
pub enum ActionSpec {
    ToRa,
    ToLobe,
    ToSink,
    Rewrite(Term),
}

pub open spec fn action_view(a: RuleAction) -> ActionSpec {
    match a {
        RuleAction::ToRa => ActionSpec::ToRa,
        RuleAction::ToLobe => ActionSpec::ToLobe,
        RuleAction::ToSink => ActionSpec::ToSink,
        RuleAction::Rewrite(m) => ActionSpec::Rewrite(m@),
    }
}

/// The ASCII lowercase form of a character.
pub open spec fn lower_ascii(c: char) -> char {
    if 'A' <= c && c <= 'Z' {
        ((c as u8 + 32) as u8) as char
    } else {
        c
    }
}

/// `x` equals the lowercase word `w` ignoring ASCII case.
pub open spec fn keyword_is(x: Seq<char>, w: Seq<char>) -> bool {
    x.len() == w.len() && forall|i: int| 0 <= i < x.len() ==> lower_ascii(#[trigger] x[i]) == w[i]
}

/// `x` without surrounding white space.
pub open spec fn trim(x: Seq<char>) -> Seq<char> {
    rtrim(x.subrange(skip_ws(x, 0), x.len() as int))
}

/// The action that a rule's right-hand side spells; keywords ignore ASCII case.
pub open spec fn action_spec(rhs: Seq<char>) -> Option<ActionSpec> {
    if rhs.len() >= 8 && keyword_is(rhs.subrange(0, 8), "rewrite "@) {
        match parse_spec(rhs.subrange(7, rhs.len() as int)) {
            Some(t) => Some(ActionSpec::Rewrite(t)),
            None => None,
        }
    } else if keyword_is(rhs, "ra"@) {
        Some(ActionSpec::ToRa)
    } else if keyword_is(rhs, "lobe"@) || keyword_is(rhs, "lobes"@) {
        Some(ActionSpec::ToLobe)
    } else if keyword_is(rhs, "sink"@) {
        Some(ActionSpec::ToSink)
    } else {
        None
    }
}

/// The first position at or after `i` where `->` starts.
pub open spec fn find_arrow(s: Seq<char>, i: int) -> Option<int>
    decreases s.len() - i,
{
    if i < 0 || i + 1 >= s.len() {
        None
    } else if s[i] == '-' && s[i + 1] == '>' {
        Some(i)
    } else {
        find_arrow(s, i + 1)
    }
}

/// The rule a line spells: `<pattern> -> <action>` with exactly one arrow.
pub open spec fn rule_spec(s: Seq<char>) -> Option<(Term, ActionSpec)> {
    match find_arrow(s, 0) {
        None => None,
        Some(p) => if find_arrow(s, p + 2) is Some {
            None
        } else {
            match parse_spec(s.subrange(0, p)) {
                None => None,
                Some(t) => match action_spec(trim(s.subrange(p + 2, s.len() as int))) {
                    None => None,
                    Some(a) => Some((t, a)),
                },
            }
        },
    }
}

/// The characters of `s` from `a` to `b`.
pub fn substring(s: &str, a: usize, b: usize) -> (r: String)
    requires
        a <= b <= s@.len(),
    ensures
        r@ == s@.subrange(a as int, b as int),
{
    let mut out = String::new();
    let mut p = a;
    while p < b
        invariant
            b <= s@.len(),
            a <= p <= b,
            out@ == s@.subrange(a as int, p as int),
        decreases b - p,
    {
        push_char(&mut out, s.get_char(p));
        proof {
            assert(out@ =~= s@.subrange(a as int, p + 1));
        }
        p += 1;
    }
    out
}

/// `s` without surrounding white space.
pub fn trim_text(s: &str) -> (r: String)
    ensures
        r@ == trim(s@),
{
    let n = s.unicode_len();
    let mut a: usize = 0;
    while a < n && is_ws_char(s.get_char(a))
        invariant
            n == s@.len(),
            0 <= a <= n,
            skip_ws(s@, 0) == skip_ws(s@, a as int),
        decreases n - a,
    {
        a += 1;
    }
    let mut b: usize = n;
    let ghost x = s@.subrange(a as int, n as int);
    while b > a && is_ws_char(s.get_char(b - 1))
        invariant
            n == s@.len(),
            a <= b <= n,
            x == s@.subrange(a as int, n as int),
            rtrim(x) == rtrim(s@.subrange(a as int, b as int)),
        decreases b,
    {
        proof {
            assert(s@.subrange(a as int, b as int).drop_last() =~= s@.subrange(a as int, b - 1));
        }
        b -= 1;
    }
    substring(s, a, b)
}

/// `x` equals the lowercase word `w` ignoring ASCII case.
pub fn keyword_matches(x: &str, w: &str) -> (r: bool)
    ensures
        r == keyword_is(x@, w@),
{
    let n = x.unicode_len();
    if n != w.unicode_len() {
        return false;
    }
    let mut i: usize = 0;
    while i < n
        invariant
            n == x@.len(),
            n == w@.len(),
            0 <= i <= n,
            forall|j: int| 0 <= j < i ==> lower_ascii(#[trigger] x@[j]) == w@[j],
        decreases n - i,
    {
        let c = x.get_char(i);
        let l = if 'A' <= c && c <= 'Z' {
            ((c as u8) + 32) as char
        } else {
            c
        };
        if l != w.get_char(i) {
            return false;
        }
        i += 1;
    }
    true
}

/// Reads the action of a rule's right-hand side (already trimmed).
fn parse_action(rhs: &str) -> (r: Result<RuleAction, String>)
    ensures
        r is Ok <==> action_spec(rhs@) is Some,
        r is Ok ==> action_view(r->Ok_0) == action_spec(rhs@)->Some_0,
{
    let n = rhs.unicode_len();
    if n >= 8 {
        let head = substring(rhs, 0, 8);
        if keyword_matches(head.as_str(), "rewrite ") {
            let payload = substring(rhs, 7, n);
            return match parse_mu(payload.as_str()) {
                Ok(m) => Ok(RuleAction::Rewrite(m)),
                Err(e) => Err(e),
            };
        }
    }
    if keyword_matches(rhs, "ra") {
        Ok(RuleAction::ToRa)
    } else if keyword_matches(rhs, "lobe") || keyword_matches(rhs, "lobes") {
        Ok(RuleAction::ToLobe)
    } else if keyword_matches(rhs, "sink") {
        Ok(RuleAction::ToSink)
    } else {
        let mut msg = String::new();
        push_text(&mut msg, "unknown rule target `");
        push_text(&mut msg, rhs);
        push_text(&mut msg, "`");
        Err(msg)
    }
}

/// The first position at or after `i` where `->` starts.
pub fn find_arrow_exec(s: &str, n: usize, i: usize) -> (r: Option<usize>)
    requires
        n == s@.len(),
        i <= n,
    ensures
        match r {
            Some(p) => find_arrow(s@, i as int) == Some(p as int) && p + 1 < n,
            None => find_arrow(s@, i as int) is None,
        },
{
    let mut p = i;
    while p < n && p + 1 < n
        invariant
            n == s@.len(),
            i <= p <= n,
            find_arrow(s@, i as int) == find_arrow(s@, p as int),
        decreases n - p,
    {
        if s.get_char(p) == '-' && s.get_char(p + 1) == '>' {
            return Some(p);
        }
        p += 1;
    }
    None
}

/// Reads a rule line `<pattern> -> <action>`.
pub fn parse_rule_line(line: &str) -> (r: Result<RcxRule, String>)
    ensures
        r is Ok <==> rule_spec(line@) is Some,
        r is Ok ==> (r->Ok_0.pattern@, action_view(r->Ok_0.action)) == rule_spec(line@)->Some_0,
{
    let n = line.unicode_len();
    let p = match find_arrow_exec(line, n, 0) {
        Some(p) => p,
        None => {
            let mut msg = String::new();
            push_text(&mut msg, "bad rule line: `");
            push_text(&mut msg, line);
            push_text(&mut msg, "`");
            return Err(msg);
        },
    };
    if find_arrow_exec(line, n, p + 2).is_some() {
        let mut msg = String::new();
        push_text(&mut msg, "bad rule line: `");
        push_text(&mut msg, line);
        push_text(&mut msg, "`");
        return Err(msg);
    }
    let lhs = substring(line, 0, p);
    let pattern = match parse_mu(lhs.as_str()) {
        Ok(m) => m,
        Err(e) => return Err(e),
    };
    let rest = substring(line, p + 2, n);
    let rhs = trim_text(rest.as_str());
    match parse_action(rhs.as_str()) {
        Ok(action) => Ok(RcxRule { pattern, action }),
        Err(e) => Err(e),
    }
}

/// The rules as comma-separated JSON strings of their texts.
pub open spec fn rules_json(rs: Seq<RcxRule>, n: int) -> Seq<char>
    decreases n,
{
    if n <= 0 || n > rs.len() {
        Seq::empty()
    } else if n == 1 {
        json_string(rule_text(rs[0]))
    } else {
        rules_json(rs, n - 1) + seq![','] + json_string(rule_text(rs[n - 1]))
    }
}

/// The term in flight as JSON: its text as a string, or `null`.
pub open spec fn current_json(c: Option<Term>) -> Seq<char> {
    match c {
        Some(t) => json_string(render(t)),
        None => "null"@,
    }
}

/// The snapshot document of a world, a program and a state.
pub open spec fn snapshot_json(world: Seq<char>, rules: Seq<RcxRule>, s: RCXState) -> Seq<char> {
    "{\"schema\":"@ + json_string("rcx.snapshot.v1"@) + ",\"world\":"@ + json_string(world)
        + ",\"program\":{\"rules\":["@ + rules_json(rules, rules.len() as int)
        + "]},\"state\":{\"current\":"@ + current_json(opt_view(s.current)) + ",\"ra\":["@
        + json_terms(children_of(s.ra@), s.ra@.len() as int) + "],\"lobes\":["@ + json_terms(
        children_of(s.lobes@),
        s.lobes@.len() as int,
    ) + "],\"sink\":["@ + json_terms(children_of(s.sink@), s.sink@.len() as int)
        + "],\"step_counter\":"@ + decimal(s.step_counter as nat) + ",\"null_reg\":["@ + json_terms(
        children_of(s.null_reg@),
        s.null_reg@.len() as int,
    ) + "],\"inf_reg\":["@ + json_terms(children_of(s.inf_reg@), s.inf_reg@.len() as int)
        + "],\"trace\":["@ + events_json(events_view(s.trace@), s.trace@.len() as int) + "]}}"@
}

/// Exports a world's program and state as a snapshot document.
pub fn snapshot_to_json(world_name: &str, program: &RcxProgram, state: &RCXState) -> (r: String)
    ensures
        r@ == snapshot_json(world_name@, program.rules@, *state),
{
    let mut out = String::new();
    push_text(&mut out, "{\"schema\":");
    push_json_string(&mut out, "rcx.snapshot.v1");
    push_text(&mut out, ",\"world\":");
    push_json_string(&mut out, world_name);
    push_text(&mut out, ",\"program\":{\"rules\":[");
    let ghost mid = out@;
    let rules = &program.rules;
    let mut i: usize = 0;
    while i < rules.len()
        invariant
            rules@ == program.rules@,
            0 <= i <= rules@.len(),
            out@ == mid + rules_json(rules@, i as int),
        decreases rules.len() - i,
    {
        if i > 0 {
            push_char(&mut out, ',');
        }
        let text = rule_to_string(&rules[i]);
        push_json_string(&mut out, text.as_str());
        proof {
            assert(out@ =~= mid + rules_json(rules@, i + 1));
        }
        i += 1;
    }
    push_text(&mut out, "]},\"state\":{\"current\":");
    match &state.current {
        Some(m) => {
            let text = mu_to_string(m);
            push_json_string(&mut out, text.as_str());
        },
        None => push_text(&mut out, "null"),
    }
    push_text(&mut out, ",\"ra\":[");
    push_json_terms(&mut out, state.ra.as_slice());
    push_text(&mut out, "],\"lobes\":[");
    push_json_terms(&mut out, state.lobes.as_slice());
    push_text(&mut out, "],\"sink\":[");
    push_json_terms(&mut out, state.sink.as_slice());
    push_text(&mut out, "],\"step_counter\":");
    push_decimal(&mut out, state.step_counter as u64);
    push_text(&mut out, ",\"null_reg\":[");
    push_json_terms(&mut out, state.null_reg.as_slice());
    push_text(&mut out, "],\"inf_reg\":[");
    push_json_terms(&mut out, state.inf_reg.as_slice());
    push_text(&mut out, "],\"trace\":[");
    push_events_json(&mut out, state.trace.as_slice());
    push_text(&mut out, "]}}");
    proof {
        assert(out@ =~= snapshot_json(world_name@, program.rules@, *state));
    }
    out
}

/// The terms that an array of term texts spells.
pub open spec fn terms_spec(xs: Seq<Json>) -> Option<Seq<Term>>
    decreases xs.len(),
{
    if xs.len() == 0 {
        Some(Seq::empty())
    } else {
        match (terms_spec(xs.drop_last()), xs.last()) {
            (Some(ts), Json::Str(x)) => match parse_spec(x) {
                Some(t) => Some(ts.push(t)),
                None => None,
            },
            _ => None,
        }
    }
}

/// The rules that an array of rule texts spells.
pub open spec fn rules_spec(xs: Seq<Json>) -> Option<Seq<(Term, ActionSpec)>>
    decreases xs.len(),
{
    if xs.len() == 0 {
        Some(Seq::empty())
    } else {
        match (rules_spec(xs.drop_last()), xs.last()) {
            (Some(rs), Json::Str(x)) => match rule_spec(x) {
                Some(r) => Some(rs.push(r)),
                None => None,
            },
            _ => None,
        }
    }
}

/// The terms of the array under `key` in `es`.
pub open spec fn terms_field(es: Seq<(Seq<char>, Json)>, key: Seq<char>) -> Option<Seq<Term>> {
    match field(es, key) {
        Some(Json::Arr(xs)) => terms_spec(xs),
        _ => None,
    }
}

/// What a snapshot document holds.
pub struct SnapshotModel {
    pub rules: Seq<(Term, ActionSpec)>,
    pub current: Option<Term>,
    pub ra: Seq<Term>,
    pub lobes: Seq<Term>,
    pub sink: Seq<Term>,
    pub null_reg: Seq<Term>,
    pub inf_reg: Seq<Term>,
    pub step_counter: nat,
}

/// The snapshot a document spells: `program.rules` rule texts; `state` with
/// `current` a term text or null, five arrays of term texts and an integer
/// `step_counter`. Other fields, the log included, are not read.
pub open spec fn snapshot_spec(j: Json) -> Option<SnapshotModel> {
    match j {
        Json::Obj(top) => match (field(top, "program"@), field(top, "state"@)) {
            (Some(Json::Obj(prog)), Some(Json::Obj(st))) => {
                let rules = match field(prog, "rules"@) {
                    Some(Json::Arr(xs)) => rules_spec(xs),
                    _ => None,
                };
                let current = match field(st, "current"@) {
                    Some(Json::Null) => Some(None),
                    Some(Json::Str(x)) => match parse_spec(x) {
                        Some(t) => Some(Some(t)),
                        None => None,
                    },
                    _ => None,
                };
                let counter_ok = field(st, "step_counter"@) matches Some(Json::Num(t)) && index_text(t)
                    && digits_val(t) <= usize::MAX;
                if rules is Some && current is Some && counter_ok && terms_field(st, "ra"@) is Some
                    && terms_field(st, "lobes"@) is Some && terms_field(st, "sink"@) is Some
                    && terms_field(st, "null_reg"@) is Some && terms_field(st, "inf_reg"@) is Some {
                    Some(
                        SnapshotModel {
                            rules: rules->Some_0,
                            current: current->Some_0,
                            ra: terms_field(st, "ra"@)->Some_0,
                            lobes: terms_field(st, "lobes"@)->Some_0,
                            sink: terms_field(st, "sink"@)->Some_0,
                            null_reg: terms_field(st, "null_reg"@)->Some_0,
                            inf_reg: terms_field(st, "inf_reg"@)->Some_0,
                            step_counter: digits_val(field(st, "step_counter"@)->Some_0->Num_0),
                        },
                    )
                } else {
                    None
                }
            },
            _ => None,
        },
        _ => None,
    }
}

pub open spec fn rule_views(rs: Seq<RcxRule>) -> Seq<(Term, ActionSpec)> {
    Seq::new(rs.len(), |i: int| (rs[i].pattern@, action_view(rs[i].action)))
}

fn read_terms(v: Option<&JsonValue>) -> (r: Result<Vec<Mu>, String>)
    ensures
        r is Ok <==> (opt_json_ref(v) matches Some(Json::Arr(xs)) && terms_spec(xs) is Some),
        r is Ok ==> Some(
            children_of(r->Ok_0@),
        ) == terms_spec(opt_json_ref(v)->Some_0->Arr_0),
{
    let xs = match v {
        Some(JsonValue::Array(xs)) => xs,
        _ => return Err(String::from_str("expected an array of terms")),
    };
    proof {
        lemma_array_view(*xs);
    }
    let ghost iv = items_of(xs@);
    let mut out: Vec<Mu> = Vec::new();
    let mut i: usize = 0;
    proof {
        assert(iv.subrange(0, 0) =~= Seq::<Json>::empty());
        assert(children_of(out@) =~= Seq::<Term>::empty());
    }
    while i < xs.len()
        invariant
            iv == items_of(xs@),
            opt_json_ref(v) == Some(Json::Arr(iv)),
            0 <= i <= xs@.len(),
            terms_spec(iv.subrange(0, i as int)) == Some(children_of(out@)),
        decreases xs.len() - i,
    {
        let ghost pre = iv.subrange(0, i + 1);
        proof {
            assert(pre.drop_last() =~= iv.subrange(0, i as int));
            assert(pre.last() == xs@[i as int]@);
        }
        match &xs[i] {
            JsonValue::String(text) => match parse_mu(text.as_str()) {
                Ok(m) => {
                    let ghost before = out@;
                    out.push(m);
                    proof {
                        assert(children_of(out@) =~= children_of(before).push(out@.last()@));
                    }
                },
                Err(e) => {
                    proof {
                        lemma_terms_prefix_none(iv, i as int + 1);
                    }
                    return Err(e);
                },
            },
            _ => {
                proof {
                    lemma_terms_prefix_none(iv, i as int + 1);
                }
                return Err(String::from_str("expected a term text"));
            },
        }
        i += 1;
    }
    proof {
        assert(iv.subrange(0, xs@.len() as int) =~= iv);
    }
    Ok(out)
}

proof fn lemma_terms_prefix_none(xs: Seq<Json>, k: int)
    requires
        0 <= k <= xs.len(),
        terms_spec(xs.subrange(0, k)) is None,
    ensures
        terms_spec(xs) is None,
    decreases xs.len() - k,
{
    if k < xs.len() {
        let y = xs.subrange(0, k + 1);
        assert(y.drop_last() =~= xs.subrange(0, k));
        lemma_terms_prefix_none(xs, k + 1);
    } else {
        assert(xs.subrange(0, k) =~= xs);
    }
}

proof fn lemma_rules_prefix_none(xs: Seq<Json>, k: int)
    requires
        0 <= k <= xs.len(),
        rules_spec(xs.subrange(0, k)) is None,
    ensures
        rules_spec(xs) is None,
    decreases xs.len() - k,
{
    if k < xs.len() {
        let y = xs.subrange(0, k + 1);
        assert(y.drop_last() =~= xs.subrange(0, k));
        lemma_rules_prefix_none(xs, k + 1);
    } else {
        assert(xs.subrange(0, k) =~= xs);
    }
}

fn read_rules(v: Option<&JsonValue>) -> (r: Result<Vec<RcxRule>, String>)
    ensures
        r is Ok <==> (opt_json_ref(v) matches Some(Json::Arr(xs)) && rules_spec(xs) is Some),
        r is Ok ==> Some(rule_views(r->Ok_0@)) == rules_spec(opt_json_ref(v)->Some_0->Arr_0),
{
    let xs = match v {
        Some(JsonValue::Array(xs)) => xs,
        _ => return Err(String::from_str("expected an array of rules")),
    };
    proof {
        lemma_array_view(*xs);
    }
    let ghost iv = items_of(xs@);
    let mut out: Vec<RcxRule> = Vec::new();
    let mut i: usize = 0;
    proof {
        assert(iv.subrange(0, 0) =~= Seq::<Json>::empty());
        assert(rule_views(out@) =~= Seq::<(Term, ActionSpec)>::empty());
    }
    while i < xs.len()
        invariant
            iv == items_of(xs@),
            opt_json_ref(v) == Some(Json::Arr(iv)),
            0 <= i <= xs@.len(),
            rules_spec(iv.subrange(0, i as int)) == Some(rule_views(out@)),
        decreases xs.len() - i,
    {
        let ghost pre = iv.subrange(0, i + 1);
        proof {
            assert(pre.drop_last() =~= iv.subrange(0, i as int));
            assert(pre.last() == xs@[i as int]@);
        }
        match &xs[i] {
            JsonValue::String(text) => match parse_rule_line(text.as_str()) {
                Ok(rule) => {
                    let ghost before = out@;
                    out.push(rule);
                    proof {
                        assert(rule_views(out@) =~= rule_views(before).push(
                            (out@.last().pattern@, action_view(out@.last().action)),
                        ));
                    }
                },
                Err(e) => {
                    proof {
                        lemma_rules_prefix_none(iv, i as int + 1);
                    }
                    return Err(e);
                },
            },
            _ => {
                proof {
                    lemma_rules_prefix_none(iv, i as int + 1);
                }
                return Err(String::from_str("expected a rule text"));
            },
        }
        i += 1;
    }
    proof {
        assert(iv.subrange(0, xs@.len() as int) =~= iv);
    }
    Ok(out)
}

fn read_counter(v: Option<&JsonValue>) -> (r: Result<usize, String>)
    ensures
        r is Ok <==> (opt_json_ref(v) matches Some(Json::Num(t)) && index_text(t) && digits_val(t)
            <= usize::MAX),
        r is Ok ==> r->Ok_0 as nat == digits_val(opt_json_ref(v)->Some_0->Num_0),
{
    match v {
        Some(JsonValue::Number(t)) => match crate::trace_canon::index_value(t.as_str()) {
            Some(x) => {
                if x as u64 > usize::MAX as u64 {
                    return Err(String::from_str("step_counter out of range"));
                }
                Ok(x as usize)
            },
            None => Err(String::from_str("step_counter must be an integer >= 0")),
        },
        _ => Err(String::from_str("step_counter must be an integer >= 0")),
    }
}

/// Loads a snapshot document. The log is not restored: the state comes back
/// with an empty trace. The world name returned is the one supplied.
pub fn snapshot_from_json(world_name: &str, json: &str) -> (r: Result<(String, RcxProgram, RCXState), String>)
    ensures
        r is Ok <==> json_parse(json@) is Some && snapshot_spec(json_parse(json@)->Some_0) is Some,
        r is Ok ==> {
            let (w, p, s) = r->Ok_0;
            let m = snapshot_spec(json_parse(json@)->Some_0)->Some_0;
            &&& w@ == world_name@
            &&& rule_views(p.rules@) == m.rules
            &&& opt_view(s.current) == m.current
            &&& children_of(s.ra@) == m.ra
            &&& children_of(s.lobes@) == m.lobes
            &&& children_of(s.sink@) == m.sink
            &&& children_of(s.null_reg@) == m.null_reg
            &&& children_of(s.inf_reg@) == m.inf_reg
            &&& s.step_counter as nat == m.step_counter
            &&& s.trace@.len() == 0
        },
{
    let doc = match JsonValue::parse(json) {
        Ok(d) => d,
        Err(e) => return Err(e),
    };
    let top = match &doc {
        JsonValue::Object(top) => top,
        _ => return Err(String::from_str("snapshot must be an object")),
    };
    proof {
        lemma_object_view(*top);
    }
    let prog = match find_field(top, "program") {
        Some(JsonValue::Object(p)) => p,
        _ => return Err(String::from_str("missing program")),
    };
    let st = match find_field(top, "state") {
        Some(JsonValue::Object(s)) => s,
        _ => return Err(String::from_str("missing state")),
    };
    proof {
        lemma_object_view(*prog);
        lemma_object_view(*st);
    }
    let rules = match read_rules(find_field(prog, "rules")) {
        Ok(r) => r,
        Err(e) => return Err(e),
    };
    let current = match find_field(st, "current") {
        Some(JsonValue::Null) => None,
        Some(JsonValue::String(x)) => match parse_mu(x.as_str()) {
            Ok(m) => Some(m),
            Err(e) => return Err(e),
        },
        _ => return Err(String::from_str("current must be a term text or null")),
    };
    let step_counter = match read_counter(find_field(st, "step_counter")) {
        Ok(c) => c,
        Err(e) => return Err(e),
    };
    let ra = match read_terms(find_field(st, "ra")) {
        Ok(v) => v,
        Err(e) => return Err(e),
    };
    let lobes = match read_terms(find_field(st, "lobes")) {
        Ok(v) => v,
        Err(e) => return Err(e),
    };
    let sink = match read_terms(find_field(st, "sink")) {
        Ok(v) => v,
        Err(e) => return Err(e),
    };
    let null_reg = match read_terms(find_field(st, "null_reg")) {
        Ok(v) => v,
        Err(e) => return Err(e),
    };
    let inf_reg = match read_terms(find_field(st, "inf_reg")) {
        Ok(v) => v,
        Err(e) => return Err(e),
    };
    let state = RCXState {
        current,
        ra,
        lobes,
        sink,
        null_reg,
        inf_reg,
        trace: Vec::new(),
        step_counter,
    };
    Ok((String::from_str(world_name), RcxProgram { rules }, state))
}

} // verus!
