use vstd::prelude::*;
use vstd::string::*;
use crate::formatter::{json_string, push_json_string};
use crate::json_value::{
    Json,
    JsonValue,
    digits_val,
    emit,
    entries_of,
    is_digit,
    json_parse,
    lemma_object_view,
    sorted_json,
};
use crate::parser::{is_ws, is_ws_char, skip_ws};
use crate::snapshot_json::{substring, trim, trim_text};
use crate::text::{decimal, digit_char, push_char, push_decimal, push_text, text_eq};

verus! {

/// The schema version a trace event must carry.
pub const TRACE_EVENT_V: i64 = 1;

/// A trace event in canonical form.
#[derive(Debug)]
pub struct CanonEvent {
    pub v: i64,
    pub event_type: String,
    pub i: i64,
    pub t: Option<String>,
    pub mu: Option<JsonValue>,
    pub meta: Option<JsonValue>,
}

/// The model of a canonical event.
pub struct CanonModel {
    pub v: int,
    pub ty: Seq<char>,
    pub i: int,
    pub t: Option<Seq<char>>,
    pub mu: Option<Json>,
    pub meta: Option<Json>,
}

pub open spec fn opt_json(o: Option<JsonValue>) -> Option<Json> {
    match o {
        Some(v) => Some(v@),
        None => None,
    }
}

pub open spec fn opt_text(o: Option<String>) -> Option<Seq<char>> {
    match o {
        Some(s) => Some(s@),
        None => None,
    }
}

impl View for CanonEvent {
    type V = CanonModel;

    open spec fn view(&self) -> CanonModel {
        CanonModel {
            v: self.v as int,
            ty: self.event_type@,
            i: self.i as int,
            t: opt_text(self.t),
            mu: opt_json(self.mu),
            meta: opt_json(self.meta),
        }
    }
}

/// The value of the first entry with key `k`.
pub open spec fn lookup(es: Seq<(Seq<char>, Json)>, k: Seq<char>, n: int) -> Option<Json>
    decreases n,
{
    if n <= 0 || n > es.len() {
        None
    } else if lookup(es, k, n - 1) is Some {
        lookup(es, k, n - 1)
    } else if es[n - 1].0 == k {
        Some(es[n - 1].1)
    } else {
        None
    }
}

pub open spec fn field(es: Seq<(Seq<char>, Json)>, k: Seq<char>) -> Option<Json> {
    lookup(es, k, es.len() as int)
}

/// Text with at least one character that is not white space.
pub open spec fn not_blank(x: Seq<char>) -> bool {
    skip_ws(x, 0) < x.len()
}

/// A canonical number text that names a non-negative integer within `i64`.
pub open spec fn index_text(t: Seq<char>) -> bool {
    &&& t.len() > 0
    &&& forall|k: int| 0 <= k < t.len() ==> is_digit(#[trigger] t[k])
    &&& digits_val(t) <= i64::MAX
}

/// The canonical form of one event, or `None` when it is invalid: an object
/// whose `v` is `1`, whose `type` is a non-blank string, whose `i` is
/// a non-negative integer, whose `t` is absent, null or a non-blank string,
/// whose `mu` is anything (deep-sorted) and whose `meta` is absent, null or an
/// object (deep-sorted).
pub open spec fn canon_spec(j: Json) -> Option<CanonModel> {
    match j {
        Json::Obj(es) => {
            let v_ok = field(es, "v"@) matches Some(Json::Num(t)) && t == seq!['1'];
            let ty_ok = field(es, "type"@) matches Some(Json::Str(x)) && not_blank(x);
            let i_ok = field(es, "i"@) matches Some(Json::Num(t)) && index_text(t);
            let t_ok = match field(es, "t"@) {
                None | Some(Json::Null) => true,
                Some(Json::Str(x)) => not_blank(x),
                _ => false,
            };
            let meta_ok = match field(es, "meta"@) {
                None | Some(Json::Null) | Some(Json::Obj(_)) => true,
                _ => false,
            };
            if v_ok && ty_ok && i_ok && t_ok && meta_ok {
                Some(
                    CanonModel {
                        v: 1,
                        ty: field(es, "type"@)->Some_0->Str_0,
                        i: digits_val(field(es, "i"@)->Some_0->Num_0) as int,
                        t: match field(es, "t"@) {
                            Some(Json::Str(x)) => Some(x),
                            _ => None,
                        },
                        mu: match field(es, "mu"@) {
                            None | Some(Json::Null) => None,
                            Some(m) => Some(sorted_json(m)),
                        },
                        meta: match field(es, "meta"@) {
                            Some(Json::Obj(m)) => Some(sorted_json(Json::Obj(m))),
                            _ => None,
                        },
                    },
                )
            } else {
                None
            }
        },
        _ => None,
    }
}

/// The value of the entry with key `k`, if any.
pub fn find_field<'a>(es: &'a Vec<(String, JsonValue)>, k: &str) -> (r: Option<&'a JsonValue>)
    ensures
        opt_json_ref(r) == field(entries_of(es@), k@),
{
    let ghost ev = entries_of(es@);
    let mut i: usize = 0;
    while i < es.len()
        invariant
            ev == entries_of(es@),
            0 <= i <= es@.len(),
            lookup(ev, k@, i as int) is None,
        decreases es.len() - i,
    {
        if text_eq(es[i].0.as_str(), k) {
            proof {
                assert(lookup(ev, k@, i + 1) == Some(es@[i as int].1@));
                lemma_lookup_stays(ev, k@, i as int + 1, ev.len() as int);
            }
            return Some(&es[i].1);
        }
        i += 1;
    }
    None
}

pub open spec fn opt_json_ref(o: Option<&JsonValue>) -> Option<Json> {
    match o {
        Some(v) => Some(v@),
        None => None,
    }
}

proof fn lemma_lookup_stays(es: Seq<(Seq<char>, Json)>, k: Seq<char>, a: int, b: int)
    requires
        1 <= a <= b <= es.len(),
        lookup(es, k, a) is Some,
    ensures
        lookup(es, k, b) == lookup(es, k, a),
    decreases b - a,
{
    if a < b {
        lemma_lookup_stays(es, k, a + 1, b);
    }
}

fn blank(x: &str) -> (r: bool)
    ensures
        r == !not_blank(x@),
{
    let n = x.unicode_len();
    let mut j: usize = 0;
    while j < n && is_ws_char(x.get_char(j))
        invariant
            n == x@.len(),
            0 <= j <= n,
            skip_ws(x@, 0) == skip_ws(x@, j as int),
        decreases n - j,
    {
        j += 1;
    }
    j == n
}

/// The value of a canonical index text, if it is one.
pub fn index_value(t: &str) -> (r: Option<i64>)
    ensures
        r is Some <==> index_text(t@),
        r is Some ==> r->Some_0 as int == digits_val(t@),
{
    let n = t.unicode_len();
    if n == 0 {
        return None;
    }
    let mut v: i64 = 0;
    let mut k: usize = 0;
    while k < n
        invariant
            n == t@.len(),
            n > 0,
            0 <= k <= n,
            forall|m: int| 0 <= m < k ==> is_digit(#[trigger] t@[m]),
            v as int == digits_val(t@.subrange(0, k as int)),
            0 <= v,
        decreases n - k,
    {
        let c = t.get_char(k);
        proof {
            assert(t@.subrange(0, k + 1).drop_last() =~= t@.subrange(0, k as int));
        }
        if !('0' <= c && c <= '9') {
            return None;
        }
        let d = (c as u32 - 48) as i64;
        if v > (i64::MAX - d) / 10 {
            proof {
                lemma_digits_prefix_bound(t@, k as int + 1);
            }
            return None;
        }
        v = v * 10 + d;
        k += 1;
    }
    proof {
        assert(t@.subrange(0, n as int) =~= t@);
    }
    Some(v)
}

proof fn lemma_digits_prefix_bound(x: Seq<char>, k: int)
    requires
        0 <= k <= x.len(),
        forall|m: int| 0 <= m < k ==> is_digit(#[trigger] x[m]),
        digits_val(x.subrange(0, k)) > i64::MAX,
    ensures
        !index_text(x),
    decreases x.len() - k,
{
    if k < x.len() && is_digit(x[k]) {
        let y = x.subrange(0, k + 1);
        assert(y.drop_last() =~= x.subrange(0, k));
        lemma_digits_prefix_bound(x, k + 1);
    } else if k == x.len() {
        assert(x.subrange(0, k) =~= x);
    }
}

fn error(msg: &str) -> (r: Result<CanonEvent, String>)
    ensures
        r is Err,
{
    Err(String::from_str(msg))
}

/// Validates one event and puts it in canonical form.
pub fn canon_event(ev: &JsonValue) -> (r: Result<CanonEvent, String>)
    ensures
        r is Ok <==> canon_spec(ev@) is Some,
        r is Ok ==> r->Ok_0@ == canon_spec(ev@)->Some_0,
{
    let es = match ev {
        JsonValue::Object(es) => es,
        _ => return error("event must be an object"),
    };
    proof {
        lemma_object_view(*es);
    }
    let ghost ev_ = entries_of(es@);
    proof {
        reveal_strlit("1");
        assert("1"@ =~= seq!['1']);
    }
    let v: i64 = match find_field(es, "v") {
        None => return error("event.v is required"),
        Some(JsonValue::Number(t)) => {
            if !text_eq(t.as_str(), "1") {
                return error("event.v must be 1");
            }
            proof {
                assert("1"@ =~= seq!['1']);
            }
            TRACE_EVENT_V
        },
        Some(_) => return error("event.v must be an integer"),
    };
    proof {
        assert("1"@ =~= seq!['1']);
    }
    let event_type = match find_field(es, "type") {
        Some(JsonValue::String(s)) => {
            if blank(s.as_str()) {
                return error("event.type must be a non-empty string");
            }
            s.clone()
        },
        _ => return error("event.type must be a non-empty string"),
    };
    let i = match find_field(es, "i") {
        Some(JsonValue::Number(t)) => match index_value(t.as_str()) {
            Some(i) => i,
            None => return error("event.i must be an integer >= 0"),
        },
        _ => return error("event.i must be an integer >= 0"),
    };
    let t = match find_field(es, "t") {
        None => None,
        Some(JsonValue::Null) => None,
        Some(JsonValue::String(s)) => {
            if blank(s.as_str()) {
                return error("event.t must be a non-empty string when provided");
            }
            Some(s.clone())
        },
        Some(_) => return error("event.t must be a string when provided"),
    };
    let meta = match find_field(es, "meta") {
        None => None,
        Some(JsonValue::Null) => None,
        Some(m) => match m {
            JsonValue::Object(_) => Some(m.deep_sorted()),
            _ => return error("event.meta must be an object when provided"),
        },
    };
    let mu = match find_field(es, "mu") {
        None => None,
        Some(JsonValue::Null) => None,
        Some(m) => Some(m.deep_sorted()),
    };
    Ok(CanonEvent { v, event_type, i, t, mu, meta })
}

/// The message of a trace whose indices are not `0..n-1` in order.
pub open spec fn contiguity_message() -> Seq<char> {
    "event.i must be contiguous 0..n-1 in-order"@
}

/// Validates a whole trace: every event is valid and the `k`-th carries index `k`.
pub fn canon_events(events: &[JsonValue]) -> (r: Result<Vec<CanonEvent>, String>)
    ensures
        r is Ok <==> (forall|k: int| 0 <= k < events@.len() ==> canon_spec(#[trigger] events@[k]@) is Some)
            && (forall|k: int| 0 <= k < events@.len() ==> (#[trigger] canon_spec(events@[k]@))->Some_0.i == k),
        r is Ok ==> r->Ok_0@.len() == events@.len() && forall|k: int|
            0 <= k < events@.len() ==> (#[trigger] r->Ok_0@[k])@ == canon_spec(events@[k]@)->Some_0,
        (forall|k: int| 0 <= k < events@.len() ==> canon_spec(#[trigger] events@[k]@) is Some) && r is Err
            ==> r->Err_0@ == contiguity_message(),
{
    let mut out: Vec<CanonEvent> = Vec::new();
    let mut k: usize = 0;
    while k < events.len()
        invariant
            0 <= k <= events@.len(),
            out@.len() == k,
            forall|m: int| 0 <= m < k ==> canon_spec(#[trigger] events@[m]@) is Some,
            forall|m: int| 0 <= m < k ==> (#[trigger] out@[m])@ == canon_spec(events@[m]@)->Some_0,
        decreases events.len() - k,
    {
        match canon_event(&events[k]) {
            Ok(e) => out.push(e),
            Err(msg) => {
                return Err(msg);
            },
        }
        k += 1;
    }
    let mut m: usize = 0;
    while m < out.len()
        invariant
            out@.len() == events@.len(),
            0 <= m <= out@.len(),
            forall|q: int| 0 <= q < events@.len() ==> canon_spec(#[trigger] events@[q]@) is Some,
            forall|q: int| 0 <= q < events@.len() ==> (#[trigger] out@[q])@ == canon_spec(events@[q]@)->Some_0,
            forall|q: int| 0 <= q < m ==> (#[trigger] canon_spec(events@[q]@))->Some_0.i == q,
        decreases out.len() - m,
    {
        if out[m].i < 0 || out[m].i as u64 != m as u64 {
            proof {
                assert(canon_spec(events@[m as int]@)->Some_0.i != m);
            }
            return Err(String::from_str("event.i must be contiguous 0..n-1 in-order"));
        }
        m += 1;
    }
    Ok(out)
}

/// The decimal text of an integer, with a minus sign when negative.
pub open spec fn int_text(x: int) -> Seq<char> {
    if x < 0 {
        seq!['-'] + decimal((-x) as nat)
    } else {
        decimal(x as nat)
    }
}

fn push_int(out: &mut String, x: i64)
    ensures
        final(out)@ == old(out)@ + int_text(x as int),
{
    if x < 0 {
        push_char(out, '-');
        let a: u64 = if x == i64::MIN {
            9223372036854775808u64
        } else {
            (-x) as u64
        };
        push_decimal(out, a);
    } else {
        push_decimal(out, x as u64);
    }
    proof {
        assert(final(out)@ =~= old(out)@ + int_text(x as int));
    }
}

/// The canonical text of an event: keys `v`, `type`, `i`, then `t`, `mu` and
/// `meta` where present.
pub open spec fn canon_text(e: CanonModel) -> Seq<char> {
    "{\"v\":"@ + int_text(e.v) + ",\"type\":"@ + json_string(e.ty) + ",\"i\":"@ + int_text(e.i) + (
    match e.t {
        Some(t) => ",\"t\":"@ + json_string(t),
        None => Seq::empty(),
    }) + (match e.mu {
        Some(m) => ",\"mu\":"@ + emit(m),
        None => Seq::empty(),
    }) + (match e.meta {
        Some(m) => ",\"meta\":"@ + emit(m),
        None => Seq::empty(),
    }) + "}"@
}

/// Serialises one canonical event with its fixed key order.
pub fn canon_event_json(ev: &CanonEvent) -> (r: String)
    ensures
        r@ == canon_text(ev@),
{
    let mut out = String::new();
    push_text(&mut out, "{\"v\":");
    push_int(&mut out, ev.v);
    push_text(&mut out, ",\"type\":");
    push_json_string(&mut out, ev.event_type.as_str());
    push_text(&mut out, ",\"i\":");
    push_int(&mut out, ev.i);
    let ghost a = out@;
    match &ev.t {
        Some(t) => {
            push_text(&mut out, ",\"t\":");
            push_json_string(&mut out, t.as_str());
        },
        None => {},
    }
    let ghost b = out@;
    match &ev.mu {
        Some(m) => {
            push_text(&mut out, ",\"mu\":");
            let text = m.to_canonical_json();
            push_text(&mut out, text.as_str());
        },
        None => {},
    }
    let ghost c = out@;
    match &ev.meta {
        Some(m) => {
            push_text(&mut out, ",\"meta\":");
            let text = m.to_canonical_json();
            push_text(&mut out, text.as_str());
        },
        None => {},
    }
    push_text(&mut out, "}");
    proof {
        assert(out@ =~= canon_text(ev@));
    }
    out
}

/// The canonical texts of the first `n` events, each followed by a newline.
pub open spec fn canon_lines(es: Seq<CanonModel>, n: int) -> Seq<char>
    decreases n,
{
    if n <= 0 || n > es.len() {
        Seq::empty()
    } else {
        canon_lines(es, n - 1) + canon_text(es[n - 1]) + seq!['\n']
    }
}

pub open spec fn models(es: Seq<CanonEvent>) -> Seq<CanonModel> {
    Seq::new(es.len(), |i: int| es[i]@)
}

/// Validates a trace and writes it as canonical JSON lines.
pub fn canon_jsonl(events: &[JsonValue]) -> (r: Result<String, String>)
    ensures
        r is Ok <==> (forall|k: int| 0 <= k < events@.len() ==> canon_spec(#[trigger] events@[k]@) is Some)
            && (forall|k: int| 0 <= k < events@.len() ==> (#[trigger] canon_spec(events@[k]@))->Some_0.i == k),
        r is Ok ==> r->Ok_0@ == canon_lines(
            Seq::new(events@.len(), |k: int| canon_spec(events@[k]@)->Some_0),
            events@.len() as int,
        ),
        (forall|k: int| 0 <= k < events@.len() ==> canon_spec(#[trigger] events@[k]@) is Some) && r is Err
            ==> r->Err_0@ == contiguity_message(),
{
    let canon = match canon_events(events) {
        Ok(c) => c,
        Err(e) => return Err(e),
    };
    let ghost ms = Seq::new(events@.len(), |k: int| canon_spec(events@[k]@)->Some_0);
    proof {
        assert(models(canon@) =~= ms);
    }
    let mut out = String::new();
    let mut k: usize = 0;
    while k < canon.len()
        invariant
            ms == models(canon@),
            0 <= k <= canon@.len(),
            out@ == canon_lines(ms, k as int),
        decreases canon.len() - k,
    {
        let line = canon_event_json(&canon[k]);
        push_text(&mut out, line.as_str());
        push_char(&mut out, '\n');
        proof {
            assert(out@ =~= canon_lines(ms, k + 1));
        }
        k += 1;
    }
    Ok(out)
}

/// The first position at or after `i` that holds a newline, or the end.
pub open spec fn line_end(s: Seq<char>, i: int) -> int
    decreases s.len() - i,
{
    if 0 <= i < s.len() && s[i] != '\n' {
        line_end(s, i + 1)
    } else {
        i
    }
}

/// The objects of the lines of `s` from `i` on, after `acc`: blank lines are
/// skipped; any other line must hold one JSON object.
pub open spec fn jsonl_from(s: Seq<char>, i: int, acc: Seq<Json>) -> Option<Seq<Json>>
    decreases s.len() - i,
{
    if i < 0 || i >= s.len() {
        Some(acc)
    } else {
        let e = line_end(s, i);
        let line = trim(s.subrange(i, e));
        let acc2 = if line.len() == 0 {
            Some(acc)
        } else {
            match json_parse(line) {
                Some(Json::Obj(es)) => Some(acc.push(Json::Obj(es))),
                _ => None,
            }
        };
        if e < i || e > s.len() || acc2 is None {
            None
        } else if e == s.len() {
            acc2
        } else {
            jsonl_from(s, e + 1, acc2->Some_0)
        }
    }
}

pub open spec fn values_of(vs: Seq<JsonValue>) -> Seq<Json> {
    Seq::new(vs.len(), |i: int| vs[i]@)
}

/// Reads JSON lines: one object per non-blank line.
pub fn read_jsonl(content: &str) -> (r: Result<Vec<JsonValue>, String>)
    ensures
        r is Ok <==> jsonl_from(content@, 0, Seq::empty()) is Some,
        r is Ok ==> values_of(r->Ok_0@) == jsonl_from(content@, 0, Seq::empty())->Some_0,
{
    let n = content.unicode_len();
    let mut events: Vec<JsonValue> = Vec::new();
    let mut i: usize = 0;
    let mut line_no: u64 = 1;
    proof {
        assert(values_of(events@) =~= Seq::<Json>::empty());
    }
    while i < n
        invariant
            n == content@.len(),
            0 <= i <= n,
            jsonl_from(content@, 0, Seq::empty()) == jsonl_from(content@, i as int, values_of(events@)),
        decreases n - i,
    {
        let mut e = i;
        while e < n && content.get_char(e) != '\n'
            invariant
                n == content@.len(),
                i <= e <= n,
                line_end(content@, i as int) == line_end(content@, e as int),
            decreases n - e,
        {
            e += 1;
        }
        let raw = substring(content, i, e);
        let line = trim_text(raw.as_str());
        if line.unicode_len() > 0 {
            match JsonValue::parse(line.as_str()) {
                Ok(v) => {
                    if let JsonValue::Object(_) = &v {
                        let ghost before = events@;
                        let ghost vv = v@;
                        events.push(v);
                        proof {
                            assert(values_of(events@) =~= values_of(before).push(vv));
                        }
                    } else {
                        let mut msg = String::new();
                        push_text(&mut msg, "line ");
                        push_decimal(&mut msg, line_no);
                        push_text(&mut msg, ": expected object/dict per line");
                        return Err(msg);
                    }
                },
                Err(err) => {
                    let mut msg = String::new();
                    push_text(&mut msg, "line ");
                    push_decimal(&mut msg, line_no);
                    push_text(&mut msg, ": invalid JSON: ");
                    push_text(&mut msg, err.as_str());
                    return Err(msg);
                },
            }
        }
        if line_no < u64::MAX {
            line_no = line_no + 1;
        }
        if e == n {
            i = n;
        } else {
            i = e + 1;
        }
    }
    Ok(events)
}

/// The canonical JSON-lines text of the events `vs`, when every event is
/// valid and the `k`-th carries index `k`.
pub open spec fn canon_events_text(vs: Seq<Json>) -> Option<Seq<char>> {
    if (forall|k: int| 0 <= k < vs.len() ==> canon_spec(#[trigger] vs[k]) is Some) && (forall|k: int|
        0 <= k < vs.len() ==> (#[trigger] canon_spec(vs[k]))->Some_0.i == k) {
        Some(canon_lines(Seq::new(vs.len(), |k: int| canon_spec(vs[k])->Some_0), vs.len() as int))
    } else {
        None
    }
}

/// The canonical JSON-lines text of a trace text.
pub open spec fn canon_trace_spec(content: Seq<char>) -> Option<Seq<char>> {
    match jsonl_from(content, 0, Seq::empty()) {
        Some(vs) => canon_events_text(vs),
        None => None,
    }
}

/// The canonical JSON-lines form of a trace text: `Err` for malformed lines,
/// invalid events or indices that are not `0..n-1` in order.
pub fn canonicalize_trace(content: &str) -> (r: Result<String, String>)
    ensures
        r is Ok <==> canon_trace_spec(content@) is Some,
        r is Ok ==> r->Ok_0@ == canon_trace_spec(content@)->Some_0,
{
    let events = match read_jsonl(content) {
        Ok(ev) => ev,
        Err(e) => return Err(e),
    };
    let ghost vs = values_of(events@);
    proof {
        assert(forall|k: int| 0 <= k < events@.len() ==> #[trigger] vs[k] == events@[k]@);
        assert(Seq::new(events@.len(), |k: int| canon_spec(events@[k]@)->Some_0) =~= Seq::new(
            vs.len(),
            |k: int| canon_spec(vs[k])->Some_0,
        ));
    }
    let r = canon_jsonl(events.as_slice());
    proof {
        let a = forall|k: int| 0 <= k < events@.len() ==> canon_spec(#[trigger] events@[k]@) is Some;
        let b = forall|k: int| 0 <= k < vs.len() ==> canon_spec(#[trigger] vs[k]) is Some;
        let c = forall|k: int| 0 <= k < events@.len() ==> (#[trigger] canon_spec(events@[k]@))->Some_0.i == k;
        let d = forall|k: int| 0 <= k < vs.len() ==> (#[trigger] canon_spec(vs[k]))->Some_0.i == k;
        if a {
            assert forall|k: int| 0 <= k < vs.len() implies canon_spec(#[trigger] vs[k]) is Some by {
                assert(vs[k] == events@[k]@);
            }
        }
        if b {
            assert forall|k: int| 0 <= k < events@.len() implies canon_spec(#[trigger] events@[k]@) is Some by {
                assert(vs[k] == events@[k]@);
            }
        }
        if c {
            assert forall|k: int| 0 <= k < vs.len() implies (#[trigger] canon_spec(vs[k]))->Some_0.i == k by {
                assert(vs[k] == events@[k]@);
            }
        }
        if d {
            assert forall|k: int| 0 <= k < events@.len() implies (#[trigger] canon_spec(events@[k]@))->Some_0.i == k by {
                assert(vs[k] == events@[k]@);
            }
        }
    }
    r
}

} // verus!

verus! {

/// The object a canonical event stands for, entries sorted by key as a parsed
/// object holds them.
pub open spec fn canon_obj(e: CanonModel) -> Json {
    Json::Obj(
        seq![("i"@, Json::Num(decimal(e.i as nat)))] + (match e.meta {
            Some(m) => seq![("meta"@, m)],
            None => Seq::empty(),
        }) + (match e.mu {
            Some(m) => seq![("mu"@, m)],
            None => Seq::empty(),
        }) + (match e.t {
            Some(t) => seq![("t"@, Json::Str(t))],
            None => Seq::empty(),
        }) + seq![("type"@, Json::Str(e.ty)), ("v"@, Json::Num(seq!['1']))],
    )
}

pub proof fn lemma_decimal_digits(n: nat)
    ensures
        decimal(n).len() > 0,
        forall|k: int| 0 <= k < decimal(n).len() ==> is_digit(#[trigger] decimal(n)[k]),
        digits_val(decimal(n)) == n,
    decreases n,
{
    let d = (n % 10) as nat;
    assert(digit_char(d) as nat == 48 + d) by {
        vstd::utf8::char_u32_cast(digit_char(d), (48 + d) as u32);
    }
    if n >= 10 {
        lemma_decimal_digits(n / 10);
        let x = decimal(n / 10);
        assert(decimal(n) == x.push(digit_char(d)));
        assert(decimal(n).drop_last() =~= x);
        assert(forall|k: int| 0 <= k < x.len() ==> decimal(n)[k] == x[k]);
        assert(digits_val(decimal(n)) == digits_val(x) * 10 + d);
        assert((n / 10) * 10 + n % 10 == n);
    } else {
        assert(decimal(n) == seq![digit_char(n)]);
        assert(decimal(n).drop_last() =~= Seq::<char>::empty());
        assert(digits_val(decimal(n)) == digits_val(Seq::<char>::empty()) * 10 + d);
    }
}

/// The fields of the object a canonical event stands for.
proof fn lemma_canon_obj_fields(e: CanonModel)
    ensures
        field(canon_obj(e)->Obj_0, "v"@) == Some(Json::Num(seq!['1'])),
        field(canon_obj(e)->Obj_0, "type"@) == Some(Json::Str(e.ty)),
        field(canon_obj(e)->Obj_0, "i"@) == Some(Json::Num(decimal(e.i as nat))),
        field(canon_obj(e)->Obj_0, "t"@) == match e.t {
            Some(t) => Some(Json::Str(t)),
            None => None,
        },
        field(canon_obj(e)->Obj_0, "mu"@) == e.mu,
        field(canon_obj(e)->Obj_0, "meta"@) == e.meta,
{
    reveal_strlit("i");
    reveal_strlit("meta");
    reveal_strlit("mu");
    reveal_strlit("t");
    reveal_strlit("type");
    reveal_strlit("v");
    assert("i"@ =~= seq!['i']);
    assert("meta"@ =~= seq!['m', 'e', 't', 'a']);
    assert("mu"@ =~= seq!['m', 'u']);
    assert("t"@ =~= seq!['t']);
    assert("type"@ =~= seq!['t', 'y', 'p', 'e']);
    assert("v"@ =~= seq!['v']);
    assert(seq!['i'][0] != seq!['v'][0]);
    assert(seq!['t'][0] != seq!['v'][0]);
    assert(seq!['i'][0] != seq!['t'][0]);
    reveal_with_fuel(lookup, 7);
    let os = canon_obj(e)->Obj_0;
    match (e.meta, e.mu, e.t) {
        (Some(ma), Some(mb), Some(tc)) => {
            assert(os =~= seq![("i"@, Json::Num(decimal(e.i as nat))), ("meta"@, ma), ("mu"@, mb), ("t"@, Json::Str(tc)), ("type"@, Json::Str(e.ty)), ("v"@, Json::Num(seq!['1']))]);
        },
        (Some(ma), Some(mb), None) => {
            assert(os =~= seq![("i"@, Json::Num(decimal(e.i as nat))), ("meta"@, ma), ("mu"@, mb), ("type"@, Json::Str(e.ty)), ("v"@, Json::Num(seq!['1']))]);
        },
        (Some(ma), None, Some(tc)) => {
            assert(os =~= seq![("i"@, Json::Num(decimal(e.i as nat))), ("meta"@, ma), ("t"@, Json::Str(tc)), ("type"@, Json::Str(e.ty)), ("v"@, Json::Num(seq!['1']))]);
        },
        (Some(ma), None, None) => {
            assert(os =~= seq![("i"@, Json::Num(decimal(e.i as nat))), ("meta"@, ma), ("type"@, Json::Str(e.ty)), ("v"@, Json::Num(seq!['1']))]);
        },
        (None, Some(mb), Some(tc)) => {
            assert(os =~= seq![("i"@, Json::Num(decimal(e.i as nat))), ("mu"@, mb), ("t"@, Json::Str(tc)), ("type"@, Json::Str(e.ty)), ("v"@, Json::Num(seq!['1']))]);
        },
        (None, Some(mb), None) => {
            assert(os =~= seq![("i"@, Json::Num(decimal(e.i as nat))), ("mu"@, mb), ("type"@, Json::Str(e.ty)), ("v"@, Json::Num(seq!['1']))]);
        },
        (None, None, Some(tc)) => {
            assert(os =~= seq![("i"@, Json::Num(decimal(e.i as nat))), ("t"@, Json::Str(tc)), ("type"@, Json::Str(e.ty)), ("v"@, Json::Num(seq!['1']))]);
        },
        (None, None, None) => {
            assert(os =~= seq![("i"@, Json::Num(decimal(e.i as nat))), ("type"@, Json::Str(e.ty)), ("v"@, Json::Num(seq!['1']))]);
        },
    }
}

/// Canonicalising the object that a canonical event stands for gives back the
/// same event.
pub proof fn law_canon_event_idempotent(j: Json)
    requires
        canon_spec(j) is Some,
    ensures
        canon_spec(canon_obj(canon_spec(j)->Some_0)) == canon_spec(j),
{
    let e = canon_spec(j)->Some_0;
    let es = j->Obj_0;
    reveal_strlit("i");
    reveal_strlit("meta");
    reveal_strlit("mu");
    reveal_strlit("t");
    reveal_strlit("type");
    reveal_strlit("v");
    assert("i"@ =~= seq!['i']);
    assert("meta"@ =~= seq!['m', 'e', 't', 'a']);
    assert("mu"@ =~= seq!['m', 'u']);
    assert("t"@ =~= seq!['t']);
    assert("type"@ =~= seq!['t', 'y', 'p', 'e']);
    assert("v"@ =~= seq!['v']);
    let o = canon_obj(e);
    let os = o->Obj_0;
    lemma_decimal_digits(e.i as nat);
    lemma_canon_obj_fields(e);
    let it = field(es, "i"@)->Some_0->Num_0;
    assert(e.i == digits_val(it));
    assert(index_text(decimal(e.i as nat)));
    if let Some(m) = field(es, "mu"@) {
        if !(m is Null) {
            crate::json_laws::law_deep_sort_idempotent(m);
            assert(!(sorted_json(m) is Null));
        }
    }
    if let Some(m) = field(es, "meta"@) {
        if m is Obj {
            crate::json_laws::law_deep_sort_idempotent(m);
        }
    }
}

} // verus!
