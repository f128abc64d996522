use vstd::prelude::*;
use vstd::string::*;
use crate::term::{Mu, Term, children_of, lemma_node_view};
use crate::text::{decimal, digit_char, push_char, push_decimal, push_text};
use crate::trace::{RouteKind, TraceEvent};

verus! {

/// The text of a term: a symbol is its name, a node is `[a,b,...]`.
pub open spec fn render(t: Term) -> Seq<char>
    decreases t, 0int,
{
    match t {
        Term::Sym(s) => s,
        Term::Node(cs) => seq!['['] + render_list(cs, cs.len() as int) + seq![']'],
    }
}

/// The texts of the first `n` terms of `cs`, separated by commas.
pub open spec fn render_list(cs: Seq<Term>, n: int) -> Seq<char>
    decreases cs, n,
{
    if n <= 0 || n > cs.len() {
        Seq::empty()
    } else if n == 1 {
        render(cs[0])
    } else {
        render_list(cs, n - 1) + seq![','] + render(cs[n - 1])
    }
}

/// Appends the text of `mu`.
pub fn push_render(out: &mut String, mu: &Mu)
    ensures
        final(out)@ == old(out)@ + render(mu@),
    decreases mu,
{
    match mu {
        Mu::Sym(s) => push_text(out, s.as_str()),
        Mu::Node(cs) => {
            proof {
                lemma_node_view(*cs);
                assert(decreases_to!(*mu => *cs));
            }
            let ghost tv = children_of(cs@);
            let ghost start = out@;
            push_char(out, '[');
            let mut i: usize = 0;
            while i < cs.len()
                invariant
                    decreases_to!(*mu => *cs),
                    tv == children_of(cs@),
                    0 <= i <= cs.len(),
                    out@ == start + seq!['['] + render_list(tv, i as int),
                decreases cs.len() - i,
            {
                proof {
                    assert(decreases_to!(*cs => cs[i as int]));
                }
                if i > 0 {
                    push_char(out, ',');
                }
                push_render(out, &cs[i]);
                proof {
                    assert(out@ =~= start + seq!['['] + render_list(tv, i + 1));
                }
                i += 1;
            }
            push_char(out, ']');
            proof {
                assert(out@ =~= start + render(mu@));
            }
        },
    }
}

/// The text of a term.
pub fn mu_to_string(mu: &Mu) -> (r: String)
    ensures
        r@ == render(mu@),
{
    let mut out = String::new();
    push_render(&mut out, mu);
    proof {
        assert(out@ =~= render(mu@));
    }
    out
}

/// The texts of the first `n` terms of `cs`, separated by `", "`.
pub open spec fn bucket_list(cs: Seq<Term>, n: int) -> Seq<char>
    decreases n,
{
    if n <= 0 || n > cs.len() {
        Seq::empty()
    } else if n == 1 {
        render(cs[0])
    } else {
        bucket_list(cs, n - 1) + seq![',', ' '] + render(cs[n - 1])
    }
}

/// The text of a bucket: `[a, b, ...]`, or `[]` when empty.
pub fn bucket_to_string(bucket: &[Mu]) -> (r: String)
    ensures
        r@ == seq!['['] + bucket_list(children_of(bucket@), bucket@.len() as int) + seq![']'],
{
    let ghost tv = children_of(bucket@);
    let mut out = String::new();
    push_char(&mut out, '[');
    let mut i: usize = 0;
    while i < bucket.len()
        invariant
            tv == children_of(bucket@),
            0 <= i <= bucket@.len(),
            out@ == seq!['['] + bucket_list(tv, i as int),
        decreases bucket.len() - i,
    {
        if i > 0 {
            push_char(&mut out, ',');
            push_char(&mut out, ' ');
        }
        push_render(&mut out, &bucket[i]);
        proof {
            assert(out@ =~= seq!['['] + bucket_list(tv, i + 1));
        }
        i += 1;
    }
    push_char(&mut out, ']');
    out
}

/// Control characters (general category Cc).
pub open spec fn is_control(c: char) -> bool {
    (c as u32) <= 0x1f || (0x7f <= (c as u32) && (c as u32) <= 0x9f)
}

/// The lowercase hexadecimal digit for `d < 16`.
pub open spec fn hex_char(d: nat) -> char {
    if d < 10 {
        digit_char(d)
    } else {
        ((87 + d) as u8) as char
    }
}

/// How one character is written inside a JSON string.
pub open spec fn escape_char(c: char) -> Seq<char> {
    if c == '"' {
        seq!['\\', '"']
    } else if c == '\\' {
        seq!['\\', '\\']
    } else if c == '\n' {
        seq!['\\', 'n']
    } else if c == '\r' {
        seq!['\\', 'r']
    } else if c == '\t' {
        seq!['\\', 't']
    } else if is_control(c) {
        let n = c as u32 as nat;
        seq!['\\', 'u', '0', '0', hex_char(n / 16), hex_char(n % 16)]
    } else {
        seq![c]
    }
}

/// The escaped form of the characters of `s`.
pub open spec fn escape_body(s: Seq<char>) -> Seq<char>
    decreases s.len(),
{
    if s.len() == 0 {
        Seq::empty()
    } else {
        escape_body(s.drop_last()) + escape_char(s.last())
    }
}

/// `s` as a quoted JSON string.
pub open spec fn json_string(s: Seq<char>) -> Seq<char> {
    seq!['"'] + escape_body(s) + seq!['"']
}

/// Appends the escaped form of `c`.
fn push_escaped_char(out: &mut String, c: char)
    ensures
        final(out)@ == old(out)@ + escape_char(c),
{
    if c == '"' {
        push_char(out, '\\');
        push_char(out, '"');
    } else if c == '\\' {
        push_char(out, '\\');
        push_char(out, '\\');
    } else if c == '\n' {
        push_char(out, '\\');
        push_char(out, 'n');
    } else if c == '\r' {
        push_char(out, '\\');
        push_char(out, 'r');
    } else if c == '\t' {
        push_char(out, '\\');
        push_char(out, 't');
    } else if (c as u32) <= 0x1f || (0x7f <= (c as u32) && (c as u32) <= 0x9f) {
        let n = c as u32;
        let hi = (n / 16) as u8;
        let lo = (n % 16) as u8;
        push_char(out, '\\');
        push_char(out, 'u');
        push_char(out, '0');
        push_char(out, '0');
        push_char(out, if hi < 10 { (48 + hi) as char } else { (87 + hi) as char });
        push_char(out, if lo < 10 { (48 + lo) as char } else { (87 + lo) as char });
    } else {
        push_char(out, c);
    }
    proof {
        assert(final(out)@ =~= old(out)@ + escape_char(c));
    }
}

/// Appends `s` as a quoted JSON string.
pub fn push_json_string(out: &mut String, s: &str)
    ensures
        final(out)@ == old(out)@ + json_string(s@),
{
    let ghost start = out@;
    push_char(out, '"');
    let n = s.unicode_len();
    let mut i: usize = 0;
    while i < n
        invariant
            n == s@.len(),
            0 <= i <= n,
            out@ == start + seq!['"'] + escape_body(s@.subrange(0, i as int)),
        decreases n - i,
    {
        let c = s.get_char(i);
        push_escaped_char(out, c);
        proof {
            assert(s@.subrange(0, i + 1).drop_last() =~= s@.subrange(0, i as int));
            assert(out@ =~= start + seq!['"'] + escape_body(s@.subrange(0, i + 1)));
        }
        i += 1;
    }
    push_char(out, '"');
    proof {
        assert(s@.subrange(0, n as int) =~= s@);
        assert(out@ =~= start + json_string(s@));
    }
}

/// `s` as a quoted JSON string.
pub fn json_escape(s: &str) -> (r: String)
    ensures
        r@ == json_string(s@),
{
    let mut out = String::new();
    push_json_string(&mut out, s);
    proof {
        assert(out@ =~= json_string(s@));
    }
    out
}

/// The first `n` terms of `cs` as JSON strings of their texts, comma-separated.
pub open spec fn json_terms(cs: Seq<Term>, n: int) -> Seq<char>
    decreases n,
{
    if n <= 0 || n > cs.len() {
        Seq::empty()
    } else if n == 1 {
        json_string(render(cs[0]))
    } else {
        json_terms(cs, n - 1) + seq![','] + json_string(render(cs[n - 1]))
    }
}

/// Appends the terms of `v` as comma-separated JSON strings.
pub fn push_json_terms(out: &mut String, v: &[Mu])
    ensures
        final(out)@ == old(out)@ + json_terms(children_of(v@), v@.len() as int),
{
    let ghost start = out@;
    let ghost tv = children_of(v@);
    let mut i: usize = 0;
    while i < v.len()
        invariant
            tv == children_of(v@),
            0 <= i <= v@.len(),
            out@ == start + json_terms(tv, i as int),
        decreases v.len() - i,
    {
        if i > 0 {
            push_char(out, ',');
        }
        let text = mu_to_string(&v[i]);
        push_json_string(out, text.as_str());
        proof {
            assert(out@ =~= start + json_terms(tv, i + 1));
        }
        i += 1;
    }
}

/// The lowercase name of a route.
pub open spec fn route_name(r: RouteKind) -> Seq<char> {
    match r {
        RouteKind::Ra => "ra"@,
        RouteKind::Lobe => "lobe"@,
        RouteKind::Sink => "sink"@,
        RouteKind::Rewrite => "rewrite"@,
        RouteKind::StructuralFallback => "structural"@,
    }
}

/// The lowercase name of a route.
pub fn route_to_string(r: RouteKind) -> (s: &'static str)
    ensures
        s@ == route_name(r),
{
    match r {
        RouteKind::Ra => "ra",
        RouteKind::Lobe => "lobe",
        RouteKind::Sink => "sink",
        RouteKind::Rewrite => "rewrite",
        RouteKind::StructuralFallback => "structural",
    }
}

/// A trace event as its model sees it.
pub struct EventView {
    pub step: nat,
    pub phase: Seq<char>,
    pub route: RouteKind,
    pub payload: Term,
}

pub open spec fn event_view(e: TraceEvent) -> EventView {
    EventView { step: e.step_index as nat, phase: e.phase@, route: e.route, payload: e.payload@ }
}

pub open spec fn events_view(es: Seq<TraceEvent>) -> Seq<EventView> {
    Seq::new(es.len(), |i: int| event_view(es[i]))
}

/// `{"step":..,"phase":..,"route":..,"payload":..}` for one event.
pub open spec fn event_json(e: EventView) -> Seq<char> {
    "{\"step\":"@ + decimal(e.step) + ",\"phase\":"@ + json_string(e.phase) + ",\"route\":"@
        + json_string(route_name(e.route)) + ",\"payload\":"@ + json_string(render(e.payload))
        + "}"@
}

/// The first `n` events as comma-separated JSON objects.
pub open spec fn events_json(es: Seq<EventView>, n: int) -> Seq<char>
    decreases n,
{
    if n <= 0 || n > es.len() {
        Seq::empty()
    } else if n == 1 {
        event_json(es[0])
    } else {
        events_json(es, n - 1) + seq![','] + event_json(es[n - 1])
    }
}

/// Appends one event as a JSON object.
fn push_event_json(out: &mut String, e: &TraceEvent)
    ensures
        final(out)@ == old(out)@ + event_json(event_view(*e)),
{
    let ghost start = out@;
    push_text(out, "{\"step\":");
    push_decimal(out, e.step_index as u64);
    push_text(out, ",\"phase\":");
    push_json_string(out, e.phase.as_str());
    push_text(out, ",\"route\":");
    push_json_string(out, route_to_string(e.route));
    push_text(out, ",\"payload\":");
    let text = mu_to_string(&e.payload);
    push_json_string(out, text.as_str());
    push_text(out, "}");
    proof {
        assert(out@ =~= start + event_json(event_view(*e)));
    }
}

/// Appends the events of `es` as comma-separated JSON objects.
pub fn push_events_json(out: &mut String, es: &[TraceEvent])
    ensures
        final(out)@ == old(out)@ + events_json(events_view(es@), es@.len() as int),
{
    let ghost start = out@;
    let ghost ev = events_view(es@);
    let mut i: usize = 0;
    while i < es.len()
        invariant
            ev == events_view(es@),
            0 <= i <= es@.len(),
            out@ == start + events_json(ev, i as int),
        decreases es.len() - i,
    {
        if i > 0 {
            push_char(out, ',');
        }
        let e = &es[i];
        push_event_json(out, e);
        proof {
            assert(ev[i as int] == event_view(*e));
            assert(out@ =~= start + events_json(ev, i + 1));
        }
        i += 1;
    }
}

} // verus!
