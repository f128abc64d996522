use vstd::prelude::*;
use vstd::string::*;
use crate::formatter::{json_string, push_json_string};
use crate::parser::{is_ws, is_ws_char, skip_ws};
use crate::text::{push_char, push_text, text_eq};

verus! {

/// A JSON value. A number is held as its canonical decimal text (see
/// `canon_number`); an object's entries are sorted by key, keys unique.
#[derive(Debug)]
pub enum JsonValue {
    Null,
    Bool(bool),
    Number(String),
    String(String),
    Array(Vec<JsonValue>),
    Object(Vec<(String, JsonValue)>),
}

/// The model of a JSON value.
pub enum Json {
    Null,
    Bool(bool),
    Num(Seq<char>),
    Str(Seq<char>),
    Arr(Seq<Json>),
    Obj(Seq<(Seq<char>, Json)>),
}

pub open spec fn json_of(v: JsonValue) -> Json
    decreases v,
{
    match v {
        JsonValue::Null => Json::Null,
        JsonValue::Bool(b) => Json::Bool(b),
        JsonValue::Number(t) => Json::Num(t@),
        JsonValue::String(s) => Json::Str(s@),
        JsonValue::Array(xs) => Json::Arr(
            Seq::new(
                xs@.len(),
                |i: int|
                    if 0 <= i < xs@.len() {
                        json_of(xs@[i])
                    } else {
                        Json::Null
                    },
            ),
        ),
        JsonValue::Object(es) => Json::Obj(
            Seq::new(
                es@.len(),
                |i: int|
                    if 0 <= i < es@.len() {
                        (es@[i].0@, json_of(es@[i].1))
                    } else {
                        (Seq::empty(), Json::Null)
                    },
            ),
        ),
    }
}

impl View for JsonValue {
    type V = Json;

    open spec fn view(&self) -> Json {
        json_of(*self)
    }
}

pub open spec fn items_of(xs: Seq<JsonValue>) -> Seq<Json> {
    Seq::new(xs.len(), |i: int| xs[i]@)
}

pub open spec fn entries_of(es: Seq<(String, JsonValue)>) -> Seq<(Seq<char>, Json)> {
    Seq::new(es.len(), |i: int| (es[i].0@, es[i].1@))
}

pub proof fn lemma_array_view(xs: Vec<JsonValue>)
    ensures
        JsonValue::Array(xs)@ == Json::Arr(items_of(xs@)),
{
    let v = JsonValue::Array(xs);
    assert(v@ == json_of(v));
    assert(json_of(v)->Arr_0 =~= items_of(xs@));
}

pub proof fn lemma_object_view(es: Vec<(String, JsonValue)>)
    ensures
        JsonValue::Object(es)@ == Json::Obj(entries_of(es@)),
{
    let v = JsonValue::Object(es);
    assert(v@ == json_of(v));
    assert(json_of(v)->Obj_0 =~= entries_of(es@));
}

/// Structural equality of two JSON values.
pub fn json_eq(a: &JsonValue, b: &JsonValue) -> (r: bool)
    ensures
        r == (a@ == b@),
    decreases a,
{
    match a {
        JsonValue::Null => match b {
            JsonValue::Null => true,
            _ => false,
        },
        JsonValue::Bool(x) => match b {
            JsonValue::Bool(y) => *x == *y,
            _ => false,
        },
        JsonValue::Number(x) => match b {
            JsonValue::Number(y) => x.eq(y),
            _ => false,
        },
        JsonValue::String(x) => match b {
            JsonValue::String(y) => x.eq(y),
            _ => false,
        },
        JsonValue::Array(xs) => {
            let ys = match b {
                JsonValue::Array(ys) => ys,
                _ => return false,
            };
            proof {
                lemma_array_view(*xs);
                lemma_array_view(*ys);
                assert(decreases_to!(*a => *xs));
            }
            if xs.len() != ys.len() {
                proof {
                    assert(items_of(xs@).len() != items_of(ys@).len());
                }
                return false;
            }
            let mut i: usize = 0;
            while i < xs.len()
                invariant
                    decreases_to!(*a => *xs),
                    a@ == Json::Arr(items_of(xs@)),
                    b@ == Json::Arr(items_of(ys@)),
                    xs.len() == ys.len(),
                    0 <= i <= xs.len(),
                    forall|j: int| 0 <= j < i ==> xs@[j]@ == ys@[j]@,
                decreases xs.len() - i,
            {
                proof {
                    assert(decreases_to!(*xs => xs[i as int]));
                }
                if !json_eq(&xs[i], &ys[i]) {
                    proof {
                        assert(items_of(xs@)[i as int] != items_of(ys@)[i as int]);
                    }
                    return false;
                }
                i += 1;
            }
            proof {
                assert(items_of(xs@) =~= items_of(ys@));
            }
            true
        },
        JsonValue::Object(xs) => {
            let ys = match b {
                JsonValue::Object(ys) => ys,
                _ => return false,
            };
            proof {
                lemma_object_view(*xs);
                lemma_object_view(*ys);
                assert(decreases_to!(*a => *xs));
            }
            if xs.len() != ys.len() {
                proof {
                    assert(entries_of(xs@).len() != entries_of(ys@).len());
                }
                return false;
            }
            let mut i: usize = 0;
            while i < xs.len()
                invariant
                    decreases_to!(*a => *xs),
                    a@ == Json::Obj(entries_of(xs@)),
                    b@ == Json::Obj(entries_of(ys@)),
                    xs.len() == ys.len(),
                    0 <= i <= xs.len(),
                    forall|j: int| 0 <= j < i ==> xs@[j].0@ == ys@[j].0@ && xs@[j].1@ == ys@[j].1@,
                decreases xs.len() - i,
            {
                proof {
                    assert(decreases_to!(*xs => xs[i as int]));
                    assert(decreases_to!(xs[i as int] => xs[i as int].1));
                }
                if !xs[i].0.eq(&ys[i].0) || !json_eq(&xs[i].1, &ys[i].1) {
                    proof {
                        assert(entries_of(xs@)[i as int] != entries_of(ys@)[i as int]);
                    }
                    return false;
                }
                i += 1;
            }
            proof {
                assert(entries_of(xs@) =~= entries_of(ys@));
            }
            true
        },
    }
}

impl PartialEq for JsonValue {
    fn eq(&self, other: &JsonValue) -> (r: bool) {
        json_eq(self, other)
    }
}

impl vstd::std_specs::cmp::PartialEqSpecImpl for JsonValue {
    open spec fn obeys_eq_spec() -> bool {
        true
    }

    open spec fn eq_spec(&self, other: &JsonValue) -> bool {
        self@ == other@
    }
}

// ----- canonical emission -----

/// Compact JSON text: entries in the order held, no white space.
pub open spec fn emit(j: Json) -> Seq<char>
    decreases j, 0int,
{
    match j {
        Json::Null => "null"@,
        Json::Bool(b) => if b {
            "true"@
        } else {
            "false"@
        },
        Json::Num(t) => t,
        Json::Str(s) => json_string(s),
        Json::Arr(xs) => seq!['['] + emit_items(xs, xs.len() as int) + seq![']'],
        Json::Obj(es) => seq!['{'] + emit_entries(es, es.len() as int) + seq!['}'],
    }
}

pub open spec fn emit_items(xs: Seq<Json>, n: int) -> Seq<char>
    decreases xs, n,
{
    if n <= 0 || n > xs.len() {
        Seq::empty()
    } else if n == 1 {
        emit(xs[0])
    } else {
        emit_items(xs, n - 1) + seq![','] + emit(xs[n - 1])
    }
}

pub open spec fn emit_entry(e: (Seq<char>, Json)) -> Seq<char>
    decreases e, 0int,
{
    json_string(e.0) + seq![':'] + emit(e.1)
}

pub open spec fn emit_entries(es: Seq<(Seq<char>, Json)>, n: int) -> Seq<char>
    decreases es, n,
{
    if n <= 0 || n > es.len() {
        Seq::empty()
    } else if n == 1 {
        emit_entry(es[0])
    } else {
        emit_entries(es, n - 1) + seq![','] + emit_entry(es[n - 1])
    }
}

fn push_emit(out: &mut String, v: &JsonValue)
    ensures
        final(out)@ == old(out)@ + emit(v@),
    decreases v,
{
    let ghost start = out@;
    match v {
        JsonValue::Null => push_text(out, "null"),
        JsonValue::Bool(b) => if *b {
            push_text(out, "true")
        } else {
            push_text(out, "false")
        },
        JsonValue::Number(t) => push_text(out, t.as_str()),
        JsonValue::String(s) => push_json_string(out, s.as_str()),
        JsonValue::Array(xs) => {
            proof {
                lemma_array_view(*xs);
                assert(decreases_to!(*v => *xs));
            }
            let ghost iv = items_of(xs@);
            push_char(out, '[');
            let mut i: usize = 0;
            while i < xs.len()
                invariant
                    decreases_to!(*v => *xs),
                    iv == items_of(xs@),
                    0 <= i <= xs@.len(),
                    out@ == start + seq!['['] + emit_items(iv, i as int),
                decreases xs.len() - i,
            {
                proof {
                    assert(decreases_to!(*xs => xs[i as int]));
                }
                if i > 0 {
                    push_char(out, ',');
                }
                push_emit(out, &xs[i]);
                proof {
                    assert(out@ =~= start + seq!['['] + emit_items(iv, i + 1));
                }
                i += 1;
            }
            push_char(out, ']');
            proof {
                assert(out@ =~= start + emit(v@));
            }
        },
        JsonValue::Object(es) => {
            proof {
                lemma_object_view(*es);
                assert(decreases_to!(*v => *es));
            }
            let ghost ev = entries_of(es@);
            push_char(out, '{');
            let mut i: usize = 0;
            while i < es.len()
                invariant
                    decreases_to!(*v => *es),
                    ev == entries_of(es@),
                    0 <= i <= es@.len(),
                    out@ == start + seq!['{'] + emit_entries(ev, i as int),
                decreases es.len() - i,
            {
                proof {
                    assert(decreases_to!(*es => es[i as int]));
                    assert(decreases_to!(es[i as int] => es[i as int].1));
                }
                if i > 0 {
                    push_char(out, ',');
                }
                push_json_string(out, es[i].0.as_str());
                push_char(out, ':');
                push_emit(out, &es[i].1);
                proof {
                    let e = ev[i as int];
                    assert(e == (es@[i as int].0@, es@[i as int].1@));
                    assert(emit_entry(e) == json_string(e.0) + seq![':'] + emit(e.1));
                    assert(out@ =~= start + seq!['{'] + emit_entries(ev, i + 1));
                }
                i += 1;
            }
            push_char(out, '}');
            proof {
                assert(out@ =~= start + emit(v@));
            }
        },
    }
    proof {
        assert(out@ =~= start + emit(v@));
    }
}

impl JsonValue {
    /// Compact JSON text of this value, entries in the order held.
    pub fn to_canonical_json(&self) -> (r: String)
        ensures
            r@ == emit(self@),
    {
        let mut out = String::new();
        push_emit(&mut out, self);
        proof {
            assert(out@ =~= emit(self@));
        }
        out
    }
}

// ----- key order -----

/// Lexicographic order of keys by character code, compared from position `i`.
pub open spec fn key_lt_from(a: Seq<char>, b: Seq<char>, i: int) -> bool
    decreases a.len() - i,
{
    if i < 0 || i >= a.len() {
        0 <= i < b.len()
    } else if i >= b.len() {
        false
    } else if a[i] != b[i] {
        a[i] < b[i]
    } else {
        key_lt_from(a, b, i + 1)
    }
}

pub open spec fn key_lt(a: Seq<char>, b: Seq<char>) -> bool {
    key_lt_from(a, b, 0)
}

fn key_less(a: &str, b: &str) -> (r: bool)
    ensures
        r == key_lt(a@, b@),
{
    let n = a.unicode_len();
    let m = b.unicode_len();
    let mut i: usize = 0;
    while i < n && i < m
        invariant
            n == a@.len(),
            m == b@.len(),
            0 <= i <= n,
            i <= m,
            key_lt(a@, b@) == key_lt_from(a@, b@, i as int),
        decreases n - i,
    {
        let x = a.get_char(i);
        let y = b.get_char(i);
        if x != y {
            return x < y;
        }
        i += 1;
    }
    i < m
}

/// Where key `k` belongs among sorted entries, searching from `i`.
pub open spec fn key_pos(es: Seq<(Seq<char>, Json)>, k: Seq<char>, i: int) -> int
    decreases es.len() - i,
{
    if i < 0 || i >= es.len() || !key_lt(es[i].0, k) {
        i
    } else {
        key_pos(es, k, i + 1)
    }
}

/// Sorted entries with `(k, v)` put in: an entry with key `k` gets value `v`,
/// else the entry goes before the first larger key.
pub open spec fn insert_key(es: Seq<(Seq<char>, Json)>, k: Seq<char>, v: Json) -> Seq<(Seq<char>, Json)> {
    let p = key_pos(es, k, 0);
    if 0 <= p < es.len() && es[p].0 == k {
        es.update(p, (k, v))
    } else if 0 <= p <= es.len() {
        es.insert(p, (k, v))
    } else {
        es
    }
}

proof fn lemma_key_pos(es: Seq<(Seq<char>, Json)>, k: Seq<char>, i: int)
    requires
        0 <= i <= es.len(),
    ensures
        i <= key_pos(es, k, i) <= es.len(),
    decreases es.len() - i,
{
    if i < es.len() && key_lt(es[i].0, k) {
        lemma_key_pos(es, k, i + 1);
    }
}

/// Puts `(k, v)` into entries kept sorted by key with unique keys.
fn insert_entry(es: &mut Vec<(String, JsonValue)>, k: String, v: JsonValue)
    ensures
        entries_of(final(es)@) == insert_key(entries_of(old(es)@), k@, v@),
{
    let ghost ev = entries_of(es@);
    let mut i: usize = 0;
    while i < es.len() && key_less(es[i].0.as_str(), k.as_str())
        invariant
            ev == entries_of(es@),
            es@ == old(es)@,
            0 <= i <= es@.len(),
            key_pos(ev, k@, 0) == key_pos(ev, k@, i as int),
        decreases es.len() - i,
    {
        i += 1;
    }
    proof {
        lemma_key_pos(ev, k@, i as int);
    }
    let ghost kv = k@;
    let ghost vv = v@;
    if i < es.len() && text_eq(es[i].0.as_str(), k.as_str()) {
        let _ = es.remove(i);
        es.insert(i, (k, v));
        proof {
            assert(entries_of(es@) =~= ev.update(i as int, (kv, vv)));
        }
    } else {
        es.insert(i, (k, v));
        proof {
            assert(entries_of(es@) =~= ev.insert(i as int, (kv, vv)));
        }
    }
}

// ----- deep sort -----

/// `j` with every object's entries sorted by key, recursively.
pub open spec fn sorted_json(j: Json) -> Json
    decreases j, 0int,
{
    match j {
        Json::Arr(xs) => Json::Arr(sorted_items(xs, xs.len() as int)),
        Json::Obj(es) => Json::Obj(sorted_entries(es, es.len() as int)),
        _ => j,
    }
}

pub open spec fn sorted_items(xs: Seq<Json>, n: int) -> Seq<Json>
    decreases xs, n,
{
    if n <= 0 || n > xs.len() {
        Seq::empty()
    } else {
        sorted_items(xs, n - 1).push(sorted_json(xs[n - 1]))
    }
}

/// The first `n` entries, each value sorted, put one by one into a sorted list.
pub open spec fn sorted_entries(es: Seq<(Seq<char>, Json)>, n: int) -> Seq<(Seq<char>, Json)>
    decreases es, n,
{
    if n <= 0 || n > es.len() {
        Seq::empty()
    } else {
        insert_key(sorted_entries(es, n - 1), es[n - 1].0, sorted_value_of(es[n - 1]))
    }
}

pub open spec fn sorted_value_of(e: (Seq<char>, Json)) -> Json
    decreases e, 1int,
{
    sorted_json(e.1)
}

impl JsonValue {
    /// A copy with every object's keys sorted, recursively; a repeated key keeps
    /// its last value.
    pub fn deep_sorted(&self) -> (r: JsonValue)
        ensures
            r@ == sorted_json(self@),
        decreases self,
    {
        match self {
            JsonValue::Null => JsonValue::Null,
            JsonValue::Bool(b) => JsonValue::Bool(*b),
            JsonValue::Number(t) => JsonValue::Number(t.clone()),
            JsonValue::String(s) => JsonValue::String(s.clone()),
            JsonValue::Array(xs) => {
                proof {
                    lemma_array_view(*xs);
                    assert(decreases_to!(*self => *xs));
                }
                let ghost iv = items_of(xs@);
                let mut out: Vec<JsonValue> = Vec::new();
                let mut i: usize = 0;
                while i < xs.len()
                    invariant
                        decreases_to!(*self => *xs),
                        iv == items_of(xs@),
                        0 <= i <= xs@.len(),
                        items_of(out@) == sorted_items(iv, i as int),
                    decreases xs.len() - i,
                {
                    proof {
                        assert(decreases_to!(*xs => xs[i as int]));
                    }
                    let ghost before = out@;
                    out.push(xs[i].deep_sorted());
                    proof {
                        assert(items_of(out@) =~= items_of(before).push(sorted_json(iv[i as int])));
                    }
                    i += 1;
                }
                proof {
                    lemma_array_view(out);
                }
                JsonValue::Array(out)
            },
            JsonValue::Object(es) => {
                proof {
                    lemma_object_view(*es);
                    assert(decreases_to!(*self => *es));
                }
                let ghost ev = entries_of(es@);
                let mut out: Vec<(String, JsonValue)> = Vec::new();
                proof {
                    assert(entries_of(out@) =~= sorted_entries(ev, 0));
                }
                let mut i: usize = 0;
                while i < es.len()
                    invariant
                        decreases_to!(*self => *es),
                        ev == entries_of(es@),
                        0 <= i <= es@.len(),
                        entries_of(out@) == sorted_entries(ev, i as int),
                    decreases es.len() - i,
                {
                    proof {
                        assert(decreases_to!(*es => es[i as int]));
                        assert(decreases_to!(es[i as int] => es[i as int].1));
                    }
                    let v = es[i].1.deep_sorted();
                    let k = es[i].0.clone();
                    proof {
                        assert(ev[i as int] == (es@[i as int].0@, es@[i as int].1@));
                        assert(sorted_value_of(ev[i as int]) == v@);
                    }
                    insert_entry(&mut out, k, v);
                    i += 1;
                }
                proof {
                    lemma_object_view(out);
                }
                JsonValue::Object(out)
            },
        }
    }
}

// ----- parsing: strings -----

pub open spec fn hex_val(c: char) -> Option<nat> {
    if '0' <= c && c <= '9' {
        Some((c as nat - 48) as nat)
    } else if 'a' <= c && c <= 'f' {
        Some((c as nat - 87) as nat)
    } else if 'A' <= c && c <= 'F' {
        Some((c as nat - 55) as nat)
    } else {
        None
    }
}

/// The value of four hexadecimal digits at `i`.
pub open spec fn hex4(s: Seq<char>, i: int) -> Option<nat> {
    if 0 <= i && i + 4 <= s.len() && hex_val(s[i]) is Some && hex_val(s[i + 1]) is Some && hex_val(
        s[i + 2],
    ) is Some && hex_val(s[i + 3]) is Some {
        Some(
            hex_val(s[i])->Some_0 * 4096 + hex_val(s[i + 1])->Some_0 * 256 + hex_val(s[i + 2])->Some_0
                * 16 + hex_val(s[i + 3])->Some_0,
        )
    } else {
        None
    }
}

/// Unicode scalar values: code points other than surrogates.
pub open spec fn valid_code(n: nat) -> bool {
    n < 0xd800 || (0xe000 <= n && n < 0x110000)
}

pub open spec fn code_char(n: nat) -> char {
    (n as u32) as char
}

/// The character an escape `\c` stands for (other than `\u`).
pub open spec fn unescape(c: char) -> char {
    if c == 'n' {
        '\n'
    } else if c == 'r' {
        '\r'
    } else if c == 't' {
        '\t'
    } else {
        c
    }
}

/// The rest of a string literal from `i` (after its opening quote), appended
/// to `acc`: the contents and the position after the closing quote. A `\u`
/// escape that names no scalar value adds nothing.
pub open spec fn str_body(s: Seq<char>, i: int, acc: Seq<char>) -> Option<(Seq<char>, int)>
    decreases s.len() - i,
{
    if i < 0 || i >= s.len() {
        None
    } else if s[i] == '"' {
        Some((acc, i + 1))
    } else if s[i] == '\\' {
        if i + 1 >= s.len() {
            None
        } else if s[i + 1] == 'u' {
            match hex4(s, i + 2) {
                None => None,
                Some(n) => str_body(
                    s,
                    i + 6,
                    if valid_code(n) {
                        acc.push(code_char(n))
                    } else {
                        acc
                    },
                ),
            }
        } else {
            str_body(s, i + 2, acc.push(unescape(s[i + 1])))
        }
    } else {
        str_body(s, i + 1, acc.push(s[i]))
    }
}

/// Relies on `char::from_u32`: the character with code `n`, for a scalar value.
#[verifier::external_body]
fn char_from_code(n: u32) -> (r: Option<char>)
    ensures
        r is Some <==> valid_code(n as nat),
        r is Some ==> r->Some_0 as u32 == n,
{
    char::from_u32(n)
}

fn hex_digit_value(c: char) -> (r: Option<u32>)
    ensures
        match hex_val(c) {
            Some(v) => r == Some(v as u32),
            None => r is None,
        },
{
    if '0' <= c && c <= '9' {
        Some(c as u32 - 48)
    } else if 'a' <= c && c <= 'f' {
        Some(c as u32 - 87)
    } else if 'A' <= c && c <= 'F' {
        Some(c as u32 - 55)
    } else {
        None
    }
}

fn parse_str_body(s: &str, n: usize, i: usize) -> (r: Option<(String, usize)>)
    requires
        n == s@.len(),
        i <= n,
    ensures
        match (r, str_body(s@, i as int, Seq::empty())) {
            (Some((x, k)), Some((y, e))) => x@ == y && k == e && k <= n,
            (None, None) => true,
            _ => false,
        },
{
    let mut out = String::new();
    let mut p = i;
    while p < n
        invariant
            n == s@.len(),
            i <= p <= n,
            str_body(s@, i as int, Seq::empty()) == str_body(s@, p as int, out@),
        decreases n - p,
    {
        let c = s.get_char(p);
        if c == '"' {
            return Some((out, p + 1));
        } else if c == '\\' {
            if p + 1 >= n {
                return None;
            }
            let e = s.get_char(p + 1);
            if e == 'u' {
                if n - p < 6 {
                    return None;
                }
                let h0 = hex_digit_value(s.get_char(p + 2));
                let h1 = hex_digit_value(s.get_char(p + 3));
                let h2 = hex_digit_value(s.get_char(p + 4));
                let h3 = hex_digit_value(s.get_char(p + 5));
                if h0.is_none() || h1.is_none() || h2.is_none() || h3.is_none() {
                    return None;
                }
                let code = h0.unwrap() * 4096 + h1.unwrap() * 256 + h2.unwrap() * 16 + h3.unwrap();
                match char_from_code(code) {
                    Some(ch) => {
                        proof {
                            vstd::utf8::char_u32_cast(ch, code);
                            assert(ch == code_char(code as nat));
                        }
                        push_char(&mut out, ch);
                    },
                    None => {},
                }
                p = p + 6;
            } else {
                let u = if e == 'n' {
                    '\n'
                } else if e == 'r' {
                    '\r'
                } else if e == 't' {
                    '\t'
                } else {
                    e
                };
                push_char(&mut out, u);
                p = p + 2;
            }
        } else {
            push_char(&mut out, c);
            p = p + 1;
        }
    }
    None
}

// ----- parsing: numbers -----

pub open spec fn is_digit(c: char) -> bool {
    '0' <= c && c <= '9'
}

/// The first position at or after `i` that holds no decimal digit.
pub open spec fn digits_end(s: Seq<char>, i: int) -> int
    decreases s.len() - i,
{
    if 0 <= i < s.len() && is_digit(s[i]) {
        digits_end(s, i + 1)
    } else {
        i
    }
}

pub open spec fn digits_val(x: Seq<char>) -> nat
    decreases x.len(),
{
    if x.len() == 0 {
        0
    } else {
        digits_val(x.drop_last()) * 10 + (x.last() as nat - 48) as nat
    }
}

pub open spec fn zeros(n: int) -> Seq<char> {
    Seq::new(if n > 0 { n as nat } else { 0 }, |i: int| '0')
}

pub open spec fn strip_leading_zeros(x: Seq<char>) -> Seq<char>
    decreases x.len(),
{
    if x.len() > 1 && x[0] == '0' {
        strip_leading_zeros(x.subrange(1, x.len() as int))
    } else {
        x
    }
}

pub open spec fn strip_trailing_zeros(x: Seq<char>) -> Seq<char>
    decreases x.len(),
{
    if x.len() > 0 && x.last() == '0' {
        strip_trailing_zeros(x.drop_last())
    } else {
        x
    }
}

/// The canonical text of the number `±ip.fp × 10^e`: an integral value has no
/// decimal point, another is written in plain decimal without trailing zeros;
/// no leading zeros and no negative zero.
pub open spec fn canon_number(neg: bool, ip: Seq<char>, fp: Seq<char>, e: int) -> Seq<char> {
    let d = ip + fp;
    let p = ip.len() + e;
    signed_text(neg, strip_leading_zeros(whole_part(d, p)), strip_trailing_zeros(frac_part(d, p)))
}

/// The digits before the decimal point when it stands after `p` digits of `d`.
pub open spec fn whole_part(d: Seq<char>, p: int) -> Seq<char> {
    if p <= 0 {
        seq!['0']
    } else if p >= d.len() {
        d + zeros(p - d.len())
    } else {
        d.subrange(0, p)
    }
}

/// The digits after the decimal point when it stands after `p` digits of `d`.
pub open spec fn frac_part(d: Seq<char>, p: int) -> Seq<char> {
    if p <= 0 {
        zeros(-p) + d
    } else if p >= d.len() {
        Seq::empty()
    } else {
        d.subrange(p, d.len() as int)
    }
}

/// `w.f`, or `w` when `f` is empty, with a minus sign unless the value is zero.
pub open spec fn signed_text(neg: bool, w: Seq<char>, f: Seq<char>) -> Seq<char> {
    let body = if f.len() == 0 {
        w
    } else {
        w + seq!['.'] + f
    };
    if neg && !(w == seq!['0'] && f.len() == 0) {
        seq!['-'] + body
    } else {
        body
    }
}

/// The largest decimal exponent accepted.
pub open spec fn exp_limit() -> nat {
    400
}

/// The end of the fraction `.digits` at `b`, or `b` itself when there is none;
/// `None` for a point without digits.
pub open spec fn frac_end(s: Seq<char>, b: int) -> Option<int> {
    if 0 <= b < s.len() && s[b] == '.' {
        let c = digits_end(s, b + 1);
        if c == b + 1 {
            None
        } else {
            Some(c)
        }
    } else {
        Some(b)
    }
}

/// The exponent `[eE] [+-]? digits` at `c` and the position after it; `(0, c)`
/// when there is none; `None` when it has no digits or exceeds `exp_limit`.
pub open spec fn exp_spec(s: Seq<char>, c: int) -> Option<(int, int)> {
    if !(0 <= c < s.len() && (s[c] == 'e' || s[c] == 'E')) {
        Some((0, c))
    } else {
        let sign = c + 1 < s.len() && (s[c + 1] == '+' || s[c + 1] == '-');
        let d = if sign {
            c + 2
        } else {
            c + 1
        };
        let f = digits_end(s, d);
        if f == d || digits_val(s.subrange(d, f)) > exp_limit() {
            None
        } else if sign && s[c + 1] == '-' {
            Some((-digits_val(s.subrange(d, f)), f))
        } else {
            Some((digits_val(s.subrange(d, f)) as int, f))
        }
    }
}

/// A number token at `j`: `-`? (`0` | nonzero digit, digits) (`.` digits)?
/// ([eE] [+-]? digits)?; its canonical text and the position after it. An
/// exponent beyond `exp_limit` is refused.
pub open spec fn parse_num(s: Seq<char>, j: int) -> Option<(Seq<char>, int)> {
    let neg = 0 <= j < s.len() && s[j] == '-';
    let a = if neg {
        j + 1
    } else {
        j
    };
    if !(0 <= a < s.len() && is_digit(s[a])) {
        None
    } else {
        let b = if s[a] == '0' {
            a + 1
        } else {
            digits_end(s, a)
        };
        match frac_end(s, b) {
            None => None,
            Some(c) => match exp_spec(s, c) {
                None => None,
                Some((e, f)) => Some(
                    (
                        canon_number(
                            neg,
                            s.subrange(a, b),
                            if c > b {
                                s.subrange(b + 1, c)
                            } else {
                                Seq::empty()
                            },
                            e,
                        ),
                        f,
                    ),
                ),
            },
        }
    }
}

proof fn lemma_digits_end(s: Seq<char>, i: int)
    requires
        0 <= i <= s.len(),
    ensures
        i <= digits_end(s, i) <= s.len(),
        forall|k: int| i <= k < digits_end(s, i) ==> is_digit(#[trigger] s[k]),
    decreases s.len() - i,
{
    if i < s.len() && is_digit(s[i]) {
        lemma_digits_end(s, i + 1);
    }
}

fn digits_end_exec(s: &str, n: usize, i: usize) -> (r: usize)
    requires
        n == s@.len(),
        i <= n,
    ensures
        r == digits_end(s@, i as int),
        i <= r <= n,
{
    let mut p = i;
    while p < n && '0' <= s.get_char(p) && s.get_char(p) <= '9'
        invariant
            n == s@.len(),
            i <= p <= n,
            digits_end(s@, i as int) == digits_end(s@, p as int),
        decreases n - p,
    {
        p += 1;
    }
    p
}

proof fn lemma_digits_val_grows(x: Seq<char>, k: int)
    requires
        0 <= k <= x.len(),
        forall|i: int| 0 <= i < x.len() ==> is_digit(#[trigger] x[i]),
    ensures
        digits_val(x.subrange(0, k)) <= digits_val(x),
    decreases x.len() - k,
{
    if k < x.len() {
        lemma_digits_val_grows(x, k + 1);
        let y = x.subrange(0, k + 1);
        assert(y.drop_last() =~= x.subrange(0, k));
    } else {
        assert(x.subrange(0, k) =~= x);
    }
}

/// The value of the digits `s[d..f]`, or `None` when it exceeds `exp_limit`.
fn exponent_value(s: &str, d: usize, f: usize) -> (r: Option<usize>)
    requires
        d <= f <= s@.len(),
        forall|k: int| d <= k < f ==> is_digit(#[trigger] s@[k]),
    ensures
        match r {
            Some(v) => v as nat == digits_val(s@.subrange(d as int, f as int)) && v <= exp_limit(),
            None => digits_val(s@.subrange(d as int, f as int)) > exp_limit(),
        },
{
    let ghost x = s@.subrange(d as int, f as int);
    let mut v: usize = 0;
    let mut p = d;
    while p < f
        invariant
            d <= p <= f <= s@.len(),
            x == s@.subrange(d as int, f as int),
            forall|k: int| d <= k < f ==> is_digit(#[trigger] s@[k]),
            v as nat == digits_val(x.subrange(0, p - d)),
            v <= exp_limit(),
        decreases f - p,
    {
        let c = s.get_char(p);
        proof {
            assert(x.subrange(0, p + 1 - d).drop_last() =~= x.subrange(0, p - d));
            assert(is_digit(s@[p as int]));
        }
        v = v * 10 + (c as u32 - 48) as usize;
        p += 1;
        if v > 400 {
            proof {
                assert forall|i: int| 0 <= i < x.len() implies is_digit(#[trigger] x[i]) by {
                    assert(x[i] == s@[d + i]);
                }
                lemma_digits_val_grows(x, p - d);
            }
            return None;
        }
    }
    proof {
        assert(x.subrange(0, f - d) =~= x);
    }
    Some(v)
}

/// Appends `k` zeros.
fn push_zeros(out: &mut Vec<char>, k: usize)
    ensures
        final(out)@ == old(out)@ + zeros(k as int),
{
    let mut i: usize = 0;
    while i < k
        invariant
            0 <= i <= k,
            out@ == old(out)@ + zeros(i as int),
        decreases k - i,
    {
        out.push('0');
        i += 1;
        proof {
            assert(out@ =~= old(out)@ + zeros(i as int));
        }
    }
}

fn chars_of(s: &str, a: usize, b: usize) -> (r: Vec<char>)
    requires
        a <= b <= s@.len(),
    ensures
        r@ == s@.subrange(a as int, b as int),
{
    let mut out: Vec<char> = Vec::new();
    let mut p = a;
    while p < b
        invariant
            a <= p <= b <= s@.len(),
            out@ == s@.subrange(a as int, p as int),
        decreases b - p,
    {
        out.push(s.get_char(p));
        p += 1;
        proof {
            assert(out@ =~= s@.subrange(a as int, p as int));
        }
    }
    out
}

/// The digits before and after the decimal point of `ip.fp × 10^e`.
fn split_point(ip: Vec<char>, fp: Vec<char>, e: i64) -> (r: (Vec<char>, Vec<char>))
    requires
        -1000 <= e <= 1000,
    ensures
        r.0@ == whole_part(ip@ + fp@, ip@.len() + e),
        r.1@ == frac_part(ip@ + fp@, ip@.len() + e),
{
    let mut d = ip.clone();
    let ghost dv = ip@ + fp@;
    let mut q: usize = 0;
    while q < fp.len()
        invariant
            0 <= q <= fp@.len(),
            d@ == ip@ + fp@.subrange(0, q as int),
        decreases fp.len() - q,
    {
        d.push(fp[q]);
        q += 1;
        proof {
            assert(d@ =~= ip@ + fp@.subrange(0, q as int));
        }
    }
    proof {
        assert(fp@.subrange(0, fp@.len() as int) =~= fp@);
        assert(d@ == dv);
    }
    let dl = d.len() as i128;
    let p: i128 = ip.len() as i128 + e as i128;
    let mut whole: Vec<char> = Vec::new();
    let mut frac: Vec<char> = Vec::new();
    if p <= 0 {
        whole.push('0');
        push_zeros(&mut frac, (-p) as usize);
        let mut k: usize = 0;
        while k < d.len()
            invariant
                0 <= k <= d@.len(),
                frac@ == zeros(-p as int) + d@.subrange(0, k as int),
            decreases d.len() - k,
        {
            frac.push(d[k]);
            k += 1;
            proof {
                assert(frac@ =~= zeros(-p as int) + d@.subrange(0, k as int));
            }
        }
        proof {
            assert(d@.subrange(0, d@.len() as int) =~= d@);
            assert(whole@ =~= seq!['0']);
        }
    } else if p >= dl {
        whole = d.clone();
        push_zeros(&mut whole, (p - dl) as usize);
    } else {
        let mut k: usize = 0;
        while k < d.len()
            invariant
                0 <= k <= d@.len(),
                0 < p < d@.len(),
                k <= p ==> whole@ == d@.subrange(0, k as int) && frac@.len() == 0,
                k > p ==> whole@ == d@.subrange(0, p as int) && frac@ == d@.subrange(p as int, k as int),
            decreases d.len() - k,
        {
            if (k as i128) < p {
                whole.push(d[k]);
            } else {
                frac.push(d[k]);
            }
            k += 1;
            proof {
                if k <= p {
                    assert(whole@ =~= d@.subrange(0, k as int));
                } else {
                    assert(whole@ =~= d@.subrange(0, p as int));
                    assert(frac@ =~= d@.subrange(p as int, k as int));
                }
            }
        }
    }
    (whole, frac)
}

/// The canonical text of `±ip.fp × 10^e`.
fn canon_number_exec(neg: bool, ip: Vec<char>, fp: Vec<char>, e: i64) -> (r: String)
    requires
        -1000 <= e <= 1000,
    ensures
        r@ == canon_number(neg, ip@, fp@, e as int),
{
    let (whole, frac) = split_point(ip, fp, e);
    signed_text_exec(neg, &whole, &frac)
}

/// The text of `±w.f` with leading zeros of `w` and trailing zeros of `f` removed.
fn signed_text_exec(neg: bool, whole: &Vec<char>, frac: &Vec<char>) -> (r: String)
    ensures
        r@ == signed_text(neg, strip_leading_zeros(whole@), strip_trailing_zeros(frac@)),
{
    let ghost w0 = whole@;
    let ghost f0 = frac@;
    proof {
        assert(w0.subrange(0, w0.len() as int) =~= w0);
        assert(f0.subrange(0, f0.len() as int) =~= f0);
    }
    // strip leading zeros of the whole part
    let mut a: usize = 0;
    while whole.len() > 0 && a < whole.len() - 1 && whole[a] == '0'
        invariant
            whole@ == w0,
            a <= whole@.len(),
            whole@.len() > 0 ==> a < whole@.len(),
            strip_leading_zeros(w0) == strip_leading_zeros(w0.subrange(a as int, w0.len() as int)),
        decreases whole.len() - a,
    {
        proof {
            let y = w0.subrange(a as int, w0.len() as int);
            assert(y.subrange(1, y.len() as int) =~= w0.subrange(a + 1, w0.len() as int));
        }
        a += 1;
    }
    let mut b: usize = frac.len();
    while b > 0 && frac[b - 1] == '0'
        invariant
            frac@ == f0,
            0 <= b <= frac@.len(),
            strip_trailing_zeros(f0) == strip_trailing_zeros(f0.subrange(0, b as int)),
        decreases b,
    {
        proof {
            assert(f0.subrange(0, b as int).drop_last() =~= f0.subrange(0, b - 1));
        }
        b -= 1;
    }
    let ghost w = strip_leading_zeros(w0);
    let ghost f = strip_trailing_zeros(f0);
    proof {
        if whole@.len() > 0 {
            let y = w0.subrange(a as int, w0.len() as int);
            assert(strip_leading_zeros(y) == y);
        }
        assert(f == f0.subrange(0, b as int));
    }
    let mut out = String::new();
    let is_zero = whole.len() > a && whole.len() - a == 1 && whole[a] == '0' && b == 0;
    proof {
        let y = w0.subrange(a as int, w0.len() as int);
        if whole@.len() > 0 {
            assert(w == y);
        } else {
            assert(w == w0);
        }
        if is_zero {
            assert(y =~= seq!['0']);
        }
        if w == seq!['0'] {
            assert(w.len() == 1 && w[0] == '0');
        }
        assert(is_zero == (w == seq!['0'] && f.len() == 0));
    }
    if neg && !is_zero {
        push_char(&mut out, '-');
    }
    let ghost pre = out@;
    let mut k = a;
    proof {
        assert(a <= whole@.len());
        assert(out@ =~= pre + w0.subrange(a as int, k as int));
    }
    while k < whole.len()
        invariant
            whole@ == w0,
            a <= k <= whole@.len(),
            out@ == pre + w0.subrange(a as int, k as int),
        decreases whole.len() - k,
    {
        push_char(&mut out, whole[k]);
        k += 1;
        proof {
            assert(out@ =~= pre + w0.subrange(a as int, k as int));
        }
    }
    if b > 0 {
        push_char(&mut out, '.');
        let ghost pre2 = out@;
        let mut k2: usize = 0;
        while k2 < b
            invariant
                frac@ == f0,
                0 <= k2 <= b <= frac@.len(),
                out@ == pre2 + f0.subrange(0, k2 as int),
            decreases b - k2,
        {
            push_char(&mut out, frac[k2]);
            k2 += 1;
            proof {
                assert(out@ =~= pre2 + f0.subrange(0, k2 as int));
            }
        }
    }
    proof {
        assert(out@ =~= signed_text(neg, w, f));
    }
    out
}

fn read_fraction(s: &str, n: usize, b: usize) -> (r: Option<usize>)
    requires
        n == s@.len(),
        b <= n,
    ensures
        match r {
            Some(c) => frac_end(s@, b as int) == Some(c as int) && b <= c <= n,
            None => frac_end(s@, b as int) is None,
        },
{
    if b < n && s.get_char(b) == '.' {
        let c = digits_end_exec(s, n, b + 1);
        if c == b + 1 {
            None
        } else {
            Some(c)
        }
    } else {
        Some(b)
    }
}

fn read_exponent(s: &str, n: usize, c: usize) -> (r: Option<(i64, usize)>)
    requires
        n == s@.len(),
        c <= n,
    ensures
        match (r, exp_spec(s@, c as int)) {
            (Some((e, f)), Some((e2, f2))) => e as int == e2 && f as int == f2 && -1000 <= e <= 1000
                && c <= f <= n,
            (None, None) => true,
            _ => false,
        },
{
    if !(c < n && (s.get_char(c) == 'e' || s.get_char(c) == 'E')) {
        return Some((0, c));
    }
    let sign = c + 1 < n && (s.get_char(c + 1) == '+' || s.get_char(c + 1) == '-');
    let d = if sign {
        c + 2
    } else {
        c + 1
    };
    let f = digits_end_exec(s, n, d);
    if f == d {
        return None;
    }
    proof {
        lemma_digits_end(s@, d as int);
    }
    let mag = match exponent_value(s, d, f) {
        Some(v) => v,
        None => {
            return None;
        },
    };
    if sign && s.get_char(c + 1) == '-' {
        Some((-(mag as i64), f))
    } else {
        Some((mag as i64, f))
    }
}

/// Reads a number token at `j`; see `parse_num`.
fn parse_num_exec(s: &str, n: usize, j: usize) -> (r: Option<(String, usize)>)
    requires
        n == s@.len(),
        j < n,
    ensures
        match (r, parse_num(s@, j as int)) {
            (Some((x, k)), Some((y, e))) => x@ == y && k == e && k <= n,
            (None, None) => true,
            _ => false,
        },
{
    let neg = s.get_char(j) == '-';
    let a = if neg {
        j + 1
    } else {
        j
    };
    if !(a < n && '0' <= s.get_char(a) && s.get_char(a) <= '9') {
        return None;
    }
    let b = if s.get_char(a) == '0' {
        a + 1
    } else {
        digits_end_exec(s, n, a)
    };
    let c = match read_fraction(s, n, b) {
        Some(c) => c,
        None => return None,
    };
    let (e, f) = match read_exponent(s, n, c) {
        Some(x) => x,
        None => return None,
    };
    let fp = if c > b {
        chars_of(s, b + 1, c)
    } else {
        Vec::new()
    };
    proof {
        if c <= b {
            assert(fp@ =~= Seq::<char>::empty());
        }
    }
    let ip = chars_of(s, a, b);
    let text = canon_number_exec(neg, ip, fp, e);
    Some((text, f))
}

// ----- parsing: values -----

pub open spec fn lit_at(s: Seq<char>, i: int, w: Seq<char>) -> bool {
    0 <= i && i + w.len() <= s.len() && s.subrange(i, i + w.len()) == w
}

/// Reads one JSON value from `i` (after optional white space): the value and
/// the position after it. Objects keep the last value of a repeated key and
/// hold their entries sorted by key.
pub open spec fn parse_json(s: Seq<char>, i: int) -> Option<(Json, int)>
    decreases s.len() - i, 0int,
{
    let j = skip_ws(s, i);
    if j < i || j >= s.len() {
        None
    } else if s[j] == 'n' {
        if lit_at(s, j, seq!['n', 'u', 'l', 'l']) {
            Some((Json::Null, j + 4))
        } else {
            None
        }
    } else if s[j] == 't' {
        if lit_at(s, j, seq!['t', 'r', 'u', 'e']) {
            Some((Json::Bool(true), j + 4))
        } else {
            None
        }
    } else if s[j] == 'f' {
        if lit_at(s, j, seq!['f', 'a', 'l', 's', 'e']) {
            Some((Json::Bool(false), j + 5))
        } else {
            None
        }
    } else if s[j] == '"' {
        match str_body(s, j + 1, Seq::empty()) {
            Some((x, k)) => Some((Json::Str(x), k)),
            None => None,
        }
    } else if s[j] == '[' {
        let k = skip_ws(s, j + 1);
        if k < j + 1 || k > s.len() {
            None
        } else if k < s.len() && s[k] == ']' {
            Some((Json::Arr(Seq::empty()), k + 1))
        } else {
            match parse_elems(s, k, Seq::empty()) {
                Some((xs, e)) => Some((Json::Arr(xs), e)),
                None => None,
            }
        }
    } else if s[j] == '{' {
        let k = skip_ws(s, j + 1);
        if k < j + 1 || k > s.len() {
            None
        } else if k < s.len() && s[k] == '}' {
            Some((Json::Obj(Seq::empty()), k + 1))
        } else {
            match parse_members(s, k, Seq::empty()) {
                Some((es, e)) => Some((Json::Obj(es), e)),
                None => None,
            }
        }
    } else if s[j] == '-' || is_digit(s[j]) {
        match parse_num(s, j) {
            Some((t, k)) => Some((Json::Num(t), k)),
            None => None,
        }
    } else {
        None
    }
}

/// The elements of an array from `i` on, after `acc`, through the closing `]`.
pub open spec fn parse_elems(s: Seq<char>, i: int, acc: Seq<Json>) -> Option<(Seq<Json>, int)>
    decreases s.len() - i, 1int,
{
    match parse_json(s, i) {
        None => None,
        Some((v, k)) => {
            let m = skip_ws(s, k);
            if k <= i || m < k || m >= s.len() {
                None
            } else if s[m] == ']' {
                Some((acc.push(v), m + 1))
            } else if s[m] == ',' {
                let q = skip_ws(s, m + 1);
                if q < m + 1 || q > s.len() {
                    None
                } else {
                    parse_elems(s, q, acc.push(v))
                }
            } else {
                None
            }
        },
    }
}

/// The members of an object from `i` on (a key's opening quote at `i`), put
/// into the sorted entries `acc`, through the closing `}`.
pub open spec fn parse_members(s: Seq<char>, i: int, acc: Seq<(Seq<char>, Json)>) -> Option<
    (Seq<(Seq<char>, Json)>, int),
>
    decreases s.len() - i, 1int,
{
    if i < 0 || i >= s.len() || s[i] != '"' {
        None
    } else {
        match str_body(s, i + 1, Seq::empty()) {
            None => None,
            Some((key, k)) => {
                let m = skip_ws(s, k);
                if k <= i || m < k || m >= s.len() || s[m] != ':' {
                    None
                } else {
                    match parse_json(s, m + 1) {
                        None => None,
                        Some((v, e)) => {
                            let q = skip_ws(s, e);
                            let acc2 = insert_key(acc, key, v);
                            if e <= m || q < e || q >= s.len() {
                                None
                            } else if s[q] == '}' {
                                Some((acc2, q + 1))
                            } else if s[q] == ',' {
                                let r = skip_ws(s, q + 1);
                                if r < q + 1 || r > s.len() {
                                    None
                                } else {
                                    parse_members(s, r, acc2)
                                }
                            } else {
                                None
                            }
                        },
                    }
                }
            },
        }
    }
}

/// The value that the whole of `s` spells, white space around it allowed.
pub open spec fn json_parse(s: Seq<char>) -> Option<Json> {
    match parse_json(s, 0) {
        Some((v, k)) => if skip_ws(s, k) == s.len() {
            Some(v)
        } else {
            None
        },
        None => None,
    }
}

fn ws_end(s: &str, n: usize, i: usize) -> (r: usize)
    requires
        n == s@.len(),
        i <= n,
    ensures
        r == skip_ws(s@, i as int),
        i <= r <= n,
{
    let mut j = i;
    while j < n && is_ws_char(s.get_char(j))
        invariant
            n == s@.len(),
            i <= j <= n,
            skip_ws(s@, i as int) == skip_ws(s@, j as int),
        decreases n - j,
    {
        j += 1;
    }
    j
}

fn lit_matches(s: &str, n: usize, i: usize, w: &str) -> (r: bool)
    requires
        n == s@.len(),
        i <= n,
    ensures
        r == lit_at(s@, i as int, w@),
{
    let m = w.unicode_len();
    if n - i < m {
        return false;
    }
    let mut k: usize = 0;
    while k < m
        invariant
            n == s@.len(),
            m == w@.len(),
            i + m <= n,
            0 <= k <= m,
            forall|t: int| 0 <= t < k ==> s@[i + t] == w@[t],
        decreases m - k,
    {
        if s.get_char(i + k) != w.get_char(k) {
            assert(s@.subrange(i as int, i + m)[k as int] != w@[k as int]);
            return false;
        }
        k += 1;
    }
    assert(s@.subrange(i as int, i + m) =~= w@);
    true
}

fn parse_json_exec(s: &str, n: usize, i: usize) -> (r: Option<(JsonValue, usize)>)
    requires
        n == s@.len(),
        i <= n,
    ensures
        match (r, parse_json(s@, i as int)) {
            (Some((v, k)), Some((w, e))) => v@ == w && k == e && k <= n,
            (None, None) => true,
            _ => false,
        },
    decreases n - i, 0int,
{
    let j = ws_end(s, n, i);
    if j >= n {
        return None;
    }
    let c = s.get_char(j);
    if c == 'n' {
        proof {
            reveal_strlit("null");
            assert("null"@ =~= seq!['n', 'u', 'l', 'l']);
        }
        if lit_matches(s, n, j, "null") {
            Some((JsonValue::Null, j + 4))
        } else {
            None
        }
    } else if c == 't' {
        proof {
            reveal_strlit("true");
            assert("true"@ =~= seq!['t', 'r', 'u', 'e']);
        }
        if lit_matches(s, n, j, "true") {
            Some((JsonValue::Bool(true), j + 4))
        } else {
            None
        }
    } else if c == 'f' {
        proof {
            reveal_strlit("false");
            assert("false"@ =~= seq!['f', 'a', 'l', 's', 'e']);
        }
        if lit_matches(s, n, j, "false") {
            Some((JsonValue::Bool(false), j + 5))
        } else {
            None
        }
    } else if c == '"' {
        match parse_str_body(s, n, j + 1) {
            Some((x, k)) => Some((JsonValue::String(x), k)),
            None => None,
        }
    } else if c == '[' {
        let k = ws_end(s, n, j + 1);
        if k < n && s.get_char(k) == ']' {
            let v: Vec<JsonValue> = Vec::new();
            proof {
                lemma_array_view(v);
                assert(items_of(v@) =~= Seq::<Json>::empty());
            }
            return Some((JsonValue::Array(v), k + 1));
        }
        let mut items: Vec<JsonValue> = Vec::new();
        proof {
            assert(items_of(items@) =~= Seq::<Json>::empty());
        }
        match parse_elems_exec(s, n, k, &mut items) {
            Some(e) => {
                proof {
                    lemma_array_view(items);
                }
                Some((JsonValue::Array(items), e))
            },
            None => None,
        }
    } else if c == '{' {
        let k = ws_end(s, n, j + 1);
        if k < n && s.get_char(k) == '}' {
            let v: Vec<(String, JsonValue)> = Vec::new();
            proof {
                lemma_object_view(v);
                assert(entries_of(v@) =~= Seq::<(Seq<char>, Json)>::empty());
            }
            return Some((JsonValue::Object(v), k + 1));
        }
        let mut es: Vec<(String, JsonValue)> = Vec::new();
        proof {
            assert(entries_of(es@) =~= Seq::<(Seq<char>, Json)>::empty());
        }
        match parse_members_exec(s, n, k, &mut es) {
            Some(e) => {
                proof {
                    lemma_object_view(es);
                }
                Some((JsonValue::Object(es), e))
            },
            None => None,
        }
    } else if c == '-' || ('0' <= c && c <= '9') {
        match parse_num_exec(s, n, j) {
            Some((t, k)) => Some((JsonValue::Number(t), k)),
            None => None,
        }
    } else {
        None
    }
}

fn parse_elems_exec(s: &str, n: usize, i: usize, items: &mut Vec<JsonValue>) -> (r: Option<usize>)
    requires
        n == s@.len(),
        i <= n,
    ensures
        match (r, parse_elems(s@, i as int, items_of(old(items)@))) {
            (Some(k), Some((xs, e))) => items_of(final(items)@) == xs && k == e && k <= n,
            (None, None) => true,
            _ => false,
        },
    decreases n - i, 1int,
{
    let ghost acc = items_of(items@);
    match parse_json_exec(s, n, i) {
        None => None,
        Some((v, k)) => {
            let m = ws_end(s, n, k);
            if k <= i || m >= n {
                return None;
            }
            let ghost vv = v@;
            items.push(v);
            proof {
                assert(items_of(items@) =~= acc.push(vv));
            }
            let c = s.get_char(m);
            if c == ']' {
                Some(m + 1)
            } else if c == ',' {
                let q = ws_end(s, n, m + 1);
                parse_elems_exec(s, n, q, items)
            } else {
                None
            }
        },
    }
}

fn parse_members_exec(s: &str, n: usize, i: usize, es: &mut Vec<(String, JsonValue)>) -> (r: Option<
    usize,
>)
    requires
        n == s@.len(),
        i <= n,
    ensures
        match (r, parse_members(s@, i as int, entries_of(old(es)@))) {
            (Some(k), Some((xs, e))) => entries_of(final(es)@) == xs && k == e && k <= n,
            (None, None) => true,
            _ => false,
        },
    decreases n - i, 1int,
{
    if i >= n || s.get_char(i) != '"' {
        return None;
    }
    match parse_str_body(s, n, i + 1) {
        None => None,
        Some((key, k)) => {
            let m = ws_end(s, n, k);
            if k <= i || m >= n || s.get_char(m) != ':' {
                return None;
            }
            match parse_json_exec(s, n, m + 1) {
                None => None,
                Some((v, e)) => {
                    let q = ws_end(s, n, e);
                    if e <= m || q >= n {
                        return None;
                    }
                    insert_entry(es, key, v);
                    let c = s.get_char(q);
                    if c == '}' {
                        Some(q + 1)
                    } else if c == ',' {
                        let r = ws_end(s, n, q + 1);
                        parse_members_exec(s, n, r, es)
                    } else {
                        None
                    }
                },
            }
        },
    }
}

impl JsonValue {
    /// Parses one JSON value; only white space may surround it.
    pub fn parse(s: &str) -> (r: Result<JsonValue, String>)
        ensures
            r is Ok <==> json_parse(s@) is Some,
            r is Ok ==> r->Ok_0@ == json_parse(s@)->Some_0,
    {
        let n = s.unicode_len();
        match parse_json_exec(s, n, 0) {
            Some((v, k)) => {
                if ws_end(s, n, k) == n {
                    Ok(v)
                } else {
                    Err(String::from_str("unexpected text after value"))
                }
            },
            None => Err(String::from_str("invalid JSON")),
        }
    }
}

} // verus!
