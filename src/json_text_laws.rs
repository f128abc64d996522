use vstd::prelude::*;
use crate::formatter::{escape_body, json_string};
use crate::json_laws::lemma_str_back;
use crate::json_value::{
    Json,
    canon_number,
    digits_end,
    emit,
    emit_entries,
    emit_entry,
    emit_items,
    frac_part,
    insert_key,
    is_digit,
    json_parse,
    lit_at,
    parse_elems,
    parse_json,
    parse_members,
    parse_num,
    signed_text,
    sorted_entries,
    sorted_items,
    sorted_json,
    sorted_value_of,
    str_body,
    strip_leading_zeros,
    strip_trailing_zeros,
    whole_part,
    zeros,
};
use crate::parser::{is_ws, skip_ws};

verus! {

/// A non-negative integer in decimal without leading zeros.
pub open spec fn plain_number(t: Seq<char>) -> bool {
    &&& t.len() > 0
    &&& forall|k: int| 0 <= k < t.len() ==> is_digit(#[trigger] t[k])
    &&& (t.len() == 1 || t[0] != '0')
}

/// Every number in the value is a plain non-negative integer.
pub open spec fn emittable(j: Json) -> bool
    decreases j,
{
    match j {
        Json::Num(t) => plain_number(t),
        Json::Arr(xs) => forall|i: int| 0 <= i < xs.len() ==> emittable(#[trigger] xs[i]),
        Json::Obj(es) => forall|i: int| 0 <= i < es.len() ==> emittable(#[trigger] es[i].1),
        _ => true,
    }
}

/// `r` stands in `s` from `i` on.
pub open spec fn placed(s: Seq<char>, i: int, r: Seq<char>) -> bool {
    &&& 0 <= i
    &&& i + r.len() <= s.len()
    &&& forall|k: int| 0 <= k < r.len() ==> s[i + k] == #[trigger] r[k]
}

/// Position `e` is the end of `s` or holds `,`, `]` or `}`.
pub open spec fn ends_value(s: Seq<char>, e: int) -> bool {
    e == s.len() || (0 <= e < s.len() && (s[e] == ',' || s[e] == ']' || s[e] == '}'))
}

pub open spec fn items_text(xs: Seq<Json>, m: int) -> Seq<char>
    decreases xs.len() - m,
{
    if m < 0 || m >= xs.len() {
        Seq::empty()
    } else if m == xs.len() - 1 {
        emit(xs[m])
    } else {
        emit(xs[m]) + seq![','] + items_text(xs, m + 1)
    }
}

pub open spec fn entries_text(es: Seq<(Seq<char>, Json)>, m: int) -> Seq<char>
    decreases es.len() - m,
{
    if m < 0 || m >= es.len() {
        Seq::empty()
    } else if m == es.len() - 1 {
        emit_entry(es[m])
    } else {
        emit_entry(es[m]) + seq![','] + entries_text(es, m + 1)
    }
}

proof fn lemma_items_text(xs: Seq<Json>, n: int)
    requires
        1 <= n <= xs.len(),
    ensures
        items_text(xs, 0) == emit_items(xs, n) + (if n < xs.len() {
            seq![','] + items_text(xs, n)
        } else {
            Seq::empty()
        }),
    decreases n,
{
    if n > 1 {
        lemma_items_text(xs, n - 1);
    }
    assert(items_text(xs, 0) =~= emit_items(xs, n) + (if n < xs.len() {
        seq![','] + items_text(xs, n)
    } else {
        Seq::empty()
    }));
}

proof fn lemma_entries_text(es: Seq<(Seq<char>, Json)>, n: int)
    requires
        1 <= n <= es.len(),
    ensures
        entries_text(es, 0) == emit_entries(es, n) + (if n < es.len() {
            seq![','] + entries_text(es, n)
        } else {
            Seq::empty()
        }),
    decreases n,
{
    if n > 1 {
        lemma_entries_text(es, n - 1);
    }
    assert(entries_text(es, 0) =~= emit_entries(es, n) + (if n < es.len() {
        seq![','] + entries_text(es, n)
    } else {
        Seq::empty()
    }));
}

proof fn lemma_emit_first(j: Json)
    requires
        emittable(j),
    ensures
        emit(j).len() > 0,
        !is_ws(emit(j)[0]),
        emit(j)[0] != ',' && emit(j)[0] != ']' && emit(j)[0] != '}',
{
    reveal_strlit("null");
    reveal_strlit("true");
    reveal_strlit("false");
    assert("null"@ =~= seq!['n', 'u', 'l', 'l']);
    assert("true"@ =~= seq!['t', 'r', 'u', 'e']);
    assert("false"@ =~= seq!['f', 'a', 'l', 's', 'e']);
    if let Json::Num(t) = j {
        assert(is_digit(t[0]));
    }
}

proof fn lemma_digit_run(s: Seq<char>, p: int, e: int)
    requires
        0 <= p <= e <= s.len(),
        forall|q: int| p <= q < e ==> is_digit(#[trigger] s[q]),
        e == s.len() || !is_digit(s[e]),
    ensures
        digits_end(s, p) == e,
    decreases e - p,
{
    if p < e {
        lemma_digit_run(s, p + 1, e);
    }
}

proof fn lemma_parse_plain_number(t: Seq<char>, s: Seq<char>, i: int)
    requires
        plain_number(t),
        placed(s, i, t),
        ends_value(s, i + t.len()),
    ensures
        parse_num(s, i) == Some((t, i + t.len())),
{
    let e = i + t.len();
    assert(s[i] == t[0]);
    assert(is_digit(t[0]));
    assert forall|q: int| i <= q < e implies is_digit(#[trigger] s[q]) by {
        assert(s[i + (q - i)] == t[q - i]);
    }
    lemma_digit_run(s, i, e);
    assert(s.subrange(i, e) =~= t);
    assert(zeros(0) =~= Seq::<char>::empty());
    assert(t + Seq::<char>::empty() =~= t);
    assert(whole_part(t, t.len() as int) == t);
    assert(frac_part(t, t.len() as int) == Seq::<char>::empty());
    assert(strip_leading_zeros(t) == t);
    assert(strip_trailing_zeros(Seq::<char>::empty()) == Seq::<char>::empty());
    assert(canon_number(false, t, Seq::empty(), 0) == t);
}

proof fn lemma_parse_emit(j: Json, s: Seq<char>, i: int)
    requires
        emittable(j),
        placed(s, i, emit(j)),
        ends_value(s, i + emit(j).len()),
    ensures
        parse_json(s, i) == Some((sorted_json(j), i + emit(j).len())),
    decreases j, 0int,
{
    let r = emit(j);
    lemma_emit_first(j);
    assert(s[i] == r[0]);
    assert(skip_ws(s, i) == i);
    reveal_strlit("null");
    reveal_strlit("true");
    reveal_strlit("false");
    assert("null"@ =~= seq!['n', 'u', 'l', 'l']);
    assert("true"@ =~= seq!['t', 'r', 'u', 'e']);
    assert("false"@ =~= seq!['f', 'a', 'l', 's', 'e']);
    match j {
        Json::Null => {
            assert(s.subrange(i, i + 4) =~= seq!['n', 'u', 'l', 'l']);
        },
        Json::Bool(b) => {
            if b {
                assert(s.subrange(i, i + 4) =~= seq!['t', 'r', 'u', 'e']);
            } else {
                assert(s.subrange(i, i + 5) =~= seq!['f', 'a', 'l', 's', 'e']);
            }
        },
        Json::Num(t) => {
            lemma_parse_plain_number(t, s, i);
        },
        Json::Str(x) => {
            let eb = escape_body(x);
            assert(r == seq!['"'] + eb + seq!['"']);
            assert forall|k: int| 0 <= k < eb.len() implies s[i + 1 + k] == #[trigger] eb[k] by {
                assert(s[i + (1 + k)] == r[1 + k]);
            }
            assert(s[i + 1 + eb.len()] == r[1 + eb.len() as int]);
            lemma_str_back(x, s, i + 1, Seq::empty());
            assert(Seq::<char>::empty() + x =~= x);
        },
        Json::Arr(xs) => {
            let body = emit_items(xs, xs.len() as int);
            assert(r == seq!['['] + body + seq![']']);
            if xs.len() == 0 {
                assert(body =~= Seq::<char>::empty());
                assert(s[i + 1] == r[1]);
                assert(sorted_items(xs, 0) =~= xs);
            } else {
                lemma_items_text(xs, xs.len() as int);
                lemma_emit_first(xs[0]);
                assert(body == items_text(xs, 0));
                assert(body[0] == emit(xs[0])[0]);
                assert(s[i + 1] == r[1]);
                assert(skip_ws(s, i + 1) == i + 1);
                assert forall|k: int| 0 <= k < body.len() implies s[i + 1 + k] == #[trigger] body[k] by {
                    assert(s[i + (1 + k)] == r[1 + k]);
                }
                assert(s[i + 1 + body.len()] == r[1 + body.len() as int]);
                assert(sorted_items(xs, 0) =~= Seq::<Json>::empty());
                lemma_parse_elems(xs, 0, s, i + 1);
            }
        },
        Json::Obj(es) => {
            let body = emit_entries(es, es.len() as int);
            assert(r == seq!['{'] + body + seq!['}']);
            if es.len() == 0 {
                assert(body =~= Seq::<char>::empty());
                assert(s[i + 1] == r[1]);
                assert(sorted_entries(es, 0) =~= es);
            } else {
                lemma_entries_text(es, es.len() as int);
                assert(body == entries_text(es, 0));
                assert(body[0] == '"');
                assert(s[i + 1] == r[1]);
                assert(skip_ws(s, i + 1) == i + 1);
                assert forall|k: int| 0 <= k < body.len() implies s[i + 1 + k] == #[trigger] body[k] by {
                    assert(s[i + (1 + k)] == r[1 + k]);
                }
                assert(s[i + 1 + body.len()] == r[1 + body.len() as int]);
                assert(sorted_entries(es, 0) =~= Seq::<(Seq<char>, Json)>::empty());
                lemma_parse_members(es, 0, s, i + 1);
            }
        },
    }
}

proof fn lemma_parse_elems(xs: Seq<Json>, m: int, s: Seq<char>, p: int)
    requires
        0 <= m < xs.len(),
        forall|q: int| 0 <= q < xs.len() ==> emittable(#[trigger] xs[q]),
        placed(s, p, items_text(xs, m)),
        p + items_text(xs, m).len() < s.len(),
        s[p + items_text(xs, m).len()] == ']',
    ensures
        parse_elems(s, p, sorted_items(xs, m)) == Some(
            (sorted_items(xs, xs.len() as int), p + items_text(xs, m).len() + 1),
        ),
    decreases xs, xs.len() - m, 1int,
{
    let r = emit(xs[m]);
    let it = items_text(xs, m);
    lemma_emit_first(xs[m]);
    assert(decreases_to!(xs => xs[m]));
    assert(sorted_items(xs, m + 1) == sorted_items(xs, m).push(sorted_json(xs[m])));
    if m == xs.len() - 1 {
        assert(it == r);
        lemma_parse_emit(xs[m], s, p);
    } else {
        let rest = items_text(xs, m + 1);
        assert(it == r + seq![','] + rest);
        assert forall|k: int| 0 <= k < r.len() implies s[p + k] == #[trigger] r[k] by {
            assert(s[p + k] == it[k]);
        }
        assert(s[p + r.len()] == it[r.len() as int]);
        lemma_parse_emit(xs[m], s, p);
        lemma_emit_first(xs[m + 1]);
        assert(rest[0] == emit(xs[m + 1])[0]);
        assert(s[p + r.len() + 1] == it[r.len() as int + 1]);
        assert(skip_ws(s, p + r.len() + 1) == p + r.len() + 1);
        assert forall|k: int| 0 <= k < rest.len() implies s[p + r.len() + 1 + k] == #[trigger] rest[k] by {
            assert(s[p + (r.len() + 1 + k)] == it[r.len() + 1 + k]);
        }
        assert(s[p + r.len() + 1 + rest.len()] == ']');
        lemma_parse_elems(xs, m + 1, s, p + r.len() + 1);
    }
}

proof fn lemma_parse_members(es: Seq<(Seq<char>, Json)>, m: int, s: Seq<char>, p: int)
    requires
        0 <= m < es.len(),
        forall|q: int| 0 <= q < es.len() ==> emittable(#[trigger] es[q].1),
        placed(s, p, entries_text(es, m)),
        p + entries_text(es, m).len() < s.len(),
        s[p + entries_text(es, m).len()] == '}',
    ensures
        parse_members(s, p, sorted_entries(es, m)) == Some(
            (sorted_entries(es, es.len() as int), p + entries_text(es, m).len() + 1),
        ),
    decreases es, es.len() - m, 1int,
{
    let e = es[m];
    let key = json_string(e.0);
    let eb = escape_body(e.0);
    let v = emit(e.1);
    let r = emit_entry(e);
    let it = entries_text(es, m);
    assert(decreases_to!(es => es[m]));
    assert(decreases_to!(es[m] => es[m].1));
    lemma_emit_first(e.1);
    assert(r == key + seq![':'] + v);
    assert(key == seq!['"'] + eb + seq!['"']);
    let vpos = p + key.len() + 1;
    let after = vpos + v.len();
    assert(forall|k: int| 0 <= k < r.len() ==> s[p + k] == #[trigger] r[k]) by {
        assert forall|k: int| 0 <= k < r.len() implies s[p + k] == #[trigger] r[k] by {
            if m == es.len() - 1 {
                assert(it == r);
            } else {
                assert(it == r + seq![','] + entries_text(es, m + 1));
            }
            assert(s[p + k] == it[k]);
            assert(it[k] == r[k]);
        }
    }
    assert(s[p + 0] == r[0]);
    assert(r[0] == key[0]);
    assert(s[p] == '"');
    assert forall|k: int| 0 <= k < eb.len() implies s[p + 1 + k] == #[trigger] eb[k] by {
        assert(s[p + (1 + k)] == r[1 + k]);
    }
    assert(s[p + 1 + eb.len()] == r[1 + eb.len() as int]);
    lemma_str_back(e.0, s, p + 1, Seq::empty());
    assert(Seq::<char>::empty() + e.0 =~= e.0);
    assert(s[p + key.len()] == r[key.len() as int]);
    assert(skip_ws(s, p + key.len()) == p + key.len());
    assert forall|k: int| 0 <= k < v.len() implies s[vpos + k] == #[trigger] v[k] by {
        assert(s[p + (key.len() + 1 + k)] == r[key.len() + 1 + k]);
    }
    assert(sorted_entries(es, m + 1) == insert_key(sorted_entries(es, m), e.0, sorted_value_of(e)));
    if m == es.len() - 1 {
        assert(it == r);
        assert(s[after] == '}');
        lemma_parse_emit(e.1, s, vpos);
        assert(skip_ws(s, after) == after);
    } else {
        let rest = entries_text(es, m + 1);
        assert(it == r + seq![','] + rest);
        assert(s[after] == it[r.len() as int]);
        lemma_parse_emit(e.1, s, vpos);
        assert(skip_ws(s, after) == after);
        assert(s[after + 1] == it[r.len() as int + 1]);
        assert(rest[0] == '"');
        assert(skip_ws(s, after + 1) == after + 1);
        assert forall|k: int| 0 <= k < rest.len() implies s[after + 1 + k] == #[trigger] rest[k] by {
            assert(s[p + (r.len() + 1 + k)] == it[r.len() + 1 + k]);
        }
        assert(s[after + 1 + rest.len()] == '}');
        lemma_parse_members(es, m + 1, s, after + 1);
    }
}

/// The compact text of a value whose numbers are plain non-negative integers
/// reads back as that value with every object's keys sorted.
pub proof fn law_json_text_round_trip(j: Json)
    requires
        emittable(j),
    ensures
        json_parse(emit(j)) == Some(sorted_json(j)),
{
    let t = emit(j);
    lemma_parse_emit(j, t, 0);
    assert(skip_ws(t, t.len() as int) == t.len());
}

} // verus!
