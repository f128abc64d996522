use vstd::prelude::*;
use crate::formatter::{escape_body, escape_char, hex_char, is_control, json_string};
use crate::parser::skip_ws;
use crate::json_value::{
    Json,
    code_char,
    hex4,
    hex_val,
    json_parse,
    str_body,
    unescape,
    insert_key,
    key_lt,
    key_lt_from,
    key_pos,
    sorted_entries,
    sorted_items,
    sorted_json,
    sorted_value_of,
};

verus! {

proof fn lemma_lt_total(a: Seq<char>, b: Seq<char>, i: int)
    requires
        0 <= i,
        i <= a.len(),
        i <= b.len(),
        a.subrange(0, i) == b.subrange(0, i),
        !key_lt_from(a, b, i),
        !key_lt_from(b, a, i),
    ensures
        a == b,
    decreases a.len() - i,
{
    if i < a.len() && i < b.len() {
        assert(a[i] == b[i]);
        assert(a.subrange(0, i + 1) =~= a.subrange(0, i).push(a[i]));
        assert(b.subrange(0, i + 1) =~= b.subrange(0, i).push(b[i]));
        lemma_lt_total(a, b, i + 1);
    } else {
        assert(a.len() == b.len());
        assert(a =~= a.subrange(0, i));
        assert(b =~= b.subrange(0, i));
    }
}

proof fn lemma_lt_transitive(a: Seq<char>, b: Seq<char>, c: Seq<char>, i: int)
    requires
        0 <= i,
        key_lt_from(a, b, i),
        key_lt_from(b, c, i),
    ensures
        key_lt_from(a, c, i),
    decreases a.len() - i,
{
    if i < a.len() && i < b.len() && i < c.len() && a[i] == b[i] && b[i] == c[i] {
        lemma_lt_transitive(a, b, c, i + 1);
    }
}

/// Keys strictly increasing.
pub open spec fn strictly_sorted(es: Seq<(Seq<char>, Json)>) -> bool {
    forall|i: int, j: int| 0 <= i < j < es.len() ==> key_lt(#[trigger] es[i].0, #[trigger] es[j].0)
}

proof fn lemma_key_pos_facts(es: Seq<(Seq<char>, Json)>, k: Seq<char>, i: int)
    requires
        0 <= i <= es.len(),
    ensures
        i <= key_pos(es, k, i) <= es.len(),
        forall|q: int| i <= q < key_pos(es, k, i) ==> key_lt(#[trigger] es[q].0, k),
        key_pos(es, k, i) < es.len() ==> !key_lt(es[key_pos(es, k, i)].0, k),
    decreases es.len() - i,
{
    if i < es.len() && key_lt(es[i].0, k) {
        lemma_key_pos_facts(es, k, i + 1);
    }
}

proof fn lemma_insert_keeps_sorted(es: Seq<(Seq<char>, Json)>, k: Seq<char>, v: Json)
    requires
        strictly_sorted(es),
    ensures
        strictly_sorted(insert_key(es, k, v)),
{
    lemma_key_pos_facts(es, k, 0);
    let p = key_pos(es, k, 0);
    let r = insert_key(es, k, v);
    if p < es.len() && es[p].0 == k {
        assert forall|i: int, j: int| 0 <= i < j < r.len() implies key_lt(
            #[trigger] r[i].0,
            #[trigger] r[j].0,
        ) by {
            assert(r[i].0 == es[i].0 && r[j].0 == es[j].0);
        }
    } else {
        if p < es.len() {
            if !key_lt(k, es[p].0) {
                assert(es[p].0.subrange(0, 0) =~= k.subrange(0, 0));
                lemma_lt_total(es[p].0, k, 0);
            }
        }
        assert forall|i: int, j: int| 0 <= i < j < r.len() implies key_lt(
            #[trigger] r[i].0,
            #[trigger] r[j].0,
        ) by {
            if j < p {
                assert(r[i] == es[i] && r[j] == es[j]);
            } else if j == p {
                assert(r[i] == es[i]);
            } else if i < p {
                assert(r[i] == es[i] && r[j] == es[j - 1]);
                assert(key_lt(es[i].0, k));
                if j - 1 > p {
                    lemma_lt_transitive(k, es[p].0, es[j - 1].0, 0);
                }
                lemma_lt_transitive(es[i].0, k, es[j - 1].0, 0);
            } else if i == p {
                assert(r[j] == es[j - 1]);
                if j - 1 > p {
                    lemma_lt_transitive(k, es[p].0, es[j - 1].0, 0);
                }
            } else {
                assert(r[i] == es[i - 1] && r[j] == es[j - 1]);
            }
        }
    }
}

proof fn lemma_key_pos_end(es: Seq<(Seq<char>, Json)>, k: Seq<char>, i: int)
    requires
        0 <= i <= es.len(),
        forall|q: int| i <= q < es.len() ==> key_lt(#[trigger] es[q].0, k),
    ensures
        key_pos(es, k, i) == es.len(),
    decreases es.len() - i,
{
    if i < es.len() {
        lemma_key_pos_end(es, k, i + 1);
    }
}

/// Every object's keys are strictly increasing, throughout the value.
pub open spec fn canon_json(j: Json) -> bool
    decreases j,
{
    match j {
        Json::Arr(xs) => forall|i: int| 0 <= i < xs.len() ==> canon_json(#[trigger] xs[i]),
        Json::Obj(es) => strictly_sorted(es) && forall|i: int|
            0 <= i < es.len() ==> canon_json(#[trigger] es[i].1),
        _ => true,
    }
}

proof fn lemma_sorted_items(xs: Seq<Json>, n: int)
    requires
        0 <= n <= xs.len(),
    ensures
        sorted_items(xs, n).len() == n,
        forall|i: int| 0 <= i < n ==> #[trigger] sorted_items(xs, n)[i] == sorted_json(xs[i]),
    decreases n,
{
    if n > 0 {
        lemma_sorted_items(xs, n - 1);
    }
}

/// The entries of `sorted_entries(es, n)` are sorted and each value is the
/// deep-sorted value of one of the first `n` entries.
proof fn lemma_sorted_entries(es: Seq<(Seq<char>, Json)>, n: int)
    requires
        0 <= n <= es.len(),
    ensures
        strictly_sorted(sorted_entries(es, n)),
        forall|i: int|
            0 <= i < sorted_entries(es, n).len() ==> exists|m: int|
                0 <= m < n && (#[trigger] sorted_entries(es, n)[i]).1 == sorted_json(es[m].1),
    decreases n,
{
    if n > 0 {
        lemma_sorted_entries(es, n - 1);
        let prev = sorted_entries(es, n - 1);
        let k = es[n - 1].0;
        let v = sorted_value_of(es[n - 1]);
        lemma_insert_keeps_sorted(prev, k, v);
        lemma_key_pos_facts(prev, k, 0);
        let p = key_pos(prev, k, 0);
        let r = sorted_entries(es, n);
        assert(r == insert_key(prev, k, v));
        assert forall|i: int| 0 <= i < r.len() implies exists|m: int|
            0 <= m < n && (#[trigger] r[i]).1 == sorted_json(es[m].1) by {
            if p < prev.len() && prev[p].0 == k {
                if i == p {
                    assert(r[i].1 == sorted_json(es[n - 1].1));
                } else {
                    assert(r[i] == prev[i]);
                }
            } else {
                if i < p {
                    assert(r[i] == prev[i]);
                } else if i == p {
                    assert(r[i].1 == sorted_json(es[n - 1].1));
                } else {
                    assert(r[i] == prev[i - 1]);
                }
            }
        }
    } else {
        assert(sorted_entries(es, n) =~= Seq::<(Seq<char>, Json)>::empty());
    }
}

/// Deep-sorting yields a value whose objects are all sorted.
proof fn lemma_sorted_is_canon(j: Json)
    ensures
        canon_json(sorted_json(j)),
    decreases j,
{
    match j {
        Json::Arr(xs) => {
            lemma_sorted_items(xs, xs.len() as int);
            let ys = sorted_items(xs, xs.len() as int);
            assert forall|i: int| 0 <= i < ys.len() implies canon_json(#[trigger] ys[i]) by {
                lemma_sorted_is_canon(xs[i]);
            }
        },
        Json::Obj(es) => {
            lemma_sorted_entries(es, es.len() as int);
            let ys = sorted_entries(es, es.len() as int);
            assert forall|i: int| 0 <= i < ys.len() implies canon_json(#[trigger] ys[i].1) by {
                let m = choose|m: int| 0 <= m < es.len() && ys[i].1 == sorted_json(es[m].1);
                assert(decreases_to!(es => es[m]));
                lemma_sorted_is_canon(es[m].1);
            }
        },
        _ => {},
    }
}

/// Deep-sorting leaves a value whose objects are all sorted as it is.
proof fn lemma_canon_fixed(j: Json)
    requires
        canon_json(j),
    ensures
        sorted_json(j) == j,
    decreases j,
{
    match j {
        Json::Arr(xs) => {
            lemma_sorted_items(xs, xs.len() as int);
            assert forall|i: int| 0 <= i < xs.len() implies sorted_json(#[trigger] xs[i]) == xs[i] by {
                lemma_canon_fixed(xs[i]);
            }
            assert(sorted_items(xs, xs.len() as int) =~= xs);
        },
        Json::Obj(es) => {
            assert forall|i: int| 0 <= i < es.len() implies sorted_json(#[trigger] es[i].1) == es[i].1 by {
                assert(decreases_to!(es => es[i]));
                lemma_canon_fixed(es[i].1);
            }
            lemma_sorted_prefix(es, es.len() as int);
            assert(es.subrange(0, es.len() as int) =~= es);
        },
        _ => {},
    }
}

proof fn lemma_sorted_prefix(es: Seq<(Seq<char>, Json)>, n: int)
    requires
        0 <= n <= es.len(),
        strictly_sorted(es),
        forall|i: int| 0 <= i < es.len() ==> sorted_json(#[trigger] es[i].1) == es[i].1,
    ensures
        sorted_entries(es, n) == es.subrange(0, n),
    decreases n,
{
    if n > 0 {
        lemma_sorted_prefix(es, n - 1);
        let prev = es.subrange(0, n - 1);
        let k = es[n - 1].0;
        assert forall|q: int| 0 <= q < prev.len() implies key_lt(#[trigger] prev[q].0, k) by {
            assert(prev[q] == es[q]);
        }
        lemma_key_pos_end(prev, k, 0);
        assert(sorted_value_of(es[n - 1]) == es[n - 1].1);
        assert(insert_key(prev, k, es[n - 1].1) =~= es.subrange(0, n));
    } else {
        assert(sorted_entries(es, 0) =~= es.subrange(0, 0));
    }
}

/// Deep-sorting is idempotent: sorting an already deep-sorted value changes
/// nothing.
pub proof fn law_deep_sort_idempotent(j: Json)
    ensures
        sorted_json(sorted_json(j)) == sorted_json(j),
{
    lemma_sorted_is_canon(j);
    lemma_canon_fixed(sorted_json(j));
}

} // verus!

verus! {

proof fn lemma_escape_front(x: Seq<char>)
    requires
        x.len() > 0,
    ensures
        escape_body(x) == escape_char(x[0]) + escape_body(x.subrange(1, x.len() as int)),
    decreases x.len(),
{
    if x.len() == 1 {
        let d = x.drop_last();
        assert(d =~= Seq::<char>::empty());
        assert(escape_body(d) == Seq::<char>::empty());
        assert(x.subrange(1, 1) =~= Seq::<char>::empty());
        assert(escape_body(x.subrange(1, 1)) == Seq::<char>::empty());
        assert(x.last() == x[0]);
        assert(escape_body(x) =~= escape_char(x[0]) + escape_body(x.subrange(1, x.len() as int)));
    } else {
        let d = x.drop_last();
        lemma_escape_front(d);
        let r = x.subrange(1, x.len() as int);
        assert(r.drop_last() =~= d.subrange(1, d.len() as int));
        assert(r.last() == x.last());
        assert(d[0] == x[0]);
        assert(escape_body(x) =~= escape_char(x[0]) + escape_body(r));
    }
}

proof fn lemma_hex_back(d: nat)
    requires
        d < 16,
    ensures
        hex_val(hex_char(d)) == Some(d),
{
    if d < 10 {
        vstd::utf8::char_u32_cast(hex_char(d), (48 + d) as u32);
        assert(hex_char(d) as nat == 48 + d);
    } else {
        vstd::utf8::char_u32_cast(hex_char(d), (87 + d) as u32);
        assert(hex_char(d) as nat == 87 + d);
    }
}

pub proof fn lemma_str_back(x: Seq<char>, s: Seq<char>, p: int, acc: Seq<char>)
    requires
        0 <= p,
        p + escape_body(x).len() < s.len(),
        forall|k: int| 0 <= k < escape_body(x).len() ==> s[p + k] == #[trigger] escape_body(x)[k],
        s[p + escape_body(x).len()] == '"',
    ensures
        str_body(s, p, acc) == Some((acc + x, p + escape_body(x).len() + 1)),
    decreases x.len(),
{
    if x.len() == 0 {
        assert(escape_body(x) =~= Seq::<char>::empty());
        assert(acc + x =~= acc);
    } else {
        lemma_escape_front(x);
        let c = x[0];
        let e = escape_char(c);
        let rest = x.subrange(1, x.len() as int);
        let eb = escape_body(x);
        assert(eb == e + escape_body(rest));
        assert forall|k: int| 0 <= k < e.len() implies s[p + k] == #[trigger] e[k] by {
            assert(eb[k] == e[k]);
        }
        assert forall|k: int| 0 <= k < escape_body(rest).len() implies s[p + e.len() + k]
            == #[trigger] escape_body(rest)[k] by {
            assert(eb[e.len() + k] == escape_body(rest)[k]);
            assert(s[p + (e.len() + k)] == eb[e.len() + k]);
        }
        assert(s[p + e.len() + escape_body(rest).len()] == '"');
        if c == '"' || c == '\\' || c == '\n' || c == '\r' || c == '\t' {
            assert(e.len() == 2);
            assert(s[p] == '\\');
            assert(s[p + 1] != 'u');
            assert(unescape(s[p + 1]) == c);
            lemma_str_back(rest, s, p + 2, acc.push(c));
        } else if is_control(c) {
            let n = (c as u32) as nat;
            assert(e.len() == 6);
            assert(s[p] == '\\' && s[p + 1] == 'u' && s[p + 2] == '0' && s[p + 3] == '0');
            lemma_hex_back(n / 16);
            lemma_hex_back(n % 16);
            lemma_hex_back(0);
            assert(hex_char(0) == '0') by {
                vstd::utf8::char_u32_cast('0', 48);
            }
            assert(hex4(s, p + 2) == Some(n));
            vstd::utf8::char_u32_cast(c, n as u32);
            assert(code_char(n) == c);
            lemma_str_back(rest, s, p + 6, acc.push(c));
        } else {
            assert(e == seq![c]);
            assert(s[p + 0] == e[0]);
            lemma_str_back(rest, s, p + 1, acc.push(c));
        }
        assert(acc.push(c) + rest =~= acc + x);
    }
}

/// A JSON string literal written by the escaper reads back as the same string.
pub proof fn law_json_string_round_trip(x: Seq<char>)
    ensures
        json_parse(json_string(x)) == Some(Json::Str(x)),
{
    let t = json_string(x);
    let eb = escape_body(x);
    assert(t == seq!['"'] + eb + seq!['"']);
    assert forall|k: int| 0 <= k < eb.len() implies t[1 + k] == #[trigger] eb[k] by {}
    lemma_str_back(x, t, 1, Seq::empty());
    assert(Seq::<char>::empty() + x =~= x);
    assert(skip_ws(t, 0) == 0);
    assert(skip_ws(t, t.len() as int) == t.len());
}

} // verus!
