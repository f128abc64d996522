use vstd::prelude::*;
use crate::formatter::{render, render_list};
use crate::parser::{is_delim, is_ws, parse_items, parse_spec, parse_term, rtrim, skip_ws, sym_end};
use crate::snapshot_json::{action_spec, action_text, action_view, find_arrow, keyword_is, rule_spec, rule_text, trim};
use crate::term::Term;
use crate::types::{RcxRule, RuleAction};

verus! {

/// A symbol name that reads back as itself: not empty, no `[`, `]` or `,`,
/// and no white space at either end.
pub open spec fn plain_symbol(n: Seq<char>) -> bool {
    &&& n.len() > 0
    &&& forall|k: int| 0 <= k < n.len() ==> !is_delim(#[trigger] n[k])
    &&& !is_ws(n[0])
    &&& !is_ws(n.last())
}

/// Every symbol in the term is plain.
pub open spec fn plain_term(t: Term) -> bool
    decreases t,
{
    match t {
        Term::Sym(n) => plain_symbol(n),
        Term::Node(cs) => forall|i: int| 0 <= i < cs.len() ==> plain_term(#[trigger] cs[i]),
    }
}

/// The texts of `cs[m..]`, comma-separated, built from the front.
pub open spec fn items_from(cs: Seq<Term>, m: int) -> Seq<char>
    decreases cs.len() - m,
{
    if m < 0 || m >= cs.len() {
        Seq::empty()
    } else if m == cs.len() - 1 {
        render(cs[m])
    } else {
        render(cs[m]) + seq![','] + items_from(cs, m + 1)
    }
}

proof fn lemma_items_split(cs: Seq<Term>, n: int)
    requires
        1 <= n <= cs.len(),
    ensures
        items_from(cs, 0) == render_list(cs, n) + (if n < cs.len() {
            seq![','] + items_from(cs, n)
        } else {
            Seq::empty()
        }),
    decreases n,
{
    if n > 1 {
        lemma_items_split(cs, n - 1);
        assert(items_from(cs, 0) =~= render_list(cs, n) + (if n < cs.len() {
            seq![','] + items_from(cs, n)
        } else {
            Seq::empty()
        }));
    } else {
        assert(items_from(cs, 0) =~= render_list(cs, n) + (if n < cs.len() {
            seq![','] + items_from(cs, n)
        } else {
            Seq::empty()
        }));
    }
}

proof fn lemma_render_first(t: Term)
    requires
        plain_term(t),
    ensures
        render(t).len() > 0,
        !is_ws(render(t)[0]),
        render(t)[0] != ']',
        render(t)[0] != ',',
{
    match t {
        Term::Sym(n) => {
            assert(!is_delim(n[0]));
        },
        Term::Node(cs) => {},
    }
}

proof fn lemma_sym_run(s: Seq<char>, p: int, e: int)
    requires
        0 <= p <= e <= s.len(),
        forall|q: int| p <= q < e ==> !is_delim(#[trigger] s[q]),
        e == s.len() || is_delim(s[e]),
    ensures
        sym_end(s, p) == e,
    decreases e - p,
{
    if p < e {
        lemma_sym_run(s, p + 1, e);
    }
}

/// `r` stands in `s` from `i` on.
pub open spec fn laid_out(s: Seq<char>, i: int, r: Seq<char>) -> bool {
    &&& 0 <= i
    &&& i + r.len() <= s.len()
    &&& forall|k: int| 0 <= k < r.len() ==> s[i + k] == #[trigger] r[k]
}

/// Position `e` of `s` is the end, `,` or `]`.
pub open spec fn closes(s: Seq<char>, e: int) -> bool {
    e == s.len() || (0 <= e < s.len() && (s[e] == ',' || s[e] == ']'))
}

proof fn lemma_parse_render(t: Term, s: Seq<char>, i: int)
    requires
        plain_term(t),
        laid_out(s, i, render(t)),
        t is Sym ==> closes(s, i + render(t).len()),
    ensures
        parse_term(s, i) == Some((t, i + render(t).len())),
    decreases t, 0int,
{
    let r = render(t);
    lemma_render_first(t);
    assert(s[i] == r[0]);
    assert(skip_ws(s, i) == i);
    match t {
        Term::Sym(n) => {
            assert(r == n);
            assert forall|q: int| i <= q < i + n.len() implies !is_delim(#[trigger] s[q]) by {
                assert(s[i + (q - i)] == r[q - i]);
                assert(!is_delim(n[q - i]));
            }
            assert(s[i] != '[');
            lemma_sym_run(s, i, i + n.len());
            assert(s.subrange(i, i + n.len()) =~= n);
            assert(!is_delim(n[0]));
            assert(rtrim(n) == n);
            assert(sym_end(s, i) == i + n.len());
            let name = rtrim(s.subrange(i, sym_end(s, i)));
            assert(name == n);
            assert(skip_ws(s, i) == i);
            assert(!(i < s.len() && s[i] == '['));
            assert(parse_term(s, i) == Some((Term::Sym(name), sym_end(s, i))));
        },
        Term::Node(cs) => {
            let body = render_list(cs, cs.len() as int);
            assert(r == seq!['['] + body + seq![']']);
            if cs.len() == 0 {
                assert(cs =~= Seq::<Term>::empty());
                assert(body =~= Seq::<char>::empty());
                assert(s[i + 1] == r[1]);
                assert(skip_ws(s, i + 1) == i + 1);
            } else {
                lemma_items_split(cs, cs.len() as int);
                assert(items_from(cs, 0) == body);
                lemma_render_first(cs[0]);
                assert(body.len() > 0) by {
                    assert(items_from(cs, 0) == render(cs[0]) + (if 0 < cs.len() - 1 {
                        seq![','] + items_from(cs, 1)
                    } else {
                        Seq::empty()
                    }));
                }
                assert(body[0] == render(cs[0])[0]) by {
                    assert(items_from(cs, 0) == render(cs[0]) + (if 0 < cs.len() - 1 {
                        seq![','] + items_from(cs, 1)
                    } else {
                        Seq::empty()
                    }));
                }
                assert(s[i + 1] == r[1]);
                assert(skip_ws(s, i + 1) == i + 1);
                assert forall|k: int| 0 <= k < body.len() implies s[i + 1 + k] == #[trigger] body[k] by {
                    assert(s[i + (1 + k)] == r[1 + k]);
                }
                assert(s[i + 1 + body.len()] == r[1 + body.len() as int]);
                assert(cs.subrange(0, 0) =~= Seq::<Term>::empty());
                lemma_parse_items(cs, 0, s, i + 1);
                assert(cs.subrange(0, cs.len() as int) =~= cs);
            }
        },
    }
}

proof fn lemma_parse_items(cs: Seq<Term>, m: int, s: Seq<char>, j: int)
    requires
        0 <= m < cs.len(),
        forall|q: int| 0 <= q < cs.len() ==> plain_term(#[trigger] cs[q]),
        0 <= j,
        j + items_from(cs, m).len() < s.len(),
        forall|k: int| 0 <= k < items_from(cs, m).len() ==> s[j + k] == #[trigger] items_from(cs, m)[k],
        s[j + items_from(cs, m).len()] == ']',
    ensures
        parse_items(s, j, cs.subrange(0, m)) == Some((cs.subrange(0, cs.len() as int), j + items_from(cs, m).len() + 1)),
    decreases cs, cs.len() - m,
{
    let r = render(cs[m]);
    let it = items_from(cs, m);
    lemma_render_first(cs[m]);
    assert(decreases_to!(cs => cs[m]));
    if m == cs.len() - 1 {
        assert(it == r);
        lemma_parse_render(cs[m], s, j);
        assert(skip_ws(s, j + r.len()) == j + r.len());
        assert(cs.subrange(0, m).push(cs[m]) =~= cs.subrange(0, cs.len() as int));
    } else {
        let rest = items_from(cs, m + 1);
        assert(it == r + seq![','] + rest);
        assert forall|k: int| 0 <= k < r.len() implies s[j + k] == #[trigger] r[k] by {
            assert(s[j + k] == it[k]);
        }
        assert(s[j + r.len()] == it[r.len() as int]);
        lemma_parse_render(cs[m], s, j);
        assert(skip_ws(s, j + r.len()) == j + r.len());
        assert forall|k: int| 0 <= k < rest.len() implies s[j + r.len() + 1 + k] == #[trigger] rest[k] by {
            assert(s[j + (r.len() + 1 + k)] == it[r.len() + 1 + k]);
        }
        assert(s[j + r.len() + 1 + rest.len()] == ']');
        lemma_parse_items(cs, m + 1, s, j + r.len() + 1);
        assert(cs.subrange(0, m).push(cs[m]) =~= cs.subrange(0, m + 1));
    }
}

/// The text of a term with plain symbols reads back as the same term.
pub proof fn law_term_text_round_trip(t: Term)
    requires
        plain_term(t),
    ensures
        parse_spec(render(t)) == Some(t),
{
    let s = render(t);
    lemma_parse_render(t, s, 0);
    assert(skip_ws(s, s.len() as int) == s.len());
}

/// No `->` inside `x`.
pub open spec fn arrow_free(x: Seq<char>) -> bool {
    forall|k: int| 0 <= k < x.len() - 1 ==> !(#[trigger] x[k] == '-' && x[k + 1] == '>')
}

/// A rule whose terms have plain symbols without `->`.
pub open spec fn plain_rule(r: RcxRule) -> bool {
    &&& plain_term(r.pattern@)
    &&& arrow_free(render(r.pattern@))
    &&& match r.action {
        RuleAction::Rewrite(m) => plain_term(m@) && arrow_free(render(m@)),
        _ => true,
    }
}

proof fn lemma_find_some(s: Seq<char>, i: int, p: int)
    requires
        0 <= i <= p,
        p + 1 < s.len(),
        s[p] == '-' && s[p + 1] == '>',
        forall|k: int| i <= k < p ==> !(#[trigger] s[k] == '-' && s[k + 1] == '>'),
    ensures
        find_arrow(s, i) == Some(p),
    decreases p - i,
{
    if i < p {
        lemma_find_some(s, i + 1, p);
    }
}

proof fn lemma_find_none(s: Seq<char>, i: int)
    requires
        0 <= i,
        forall|k: int| i <= k < s.len() - 1 ==> !(#[trigger] s[k] == '-' && s[k + 1] == '>'),
    ensures
        find_arrow(s, i) is None,
    decreases s.len() - i,
{
    if i + 1 < s.len() {
        lemma_find_none(s, i + 1);
    }
}

proof fn lemma_render_last(t: Term)
    requires
        plain_term(t),
    ensures
        render(t).len() > 0,
        !is_ws(render(t).last()),
{
    lemma_render_first(t);
}

/// A term's text followed by one space reads back as the term.
proof fn lemma_parse_padded(t: Term)
    requires
        plain_term(t),
    ensures
        parse_spec(render(t) + seq![' ']) == Some(t),
{
    let r = render(t);
    let x = r + seq![' '];
    lemma_render_first(t);
    assert(is_ws(' '));
    match t {
        Term::Sym(n) => {
            assert(r == n);
            assert forall|q: int| 0 <= q < x.len() implies !is_delim(#[trigger] x[q]) by {
                if q < n.len() {
                    assert(x[q] == n[q]);
                }
            }
            lemma_sym_run(x, 0, x.len() as int);
            assert(x[0] == n[0]);
            assert(skip_ws(x, 0) == 0);
            assert(x.subrange(0, x.len() as int) =~= x);
            assert(x.drop_last() =~= n);
            assert(rtrim(x) == rtrim(n));
            assert(rtrim(n) == n);
        },
        Term::Node(_) => {
            lemma_parse_render(t, x, 0);
            assert(x[r.len() as int] == ' ');
            assert(skip_ws(x, r.len() as int) == skip_ws(x, r.len() as int + 1));
        },
    }
}

/// A term's text after one space reads back as the term.
proof fn lemma_parse_after_space(t: Term)
    requires
        plain_term(t),
    ensures
        parse_spec(seq![' '] + render(t)) == Some(t),
{
    let r = render(t);
    let y = seq![' '] + r;
    lemma_render_first(t);
    assert(is_ws(' '));
    assert(y[1] == r[0]);
    assert(skip_ws(y, 0) == skip_ws(y, 1));
    assert(skip_ws(y, 1) == 1);
    assert forall|k: int| 0 <= k < r.len() implies y[1 + k] == #[trigger] r[k] by {}
    lemma_parse_render(t, y, 1);
    assert(parse_term(y, 0) == parse_term(y, 1));
}

proof fn reveal_rule_words()
    ensures
        " -> "@ == seq![' ', '-', '>', ' '],
        "ra"@ == seq!['r', 'a'],
        "lobe"@ == seq!['l', 'o', 'b', 'e'],
        "lobes"@ == seq!['l', 'o', 'b', 'e', 's'],
        "sink"@ == seq!['s', 'i', 'n', 'k'],
        "rewrite "@ == seq!['r', 'e', 'w', 'r', 'i', 't', 'e', ' '],
{
    reveal_strlit(" -> ");
    reveal_strlit("ra");
    reveal_strlit("lobe");
    reveal_strlit("lobes");
    reveal_strlit("sink");
    reveal_strlit("rewrite ");
    assert(" -> "@ =~= seq![' ', '-', '>', ' ']);
    assert("ra"@ =~= seq!['r', 'a']);
    assert("lobe"@ =~= seq!['l', 'o', 'b', 'e']);
    assert("lobes"@ =~= seq!['l', 'o', 'b', 'e', 's']);
    assert("sink"@ =~= seq!['s', 'i', 'n', 'k']);
    assert("rewrite "@ =~= seq!['r', 'e', 'w', 'r', 'i', 't', 'e', ' ']);
}

/// The action text of a plain rule: not empty, no white space at either end,
/// no `->`.
proof fn lemma_action_text(r: RcxRule)
    requires
        plain_rule(r),
    ensures
        action_text(r.action).len() > 0,
        !is_ws(action_text(r.action)[0]),
        !is_ws(action_text(r.action).last()),
        action_text(r.action)[0] != '-',
        arrow_free(action_text(r.action)),
{
    reveal_rule_words();
    let a = action_text(r.action);
    if let RuleAction::Rewrite(m) = r.action {
        let rm = render(m@);
        lemma_render_first(m@);
        assert(a == "rewrite "@ + rm);
        assert(a.last() == rm.last());
        assert forall|k: int| 0 <= k < a.len() - 1 implies !(#[trigger] a[k] == '-' && a[k + 1] == '>') by {
            if k >= 8 {
                assert(a[k] == rm[k - 8] && a[k + 1] == rm[k - 7]);
            }
        }
    }
}

proof fn lemma_rule_arrow(r: RcxRule)
    requires
        plain_rule(r),
    ensures
        find_arrow(rule_text(r), 0) == Some(render(r.pattern@).len() as int + 1),
        find_arrow(rule_text(r), render(r.pattern@).len() as int + 3) is None,
{
    reveal_rule_words();
    let rp = render(r.pattern@);
    let a = action_text(r.action);
    let s = rule_text(r);
    lemma_render_first(r.pattern@);
    lemma_action_text(r);
    assert(s == rp + " -> "@ + a);
    let p = rp.len() as int + 1;
    assert forall|k: int| 0 <= k < p implies !(#[trigger] s[k] == '-' && s[k + 1] == '>') by {
        if k < rp.len() - 1 {
            assert(s[k] == rp[k] && s[k + 1] == rp[k + 1]);
        }
    }
    lemma_find_some(s, 0, p);
    assert forall|k: int| p + 2 <= k < s.len() - 1 implies !(#[trigger] s[k] == '-' && s[k + 1] == '>') by {
        if k > p + 2 {
            assert(s[k] == a[k - p - 3] && s[k + 1] == a[k - p - 2]);
        }
    }
    lemma_find_none(s, p + 2);
}

proof fn lemma_action_back(r: RcxRule)
    requires
        plain_rule(r),
    ensures
        action_spec(action_text(r.action)) == Some(action_view(r.action)),
{
    reveal_rule_words();
    let a = action_text(r.action);
    match r.action {
        RuleAction::Rewrite(m) => {
            lemma_render_first(m@);
            assert(a == "rewrite "@ + render(m@));
            assert(a.subrange(0, 8) =~= "rewrite "@);
            assert(a.subrange(7, a.len() as int) =~= seq![' '] + render(m@));
            lemma_parse_after_space(m@);
        },
        RuleAction::ToRa => {},
        RuleAction::ToLobe => {
            assert(!keyword_is(a, "ra"@));
        },
        RuleAction::ToSink => {
            assert(!keyword_is(a, "ra"@));
            assert(!keyword_is(a, "lobe"@)) by {
                assert(a[0] == 's');
            }
            assert(!keyword_is(a, "lobes"@));
        },
    }
}

/// The text of a rule whose terms have plain symbols without `->` reads back as
/// the same pattern and action.
pub proof fn law_rule_text_round_trip(r: RcxRule)
    requires
        plain_rule(r),
    ensures
        rule_spec(rule_text(r)) == Some((r.pattern@, action_view(r.action))),
{
    reveal_rule_words();
    let rp = render(r.pattern@);
    let a = action_text(r.action);
    let s = rule_text(r);
    let p = rp.len() as int + 1;
    lemma_rule_arrow(r);
    lemma_action_text(r);
    assert(s == rp + " -> "@ + a);
    let tail = s.subrange(p + 2, s.len() as int);
    assert(tail =~= seq![' '] + a);
    assert(s.subrange(0, p) =~= rp + seq![' ']);
    lemma_parse_padded(r.pattern@);
    assert(is_ws(' '));
    assert(skip_ws(tail, 0) == skip_ws(tail, 1));
    assert(skip_ws(tail, 1) == 1);
    assert(tail.subrange(1, tail.len() as int) =~= a);
    assert(trim(tail) == a);
    lemma_action_back(r);
}

} // verus!
