use vstd::prelude::*;
use vstd::string::*;
use crate::term::{Mu, Term, children_of, lemma_node_view};

verus! {

/// Unicode white space (the `White_Space` property).
pub open spec fn is_ws(c: char) -> bool {
    let n = c as u32;
    (0x09 <= n && n <= 0x0d) || n == 0x20 || n == 0x85 || n == 0xa0 || n == 0x1680 || (0x2000 <= n
        && n <= 0x200a) || n == 0x2028 || n == 0x2029 || n == 0x202f || n == 0x205f || n == 0x3000
}

pub fn is_ws_char(c: char) -> (r: bool)
    ensures
        r == is_ws(c),
{
    let n = c as u32;
    (0x09 <= n && n <= 0x0d) || n == 0x20 || n == 0x85 || n == 0xa0 || n == 0x1680 || (0x2000 <= n
        && n <= 0x200a) || n == 0x2028 || n == 0x2029 || n == 0x202f || n == 0x205f || n == 0x3000
}

/// The characters that delimit symbols.
pub open spec fn is_delim(c: char) -> bool {
    c == '[' || c == ']' || c == ','
}

/// The first position at or after `i` that holds no white space.
pub open spec fn skip_ws(s: Seq<char>, i: int) -> int
    decreases s.len() - i,
{
    if 0 <= i < s.len() && is_ws(s[i]) {
        skip_ws(s, i + 1)
    } else {
        i
    }
}

/// The first position at or after `i` that holds a delimiter, or the end.
pub open spec fn sym_end(s: Seq<char>, i: int) -> int
    decreases s.len() - i,
{
    if 0 <= i < s.len() && !is_delim(s[i]) {
        sym_end(s, i + 1)
    } else {
        i
    }
}

/// `x` without trailing white space.
pub open spec fn rtrim(x: Seq<char>) -> Seq<char>
    decreases x.len(),
{
    if x.len() > 0 && is_ws(x.last()) {
        rtrim(x.drop_last())
    } else {
        x
    }
}

/// Reads one term starting at `i` (after optional white space): the term and
/// the position after it.
///
/// A term is a symbol, a maximal run of characters other than `[`, `]` and `,`
/// with surrounding white space removed and not empty; or a node, `[` followed
/// by terms separated by `,` and then `]`.
pub open spec fn parse_term(s: Seq<char>, i: int) -> Option<(Term, int)>
    decreases s.len() - i, 0int,
{
    let j = skip_ws(s, i);
    if j < i || j > s.len() {
        None
    } else if j < s.len() && s[j] == '[' {
        let k = skip_ws(s, j + 1);
        if k < s.len() && s[k] == ']' {
            Some((Term::Node(Seq::empty()), k + 1))
        } else {
            match parse_items(s, j + 1, Seq::empty()) {
                Some((cs, e)) => Some((Term::Node(cs), e)),
                None => None,
            }
        }
    } else {
        let name = rtrim(s.subrange(j, sym_end(s, j)));
        if name.len() == 0 || sym_end(s, j) < j || sym_end(s, j) > s.len() {
            None
        } else {
            Some((Term::Sym(name), sym_end(s, j)))
        }
    }
}

/// Reads the items of a node from `i` on, after the items `acc` already read,
/// up to and including the closing `]`.
pub open spec fn parse_items(s: Seq<char>, i: int, acc: Seq<Term>) -> Option<(Seq<Term>, int)>
    decreases s.len() - i, 1int,
{
    match parse_term(s, i) {
        None => None,
        Some((t, k)) => {
            let m = skip_ws(s, k);
            if k <= i || m < k || m >= s.len() {
                None
            } else if s[m] == ',' {
                parse_items(s, m + 1, acc.push(t))
            } else if s[m] == ']' {
                Some((acc.push(t), m + 1))
            } else {
                None
            }
        }
    }
}

/// The term that the whole of `s` spells, white space around it allowed.
pub open spec fn parse_spec(s: Seq<char>) -> Option<Term> {
    match parse_term(s, 0) {
        Some((t, k)) => if skip_ws(s, k) == s.len() {
            Some(t)
        } else {
            None
        },
        None => None,
    }
}

proof fn lemma_sym_end(s: Seq<char>, i: int)
    requires
        0 <= i <= s.len(),
    ensures
        i <= sym_end(s, i) <= s.len(),
    decreases s.len() - i,
{
    if i < s.len() && !is_delim(s[i]) {
        lemma_sym_end(s, i + 1);
    }
}

fn skip_ws_exec(s: &str, n: usize, i: usize) -> (r: usize)
    requires
        n == s@.len(),
        i <= n,
    ensures
        r == skip_ws(s@, i as int),
        i <= r <= n,
{
    let mut j = i;
    while j < n && is_ws_char(s.get_char(j))
        invariant
            n == s@.len(),
            i <= j <= n,
            skip_ws(s@, i as int) == skip_ws(s@, j as int),
        decreases n - j,
    {
        j += 1;
    }
    j
}

/// Reads a term from position `i`; see `parse_term`.
fn parse_term_exec(s: &str, n: usize, i: usize) -> (r: Option<(Mu, usize)>)
    requires
        n == s@.len(),
        i <= n,
    ensures
        match (r, parse_term(s@, i as int)) {
            (Some((m, k)), Some((t, e))) => m@ == t && k == e && k <= n,
            (None, None) => true,
            _ => false,
        },
    decreases n - i, 0int,
{
    let j = skip_ws_exec(s, n, i);
    if j < n && s.get_char(j) == '[' {
        let k = skip_ws_exec(s, n, j + 1);
        if k < n && s.get_char(k) == ']' {
            let v: Vec<Mu> = Vec::new();
            proof {
                lemma_node_view(v);
                assert(children_of(v@) =~= Seq::<Term>::empty());
            }
            return Some((Mu::Node(v), k + 1));
        }
        let mut items: Vec<Mu> = Vec::new();
        proof {
            assert(children_of(items@) =~= Seq::<Term>::empty());
        }
        match parse_items_exec(s, n, j + 1, &mut items) {
            Some(e) => {
                proof {
                    lemma_node_view(items);
                }
                Some((Mu::Node(items), e))
            },
            None => None,
        }
    } else {
        let mut e = j;
        while e < n && !is_delim_char(s.get_char(e))
            invariant
                n == s@.len(),
                j <= e <= n,
                sym_end(s@, j as int) == sym_end(s@, e as int),
            decreases n - e,
        {
            e += 1;
        }
        let mut t = e;
        while t > j && is_ws_char(s.get_char(t - 1))
            invariant
                n == s@.len(),
                j <= t <= e <= n,
                rtrim(s@.subrange(j as int, e as int)) == rtrim(s@.subrange(j as int, t as int)),
            decreases t,
        {
            proof {
                assert(s@.subrange(j as int, t as int).drop_last() =~= s@.subrange(j as int, t - 1));
            }
            t -= 1;
        }
        proof {
            lemma_sym_end(s@, j as int);
            assert(e == sym_end(s@, j as int));
            assert(rtrim(s@.subrange(j as int, t as int)) == s@.subrange(j as int, t as int));
        }
        if t == j {
            return None;
        }
        let mut name = String::new();
        let mut p = j;
        while p < t
            invariant
                n == s@.len(),
                j <= p <= t <= n,
                name@ == s@.subrange(j as int, p as int),
            decreases t - p,
        {
            crate::text::push_char(&mut name, s.get_char(p));
            proof {
                assert(name@ =~= s@.subrange(j as int, p + 1));
            }
            p += 1;
        }
        proof {
            assert(name@ =~= s@.subrange(j as int, t as int));
            assert(parse_term(s@, i as int) == Some((Term::Sym(name@), e as int)));
        }
        Some((Mu::Sym(name), e))
    }
}

fn is_delim_char(c: char) -> (r: bool)
    ensures
        r == is_delim(c),
{
    c == '[' || c == ']' || c == ','
}

/// Reads the items of a node from `i` on, appending them to `items`.
fn parse_items_exec(s: &str, n: usize, i: usize, items: &mut Vec<Mu>) -> (r: Option<usize>)
    requires
        n == s@.len(),
        i <= n,
    ensures
        match (r, parse_items(s@, i as int, children_of(old(items)@))) {
            (Some(k), Some((cs, e))) => children_of(final(items)@) == cs && k == e && k <= n,
            (None, None) => true,
            _ => false,
        },
    decreases n - i, 1int,
{
    let ghost acc = children_of(items@);
    match parse_term_exec(s, n, i) {
        None => None,
        Some((t, k)) => {
            let m = skip_ws_exec(s, n, k);
            if k <= i || m >= n {
                return None;
            }
            let ghost tv = t@;
            let ghost before = items@;
            items.push(t);
            proof {
                assert(children_of(items@) =~= acc.push(tv));
            }
            let c = s.get_char(m);
            if c == ',' {
                parse_items_exec(s, n, m + 1, items)
            } else if c == ']' {
                Some(m + 1)
            } else {
                None
            }
        },
    }
}

/// Reads a term from text: see `parse_term` for the grammar.
pub fn parse_mu(input: &str) -> (r: Result<Mu, String>)
    ensures
        r is Ok <==> parse_spec(input@) is Some,
        r is Ok ==> r->Ok_0@ == parse_spec(input@)->Some_0,
{
    let n = input.unicode_len();
    match parse_term_exec(input, n, 0) {
        Some((m, k)) => {
            if skip_ws_exec(input, n, k) == n {
                Ok(m)
            } else {
                Err(String::from_str("unexpected text after term"))
            }
        },
        None => Err(String::from_str("malformed term")),
    }
}

} // verus!
