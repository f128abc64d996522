use vstd::prelude::*;
use crate::term::{Mu, Term, children_of, lemma_node_view};
use crate::text::text_eq;

verus! {

/// Which symbols of a pattern are binders and whether `_` is a wildcard.
///
/// - `WildcardOnly`: `_` matches anything and binds nothing; no other binders.
/// - `LowerLetterVars`: a symbol of exactly one ASCII lowercase letter is a
///   variable; `_` is an ordinary symbol.
/// - `UpperLeadingVars`: a symbol whose first character is an ASCII uppercase
///   letter is a variable, and `_` is a wildcard.
#[derive(Debug, Clone, Copy, PartialEq, Eq, Structural)]
pub enum Convention {
    WildcardOnly,
    LowerLetterVars,
    UpperLeadingVars,
}

pub open spec fn is_wildcard(c: Convention, name: Seq<char>) -> bool {
    c != Convention::LowerLetterVars && name == seq!['_']
}

pub open spec fn is_binder(c: Convention, name: Seq<char>) -> bool {
    match c {
        Convention::WildcardOnly => false,
        Convention::LowerLetterVars => name.len() == 1 && 'a' <= name[0] <= 'z',
        Convention::UpperLeadingVars => name.len() >= 1 && 'A' <= name[0] <= 'Z',
    }
}

/// Matching `p` against the ground term `t`, extending the bindings `env`.
pub open spec fn match_term(c: Convention, p: Term, t: Term, env: Map<Seq<char>, Term>) -> Option<
    Map<Seq<char>, Term>,
>
    decreases p, 0int,
{
    match p {
        Term::Sym(n) => if is_wildcard(c, n) {
            Some(env)
        } else if is_binder(c, n) {
            if env.contains_key(n) {
                if env[n] == t {
                    Some(env)
                } else {
                    None
                }
            } else {
                Some(env.insert(n, t))
            }
        } else if t == Term::Sym(n) {
            Some(env)
        } else {
            None
        },
        Term::Node(ps) => match t {
            Term::Node(ts) => if ps.len() == ts.len() {
                match_children(c, ps, ts, env, ps.len() as int)
            } else {
                None
            },
            Term::Sym(_) => None,
        },
    }
}

/// Matching the first `n` children pairwise, left to right.
pub open spec fn match_children(
    c: Convention,
    ps: Seq<Term>,
    ts: Seq<Term>,
    env: Map<Seq<char>, Term>,
    n: int,
) -> Option<Map<Seq<char>, Term>>
    decreases ps, n,
{
    if n <= 0 || n > ps.len() {
        Some(env)
    } else {
        match match_children(c, ps, ts, env, n - 1) {
            None => None,
            Some(e) => match_term(c, ps[n - 1], ts[n - 1], e),
        }
    }
}

/// Instantiating a template: bound binders are replaced, all else is kept.
pub open spec fn subst_term(c: Convention, t: Term, env: Map<Seq<char>, Term>) -> Term
    decreases t,
{
    match t {
        Term::Sym(n) => if is_binder(c, n) && env.contains_key(n) {
            env[n]
        } else {
            t
        },
        Term::Node(cs) => Term::Node(
            Seq::new(
                cs.len(),
                |i: int|
                    if 0 <= i < cs.len() {
                        subst_term(c, cs[i], env)
                    } else {
                        t
                    },
            ),
        ),
    }
}

/// The binders of `p` not yet in `keys`, appended in order of first occurrence.
pub open spec fn binder_order(c: Convention, p: Term, keys: Seq<Seq<char>>) -> Seq<Seq<char>>
    decreases p, 0int,
{
    match p {
        Term::Sym(n) => if !is_wildcard(c, n) && is_binder(c, n) && !keys.contains(n) {
            keys.push(n)
        } else {
            keys
        },
        Term::Node(ps) => binder_order_children(c, ps, keys, ps.len() as int),
    }
}

/// `binder_order` over the first `n` children, left to right.
pub open spec fn binder_order_children(
    c: Convention,
    ps: Seq<Term>,
    keys: Seq<Seq<char>>,
    n: int,
) -> Seq<Seq<char>>
    decreases ps, n,
{
    if n <= 0 || n > ps.len() {
        keys
    } else {
        binder_order(c, ps[n - 1], binder_order_children(c, ps, keys, n - 1))
    }
}

/// The names of a list of bindings, in order.
pub open spec fn env_keys(s: Seq<(String, Mu)>) -> Seq<Seq<char>> {
    Seq::new(s.len(), |i: int| s[i].0@)
}

/// Variable bindings built during one match: name to bound term.
pub struct Env {
    pub entries: Vec<(String, Mu)>,
}

/// The bindings held by a list of entries.
pub open spec fn env_map(s: Seq<(String, Mu)>) -> Map<Seq<char>, Term>
    decreases s.len(),
{
    if s.len() == 0 {
        Map::empty()
    } else {
        env_map(s.drop_last()).insert(s.last().0@, s.last().1@)
    }
}

pub open spec fn keys_unique(s: Seq<(String, Mu)>) -> bool {
    forall|i: int, j: int| 0 <= i < j < s.len() ==> (#[trigger] s[i]).0@ != (#[trigger] s[j]).0@
}

proof fn lemma_env_absent(s: Seq<(String, Mu)>, k: Seq<char>)
    requires
        forall|i: int| 0 <= i < s.len() ==> (#[trigger] s[i]).0@ != k,
    ensures
        !env_map(s).contains_key(k),
    decreases s.len(),
{
    if s.len() > 0 {
        assert(forall|i: int| 0 <= i < s.drop_last().len() ==> s.drop_last()[i] == s[i]);
        lemma_env_absent(s.drop_last(), k);
    }
}

pub proof fn lemma_env_lookup(s: Seq<(String, Mu)>, i: int)
    requires
        keys_unique(s),
        0 <= i < s.len(),
    ensures
        env_map(s).contains_key(s[i].0@),
        env_map(s)[s[i].0@] == s[i].1@,
    decreases s.len(),
{
    if i < s.len() - 1 {
        let d = s.drop_last();
        assert(d[i] == s[i]);
        assert(keys_unique(d)) by {
            assert forall|a: int, b: int| 0 <= a < b < d.len() implies (#[trigger] d[a]).0@ != (
            #[trigger] d[b]).0@ by {
                assert(d[a] == s[a] && d[b] == s[b]);
            }
        }
        lemma_env_lookup(d, i);
        assert(s[i].0@ != s.last().0@);
    }
}

impl View for Env {
    type V = Map<Seq<char>, Term>;

    open spec fn view(&self) -> Map<Seq<char>, Term> {
        env_map(self.entries@)
    }
}

impl Env {
    pub open spec fn wf(&self) -> bool {
        keys_unique(self.entries@)
    }

    /// An environment with no bindings.
    pub fn new() -> (r: Env)
        ensures
            r.wf(),
            r@ == Map::<Seq<char>, Term>::empty(),
            r.entries@.len() == 0,
    {
        Env { entries: Vec::new() }
    }

    /// The term bound to `name`, if any.
    pub fn get(&self, name: &str) -> (r: Option<&Mu>)
        requires
            self.wf(),
        ensures
            r is Some <==> self@.contains_key(name@),
            r is Some ==> r->Some_0@ == self@[name@],
    {
        let mut i: usize = 0;
        while i < self.entries.len()
            invariant
                self.wf(),
                0 <= i <= self.entries@.len(),
                forall|j: int| 0 <= j < i ==> (#[trigger] self.entries@[j]).0@ != name@,
            decreases self.entries.len() - i,
        {
            if text_eq(self.entries[i].0.as_str(), name) {
                proof {
                    lemma_env_lookup(self.entries@, i as int);
                }
                return Some(&self.entries[i].1);
            }
            i += 1;
        }
        proof {
            lemma_env_absent(self.entries@, name@);
        }
        None
    }

    /// Adds a binding for a name that has none yet.
    pub fn bind(&mut self, name: String, value: Mu)
        requires
            old(self).wf(),
            !old(self)@.contains_key(name@),
        ensures
            final(self).wf(),
            final(self)@ == old(self)@.insert(name@, value@),
            final(self).entries@ == old(self).entries@.push((name, value)),
    {
        proof {
            assert forall|i: int| 0 <= i < self.entries@.len() implies (#[trigger] self.entries@[i]).0@
                != name@ by {
                if self.entries@[i].0@ == name@ {
                    lemma_env_lookup(self.entries@, i);
                }
            }
        }
        let ghost before = self.entries@;
        self.entries.push((name, value));
        proof {
            assert(self.entries@.drop_last() =~= before);
        }
    }

    /// The number of bindings.
    pub fn len(&self) -> (r: usize)
        ensures
            r == self.entries@.len(),
    {
        self.entries.len()
    }
}

/// Whether `name` is a binder under `c`.
pub fn binder(c: Convention, name: &str) -> (r: bool)
    ensures
        r == is_binder(c, name@),
{
    match c {
        Convention::WildcardOnly => false,
        Convention::LowerLetterVars => {
            if name.unicode_len() != 1 {
                return false;
            }
            let ch = name.get_char(0);
            'a' <= ch && ch <= 'z'
        },
        Convention::UpperLeadingVars => {
            if name.unicode_len() == 0 {
                return false;
            }
            let ch = name.get_char(0);
            'A' <= ch && ch <= 'Z'
        },
    }
}

/// Whether `name` is the wildcard under `c`.
pub fn wildcard(c: Convention, name: &str) -> (r: bool)
    ensures
        r == is_wildcard(c, name@),
{
    if c == Convention::LowerLetterVars {
        return false;
    }
    let r = name.unicode_len() == 1 && name.get_char(0) == '_';
    proof {
        if r {
            assert(name@ =~= seq!['_']);
        }
    }
    r
}

/// Matches `pattern` against `term` under `c`, extending `env`.
/// On success the bindings are those of `match_term`; on failure some
/// bindings may have been added.
pub fn match_with(c: Convention, pattern: &Mu, term: &Mu, env: &mut Env) -> (r: bool)
    requires
        old(env).wf(),
    ensures
        final(env).wf(),
        r == match_term(c, pattern@, term@, old(env)@) is Some,
        r ==> final(env)@ == match_term(c, pattern@, term@, old(env)@)->Some_0,
        r ==> env_keys(final(env).entries@) == binder_order(c, pattern@, env_keys(old(env).entries@)),
    decreases pattern,
{
    match pattern {
        Mu::Sym(name) => {
            if wildcard(c, name.as_str()) {
                return true;
            }
            if binder(c, name.as_str()) {
                let ghost keys = env_keys(env.entries@);
                match env.get(name.as_str()) {
                    Some(bound) => {
                        proof {
                            if !keys.contains(name@) {
                                assert forall|i: int| 0 <= i < env.entries@.len() implies (
                                #[trigger] env.entries@[i]).0@ != name@ by {
                                    assert(keys[i] == env.entries@[i].0@);
                                }
                                lemma_env_absent(env.entries@, name@);
                            }
                        }
                        crate::term::mu_eq(bound, term)
                    },
                    None => {
                        proof {
                            if keys.contains(name@) {
                                let i = choose|i: int| 0 <= i < keys.len() && keys[i] == name@;
                                lemma_env_lookup(env.entries@, i);
                            }
                        }
                        let ghost before = env.entries@;
                        env.bind(name.clone(), term.clone());
                        proof {
                            assert(env_keys(env.entries@) =~= keys.push(name@));
                        }
                        true
                    },
                }
            } else {
                match term {
                    Mu::Sym(other) => other.eq(name),
                    Mu::Node(_) => false,
                }
            }
        },
        Mu::Node(ps) => {
            proof {
                lemma_node_view(*ps);
            }
            let ts = match term {
                Mu::Sym(_) => {
                    return false;
                },
                Mu::Node(ts) => ts,
            };
            proof {
                lemma_node_view(*ts);
            }
            if ps.len() != ts.len() {
                return false;
            }
            let ghost pv = children_of(ps@);
            let ghost tv = children_of(ts@);
            let ghost env0 = env@;
            let ghost keys0 = env_keys(env.entries@);
            proof {
                assert(decreases_to!(*pattern => *ps));
            }
            let mut i: usize = 0;
            while i < ps.len()
                invariant
                    decreases_to!(*pattern => *ps),
                    pattern@ == Term::Node(pv),
                    term@ == Term::Node(tv),
                    pv == children_of(ps@),
                    tv == children_of(ts@),
                    ps.len() == ts.len(),
                    0 <= i <= ps.len(),
                    env0 == old(env)@,
                    env.wf(),
                    match_children(c, pv, tv, env0, i as int) == Some(env@),
                    keys0 == env_keys(old(env).entries@),
                    env_keys(env.entries@) == binder_order_children(c, pv, keys0, i as int),
                decreases ps.len() - i,
            {
                proof {
                    assert(decreases_to!(*ps => ps[i as int]));
                }
                let ghost before = env@;
                let ok = match_with(c, &ps[i], &ts[i], env);
                proof {
                    assert(match_children(c, pv, tv, env0, i + 1) == match_term(
                        c,
                        pv[i as int],
                        tv[i as int],
                        before,
                    ));
                }
                if !ok {
                    proof {
                        lemma_children_none(c, pv, tv, env0, i as int + 1, ps.len() as int);
                    }
                    return false;
                }
                i += 1;
            }
            true
        },
    }
}

proof fn lemma_children_none(
    c: Convention,
    ps: Seq<Term>,
    ts: Seq<Term>,
    env: Map<Seq<char>, Term>,
    k: int,
    n: int,
)
    requires
        1 <= k <= n <= ps.len(),
        match_children(c, ps, ts, env, k) is None,
    ensures
        match_children(c, ps, ts, env, n) is None,
    decreases n - k,
{
    if k < n {
        lemma_children_none(c, ps, ts, env, k + 1, n);
    }
}

/// Instantiates `template` with the bindings of `env` under `c`.
pub fn subst_with(c: Convention, template: &Mu, env: &Env) -> (r: Mu)
    requires
        env.wf(),
    ensures
        r@ == subst_term(c, template@, env@),
    decreases template,
{
    match template {
        Mu::Sym(name) => {
            if binder(c, name.as_str()) {
                match env.get(name.as_str()) {
                    Some(bound) => bound.clone(),
                    None => Mu::Sym(name.clone()),
                }
            } else {
                Mu::Sym(name.clone())
            }
        },
        Mu::Node(cs) => {
            proof {
                lemma_node_view(*cs);
                assert(decreases_to!(*template => *cs));
            }
            let mut out: Vec<Mu> = Vec::new();
            let mut i: usize = 0;
            while i < cs.len()
                invariant
                    decreases_to!(*template => *cs),
                    env.wf(),
                    0 <= i <= cs.len(),
                    out@.len() == i,
                    forall|j: int|
                        0 <= j < i ==> (#[trigger] out@[j])@ == subst_term(c, cs@[j]@, env@),
                decreases cs.len() - i,
            {
                proof {
                    assert(decreases_to!(*cs => cs[i as int]));
                }
                out.push(subst_with(c, &cs[i], env));
                i += 1;
            }
            proof {
                lemma_node_view(out);
                let tv = children_of(cs@);
                assert(template@ == Term::Node(tv));
                assert(subst_term(c, template@, env@)->Node_0 =~= children_of(out@));
            }
            Mu::Node(out)
        },
    }
}

/// Matches with single-lowercase-letter variables (`x`, `y`, ...), filling `env`.
pub fn match_pattern(pattern: &Mu, term: &Mu, env: &mut Env) -> (r: bool)
    requires
        old(env).wf(),
    ensures
        final(env).wf(),
        r == match_term(Convention::LowerLetterVars, pattern@, term@, old(env)@) is Some,
        r ==> final(env)@ == match_term(Convention::LowerLetterVars, pattern@, term@, old(env)@)->Some_0,
{
    match_with(Convention::LowerLetterVars, pattern, term, env)
}

/// Replaces bound single-lowercase-letter variables of `template`.
pub fn substitute_template(template: &Mu, env: &Env) -> (r: Mu)
    requires
        env.wf(),
    ensures
        r@ == subst_term(Convention::LowerLetterVars, template@, env@),
{
    subst_with(Convention::LowerLetterVars, template, env)
}

/// Wildcard-only matching: `_` matches any term, nothing is bound.
pub fn mu_matches(pattern: &Mu, value: &Mu) -> (r: bool)
    ensures
        r == match_term(Convention::WildcardOnly, pattern@, value@, Map::empty()) is Some,
{
    let mut env = Env::new();
    match_with(Convention::WildcardOnly, pattern, value, &mut env)
}

/// Bindings produced by `unify`.
pub type Subst = Env;

/// Matches with uppercase-leading variables and `_` as wildcard; the bindings on success.
pub fn unify(pattern: &Mu, value: &Mu) -> (r: Option<Subst>)
    ensures
        r is Some <==> match_term(Convention::UpperLeadingVars, pattern@, value@, Map::empty()) is Some,
        r is Some ==> r->Some_0.wf() && r->Some_0@ == match_term(
            Convention::UpperLeadingVars,
            pattern@,
            value@,
            Map::empty(),
        )->Some_0,
{
    let mut env = Env::new();
    if match_with(Convention::UpperLeadingVars, pattern, value, &mut env) {
        Some(env)
    } else {
        None
    }
}

/// Replaces bound uppercase-leading variables of `template`.
pub fn apply_subst(template: &Mu, subst: &Subst) -> (r: Mu)
    requires
        subst.wf(),
    ensures
        r@ == subst_term(Convention::UpperLeadingVars, template@, subst@),
{
    subst_with(Convention::UpperLeadingVars, template, subst)
}

} // verus!
