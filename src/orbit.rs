use vstd::prelude::*;
use vstd::string::*;
use crate::matching::{
    Convention,
    Env,
    binder_order,
    env_keys,
    lemma_env_lookup,
    match_term,
    match_with,
    subst_term,
    subst_with,
};
use crate::term::{Mu, Term, children_of, mu_eq, opt_view};
use crate::text::{decimal, push_decimal, push_text};
use crate::types::{RcxProgram, RcxRule, RuleAction};

verus! {

/// Matching with single-lowercase-letter variables from no bindings.
pub open spec fn var_match(p: Term, t: Term) -> Option<Map<Seq<char>, Term>> {
    match_term(Convention::LowerLetterVars, p, t, Map::empty())
}

/// The index of the first of the first `n` rules that rewrites and whose
/// pattern matches `t`.
pub open spec fn first_rewrite(rules: Seq<RcxRule>, t: Term, n: int) -> Option<int>
    decreases n,
{
    if n <= 0 {
        None
    } else {
        match first_rewrite(rules, t, n - 1) {
            Some(k) => Some(k),
            None => if rules[n - 1].action is Rewrite && var_match(rules[n - 1].pattern@, t) is Some {
                Some(n - 1)
            } else {
                None
            },
        }
    }
}

/// The term that one rewrite step makes of `t`, if a rewrite rule applies.
pub open spec fn rewrite_step(rules: Seq<RcxRule>, t: Term) -> Option<Term> {
    match first_rewrite(rules, t, rules.len() as int) {
        Some(k) => Some(
            subst_term(
                Convention::LowerLetterVars,
                rules[k].action->Rewrite_0@,
                var_match(rules[k].pattern@, t)->Some_0,
            ),
        ),
        None => None,
    }
}

/// The orbit of `t`: `t`, then up to `n` rewrite steps, stopping early where no
/// rule applies.
pub open spec fn orbit_seq(rules: Seq<RcxRule>, t: Term, n: nat) -> Seq<Term>
    decreases n,
{
    if n == 0 {
        seq![t]
    } else {
        match rewrite_step(rules, t) {
            Some(u) => seq![t] + orbit_seq(rules, u, (n - 1) as nat),
            None => seq![t],
        }
    }
}

proof fn lemma_first_rewrite_stays(rules: Seq<RcxRule>, t: Term, k: int, n: int)
    requires
        1 <= k <= n,
        first_rewrite(rules, t, k) is Some,
    ensures
        first_rewrite(rules, t, n) == first_rewrite(rules, t, k),
    decreases n - k,
{
    if k < n {
        lemma_first_rewrite_stays(rules, t, k + 1, n);
    }
}

proof fn lemma_first_rewrite_hit(rules: Seq<RcxRule>, t: Term, n: int)
    ensures
        first_rewrite(rules, t, n) matches Some(k) ==> 0 <= k < n && rules[k].action is Rewrite
            && var_match(rules[k].pattern@, t) is Some,
    decreases n,
{
    if n > 0 {
        lemma_first_rewrite_hit(rules, t, n - 1);
    }
}

/// The bindings of matching `pattern` against `t`: as a map, and as a list in
/// the order the pattern's variables first occur.
pub open spec fn bindings_of(env: Env, pattern: Term, t: Term) -> bool {
    &&& env.wf()
    &&& env@ == var_match(pattern, t)->Some_0
    &&& env_keys(env.entries@) == binder_order(Convention::LowerLetterVars, pattern, Seq::empty())
    &&& forall|k: int|
        0 <= k < env.entries@.len() ==> (#[trigger] env.entries@[k]).1@ == env@[env.entries@[k].0@]
}

/// Which rule fired at one step of an orbit, and with which bindings.
pub struct Provenance {
    pub i: usize,
    pub rule_i: usize,
    pub pattern: Mu,
    pub template: Mu,
    pub bindings: Env,
}

/// One rewrite step on `current`: the rule's index, the bindings and the result.
fn rewrite_once(program: &RcxProgram, current: &Mu) -> (r: Option<(usize, Env, Mu)>)
    ensures
        r is Some <==> first_rewrite(program.rules@, current@, program.rules@.len() as int) is Some,
        r is Some ==> {
            let (k, env, next) = r->Some_0;
            &&& first_rewrite(program.rules@, current@, program.rules@.len() as int) == Some(k as int)
            &&& bindings_of(env, program.rules@[k as int].pattern@, current@)
            &&& Some(next@) == rewrite_step(program.rules@, current@)
        },
{
    let rules = &program.rules;
    let mut i: usize = 0;
    while i < rules.len()
        invariant
            rules@ == program.rules@,
            0 <= i <= rules@.len(),
            first_rewrite(rules@, current@, i as int) is None,
        decreases rules.len() - i,
    {
        if let RuleAction::Rewrite(template) = &rules[i].action {
            let mut env = Env::new();
            proof {
                assert(env_keys(env.entries@) =~= Seq::<Seq<char>>::empty());
            }
            if match_with(Convention::LowerLetterVars, &rules[i].pattern, current, &mut env) {
                proof {
                    assert forall|k: int| 0 <= k < env.entries@.len() implies (
                    #[trigger] env.entries@[k]).1@ == env@[env.entries@[k].0@] by {
                        lemma_env_lookup(env.entries@, k);
                    }
                    assert(first_rewrite(rules@, current@, i + 1) == Some(i as int));
                    lemma_first_rewrite_stays(rules@, current@, i as int + 1, rules@.len() as int);
                }
                let next = subst_with(Convention::LowerLetterVars, template, &env);
                return Some((i, env, next));
            }
        }
        i += 1;
    }
    None
}

/// One rewrite step on `current` under the program's rewrite rules.
pub fn step_once(program: &RcxProgram, current: &Mu) -> (r: Option<Mu>)
    ensures
        opt_view(r) == rewrite_step(program.rules@, current@),
{
    match rewrite_once(program, current) {
        Some((_, _, next)) => Some(next),
        None => None,
    }
}

/// The orbit of `seed` with the provenance of each step.
pub fn orbit_with_provenance(program: &RcxProgram, seed: Mu, max_steps: usize) -> (r: (
    Vec<Mu>,
    Vec<Provenance>,
))
    ensures
        children_of(r.0@) == orbit_seq(program.rules@, seed@, max_steps as nat),
        r.0@.len() <= max_steps + 1,
        r.1@.len() + 1 == r.0@.len(),
        forall|j: int|
            0 <= j < r.1@.len() ==> {
                let p = #[trigger] r.1@[j];
                &&& p.i == j + 1
                &&& first_rewrite(program.rules@, r.0@[j]@, program.rules@.len() as int) == Some(
                    p.rule_i as int,
                )
                &&& p.pattern@ == program.rules@[p.rule_i as int].pattern@
                &&& p.template@ == program.rules@[p.rule_i as int].action->Rewrite_0@
                &&& bindings_of(p.bindings, p.pattern@, r.0@[j]@)
            },
{
    let ghost rules = program.rules@;
    let mut seq: Vec<Mu> = Vec::new();
    let mut prov: Vec<Provenance> = Vec::new();
    seq.push(seed.clone());
    let mut current = seed;
    let mut i: usize = 0;
    let mut done = false;
    proof {
        assert(children_of(seq@).drop_last() + orbit_seq(rules, current@, max_steps as nat) =~= orbit_seq(
            rules,
            current@,
            max_steps as nat,
        ));
    }
    while !done && i < max_steps
        invariant
            rules == program.rules@,
            0 <= i <= max_steps,
            seq@.len() == i + 1,
            prov@.len() == i,
            seq@.last()@ == current@,
            children_of(seq@).drop_last() + orbit_seq(rules, current@, (max_steps - i) as nat)
                == orbit_seq(rules, seed@, max_steps as nat),
            done ==> rewrite_step(rules, current@) is None,
            forall|j: int|
                0 <= j < prov@.len() ==> {
                    let p = #[trigger] prov@[j];
                    &&& p.i == j + 1
                    &&& first_rewrite(rules, seq@[j]@, rules.len() as int) == Some(p.rule_i as int)
                    &&& p.pattern@ == rules[p.rule_i as int].pattern@
                    &&& p.template@ == rules[p.rule_i as int].action->Rewrite_0@
                    &&& bindings_of(p.bindings, p.pattern@, seq@[j]@)
                },
        decreases max_steps - i + if done { 0int } else { 1int },
    {
        match rewrite_once(program, &current) {
            Some((k, env, next)) => {
                proof {
                    lemma_first_rewrite_hit(rules, current@, rules.len() as int);
                }
                let ghost old_seq = seq@;
                let ghost old_cur = current@;
                let rule = &program.rules[k];
                let template = match &rule.action {
                    RuleAction::Rewrite(t) => t.clone(),
                    _ => rule.pattern.clone(),
                };
                prov.push(
                    Provenance {
                        i: i + 1,
                        rule_i: k,
                        pattern: rule.pattern.clone(),
                        template,
                        bindings: env,
                    },
                );
                current = next;
                seq.push(current.clone());
                proof {
                    assert(old_seq[i as int]@ == old_cur);
                    assert(orbit_seq(rules, old_cur, (max_steps - i) as nat) == seq![old_cur]
                        + orbit_seq(rules, current@, (max_steps - i - 1) as nat));
                    assert(children_of(seq@).drop_last() =~= children_of(old_seq).drop_last()
                        + seq![old_cur]);
                    assert(forall|j: int| 0 <= j < old_seq.len() ==> seq@[j] == old_seq[j]);
                }
                i += 1;
            },
            None => {
                done = true;
            },
        }
    }
    proof {
        let rest = orbit_seq(rules, current@, (max_steps - i) as nat);
        assert(rest == seq![current@]);
        assert(children_of(seq@) =~= children_of(seq@).drop_last() + rest);
    }
    (seq, prov)
}

/// The orbit of `seed`: `seed` followed by the terms of up to `max_steps`
/// rewrite steps.
pub fn orbit(program: &RcxProgram, seed: Mu, max_steps: usize) -> (r: Vec<Mu>)
    ensures
        children_of(r@) == orbit_seq(program.rules@, seed@, max_steps as nat),
        r@.len() <= max_steps + 1,
{
    orbit_with_provenance(program, seed, max_steps).0
}

/// An orbit of at most `n` steps holds at most `n + 1` terms, and at least its seed.
pub proof fn law_orbit_length(rules: Seq<RcxRule>, seed: Term, n: nat)
    ensures
        1 <= orbit_seq(rules, seed, n).len() <= n + 1,
        orbit_seq(rules, seed, n)[0] == seed,
    decreases n,
{
    if n > 0 {
        if let Some(u) = rewrite_step(rules, seed) {
            law_orbit_length(rules, u, (n - 1) as nat);
        }
    }
}

/// The smallest `i` with `1 <= i < n` and `s[i] == s[0]`.
pub open spec fn first_return(s: Seq<Term>, n: int) -> Option<int>
    decreases n,
{
    if n <= 1 {
        None
    } else {
        match first_return(s, n - 1) {
            Some(i) => Some(i),
            None => if s[n - 1] == s[0] {
                Some(n - 1)
            } else {
                None
            },
        }
    }
}

/// `s` repeats its first `p` terms throughout.
pub open spec fn periodic(s: Seq<Term>, p: int) -> bool {
    forall|k: int| 0 <= k < s.len() ==> #[trigger] s[k] == s[k % p]
}

/// The largest `j < n` with `s[j] == x`.
pub open spec fn last_before(s: Seq<Term>, x: Term, n: int) -> Option<int>
    decreases n,
{
    if n <= 0 {
        None
    } else if s[n - 1] == x {
        Some(n - 1)
    } else {
        last_before(s, x, n - 1)
    }
}

pub open spec fn cycle_label(p: nat) -> Seq<char> {
    "pure limit cycle (period = "@ + decimal(p) + ")"@
}

/// The label of a cycle found from the last term: transient `t`, period `p`.
pub open spec fn tail_label(t: nat, p: nat) -> Seq<char> {
    if p == 1 {
        if t == 0 {
            "fixed point"@
        } else {
            "transient of length "@ + decimal(t) + " then fixed point"@
        }
    } else if t == 0 {
        cycle_label(p)
    } else {
        "transient of length "@ + decimal(t) + " then limit cycle (period = "@ + decimal(p) + ")"@
    }
}

/// The long-run label of an orbit: a pure cycle through the seed first, else a
/// cycle closed by the last term, else none.
pub open spec fn orbit_label(s: Seq<Term>) -> Seq<char> {
    if s.len() == 0 {
        "empty orbit (no states produced)"@
    } else if s.len() == 1 {
        "no detected cycle up to 1 step"@
    } else if first_return(s, s.len() as int) is Some && periodic(
        s,
        first_return(s, s.len() as int)->Some_0,
    ) {
        if first_return(s, s.len() as int)->Some_0 == 1 {
            "fixed point"@
        } else {
            cycle_label(first_return(s, s.len() as int)->Some_0 as nat)
        }
    } else {
        match last_before(s, s.last(), s.len() - 1) {
            Some(j) => tail_label(j as nat, (s.len() - 1 - j) as nat),
            None => "no detected cycle up to "@ + decimal(s.len()) + " steps"@,
        }
    }
}

proof fn lemma_first_return_hit(s: Seq<Term>, n: int)
    ensures
        first_return(s, n) matches Some(i) ==> 1 <= i < n && s[i] == s[0],
    decreases n,
{
    if n > 1 {
        lemma_first_return_hit(s, n - 1);
    }
}

proof fn lemma_first_return_stays(s: Seq<Term>, k: int, n: int)
    requires
        k <= n,
        first_return(s, k) is Some,
    ensures
        first_return(s, n) == first_return(s, k),
    decreases n - k,
{
    if k < n {
        lemma_first_return_stays(s, k + 1, n);
    }
}

/// Appends the label of a cycle closed by the last term.
fn push_tail_label(out: &mut String, t: usize, p: usize)
    ensures
        final(out)@ == old(out)@ + tail_label(t as nat, p as nat),
{
    if p == 1 {
        if t == 0 {
            push_text(out, "fixed point");
        } else {
            push_text(out, "transient of length ");
            push_decimal(out, t as u64);
            push_text(out, " then fixed point");
        }
    } else if t == 0 {
        push_text(out, "pure limit cycle (period = ");
        push_decimal(out, p as u64);
        push_text(out, ")");
    } else {
        push_text(out, "transient of length ");
        push_decimal(out, t as u64);
        push_text(out, " then limit cycle (period = ");
        push_decimal(out, p as u64);
        push_text(out, ")");
    }
    proof {
        assert(final(out)@ =~= old(out)@ + tail_label(t as nat, p as nat));
    }
}

/// Describes the long-run behaviour of an orbit.
pub fn classify_orbit(seq: &[Mu]) -> (r: String)
    ensures
        r@ == orbit_label(children_of(seq@)),
{
    let ghost s = children_of(seq@);
    let n = seq.len();
    let mut out = String::new();
    if n == 0 {
        push_text(&mut out, "empty orbit (no states produced)");
        return out;
    }
    if n == 1 {
        push_text(&mut out, "no detected cycle up to 1 step");
        return out;
    }
    let mut i: usize = 1;
    let mut found = false;
    while !found && i < n
        invariant
            s == children_of(seq@),
            n == seq@.len(),
            1 <= i <= n,
            found ==> i < n && first_return(s, n as int) == Some(i as int),
            !found ==> first_return(s, i as int) is None,
        decreases n - i + if found { 0int } else { 1int },
    {
        if mu_eq(&seq[i], &seq[0]) {
            proof {
                assert(first_return(s, i + 1) == Some(i as int));
                lemma_first_return_stays(s, i as int + 1, n as int);
            }
            found = true;
        } else {
            i += 1;
        }
    }
    if found {
        let period = i;
        let mut k: usize = 0;
        let mut pure = true;
        while pure && k < n
            invariant
                s == children_of(seq@),
                n == seq@.len(),
                1 <= period < n,
                0 <= k <= n,
                forall|m: int| 0 <= m < k ==> #[trigger] s[m] == s[m % period as int],
                !pure ==> k < n && s[k as int] != s[k as int % period as int],
            decreases n - k + if pure { 1int } else { 0int },
        {
            if mu_eq(&seq[k], &seq[k % period]) {
                k += 1;
            } else {
                pure = false;
            }
        }
        if pure {
            if period == 1 {
                push_text(&mut out, "fixed point");
            } else {
                push_text(&mut out, "pure limit cycle (period = ");
                push_decimal(&mut out, period as u64);
                push_text(&mut out, ")");
            }
            proof {
                assert(periodic(s, period as int));
                assert(out@ =~= orbit_label(s));
            }
            return out;
        }
        proof {
            assert(!periodic(s, period as int));
        }
    } else {
        proof {
            lemma_first_return_hit(s, n as int);
        }
    }
    let last = &seq[n - 1];
    let mut j: usize = n - 1;
    let mut hit = false;
    while !hit && j > 0
        invariant
            s == children_of(seq@),
            n == seq@.len(),
            n >= 2,
            *last == seq@[n - 1],
            0 <= j <= n - 1,
            hit ==> j < n - 1 && last_before(s, s.last(), n - 1) == Some(j as int),
            !hit ==> last_before(s, s.last(), n - 1) == last_before(s, s.last(), j as int),
        decreases j + if hit { 0int } else { 1int },
    {
        if mu_eq(&seq[j - 1], last) {
            hit = true;
            j -= 1;
        } else {
            j -= 1;
        }
    }
    if hit {
        push_tail_label(&mut out, j, n - 1 - j);
    } else {
        push_text(&mut out, "no detected cycle up to ");
        push_decimal(&mut out, n as u64);
        push_text(&mut out, " steps");
        proof {
            assert(out@ =~= orbit_label(s));
        }
    }
    out
}

} // verus!
