use vstd::prelude::*;
use crate::classify::{Classification, classify, classify_term};
use crate::matching::{Convention, match_term, mu_matches};
use crate::state::RCXState;
use crate::term::{Mu, Term};
use crate::trace::{RouteKind, logged, route_of};
use crate::types::{RcxProgram, RcxRule, RuleAction};

verus! {

/// Wildcard-only matching, the mode the engine uses.
pub open spec fn wild_match(p: Term, t: Term) -> bool {
    match_term(Convention::WildcardOnly, p, t, Map::empty()) is Some
}

/// The index of the first of the first `n` rules whose pattern matches `t`.
pub open spec fn first_match(rules: Seq<RcxRule>, t: Term, n: int) -> Option<int>
    decreases n,
{
    if n <= 0 {
        None
    } else {
        match first_match(rules, t, n - 1) {
            Some(k) => Some(k),
            None => if wild_match(rules[n - 1].pattern@, t) {
                Some(n - 1)
            } else {
                None
            },
        }
    }
}

/// The phase label of a structural routing into bucket `c`.
pub open spec fn structural_phase(c: Classification) -> Seq<char> {
    match c {
        Classification::Ra => "engine_structural_ra"@,
        Classification::Lobe => "engine_structural_lobe"@,
        Classification::Sink => "engine_structural_sink"@,
    }
}

/// What processing `t` under `rules` yields: the route, the phase label and the
/// term that is stored.
pub open spec fn engine_outcome(rules: Seq<RcxRule>, t: Term) -> (RouteKind, Seq<char>, Term) {
    match first_match(rules, t, rules.len() as int) {
        Some(k) => match rules[k].action {
            RuleAction::ToRa => (RouteKind::Ra, "engine_rule_to_ra"@, t),
            RuleAction::ToLobe => (RouteKind::Lobe, "engine_rule_to_lobe"@, t),
            RuleAction::ToSink => (RouteKind::Sink, "engine_rule_to_sink"@, t),
            RuleAction::Rewrite(m) => (route_of(classify_term(m@)), "engine_rule_rewrite"@, m@),
        },
        None => (route_of(classify_term(t)), structural_phase(classify_term(t)), t),
    }
}

/// `new` is `old` with one term appended at the end of a bucket.
pub open spec fn pushed(new: Seq<Mu>, old: Seq<Mu>, t: Term) -> bool {
    &&& new.len() == old.len() + 1
    &&& new.drop_last() == old
    &&& new.last()@ == t
}

/// `new` is `old` with `t` appended to the bucket of `route` and nothing else
/// changed but the log.
pub open spec fn stored(old: RCXState, new: RCXState, route: RouteKind, t: Term) -> bool {
    &&& new.current == old.current
    &&& buckets_stored(old, new, route, t)
}

/// The buckets of `new` are those of `old` with `t` appended to the bucket of
/// `route` (to none for a route that names no bucket); the registers are kept.
pub open spec fn buckets_stored(old: RCXState, new: RCXState, route: RouteKind, t: Term) -> bool {
    &&& new.null_reg == old.null_reg
    &&& new.inf_reg == old.inf_reg
    &&& if route == RouteKind::Ra {
        pushed(new.ra@, old.ra@, t)
    } else {
        new.ra == old.ra
    }
    &&& if route == RouteKind::Lobe {
        pushed(new.lobes@, old.lobes@, t)
    } else {
        new.lobes == old.lobes
    }
    &&& if route == RouteKind::Sink {
        pushed(new.sink@, old.sink@, t)
    } else {
        new.sink == old.sink
    }
}

/// One call of the engine on `t`: the outcome's term is stored in its bucket and
/// one event is logged.
pub open spec fn processed(old: RCXState, new: RCXState, rules: Seq<RcxRule>, t: Term) -> bool {
    let (route, phase, payload) = engine_outcome(rules, t);
    &&& stored(old, new, route, payload)
    &&& logged(old, new, phase, route, payload)
}

/// Routes terms through a program, falling back on the structural classifier.
pub struct Engine {
    pub program: RcxProgram,
}

/// Stores `mu` in bucket `c` and logs one event for it.
fn route_into(state: &mut RCXState, c: Classification, phase: &str, mu: Mu) -> (r: RouteKind)
    requires
        old(state).step_counter < usize::MAX,
    ensures
        r == route_of(c),
        stored(*old(state), *final(state), r, mu@),
        logged(*old(state), *final(state), phase@, r, mu@),
{
    let ghost before = *state;
    let route = match c {
        Classification::Ra => {
            state.ra.push(mu.clone());
            RouteKind::Ra
        },
        Classification::Lobe => {
            state.lobes.push(mu.clone());
            RouteKind::Lobe
        },
        Classification::Sink => {
            state.sink.push(mu.clone());
            RouteKind::Sink
        },
    };
    proof {
        assert(state.ra@.drop_last() =~= before.ra@ || state.ra == before.ra);
        assert(state.lobes@.drop_last() =~= before.lobes@ || state.lobes == before.lobes);
        assert(state.sink@.drop_last() =~= before.sink@ || state.sink == before.sink);
    }
    state.log_event(phase, route, mu);
    route
}

/// Classifies `mu` structurally, stores it and logs the structural phase.
fn structural_classify(state: &mut RCXState, mu: Mu) -> (r: RouteKind)
    requires
        old(state).step_counter < usize::MAX,
    ensures
        r == route_of(classify_term(mu@)),
        stored(*old(state), *final(state), r, mu@),
        logged(*old(state), *final(state), structural_phase(classify_term(mu@)), r, mu@),
{
    let c = classify(&mu);
    match c {
        Classification::Ra => route_into(state, c, "engine_structural_ra", mu),
        Classification::Lobe => route_into(state, c, "engine_structural_lobe", mu),
        Classification::Sink => route_into(state, c, "engine_structural_sink", mu),
    }
}

impl Engine {
    pub fn new(program: RcxProgram) -> (r: Self)
        ensures
            r.program == program,
    {
        Engine { program }
    }

    /// Processes one term with this engine's program; see `process`.
    pub fn process_input(&mut self, state: &mut RCXState, input: Mu) -> (r: Option<RouteKind>)
        requires
            old(state).step_counter < usize::MAX,
        ensures
            *final(self) == *old(self),
            r == Some(engine_outcome(old(self).program.rules@, input@).0),
            processed(*old(state), *final(state), old(self).program.rules@, input@),
            old(state).wf() ==> final(state).wf(),
    {
        Some(process(state, &self.program, input))
    }
}

/// Processes one term: the first rule whose pattern matches it decides, else
/// the structural classifier does. Exactly one bucket entry and one trace event
/// are added.
pub fn process(state: &mut RCXState, program: &RcxProgram, input: Mu) -> (r: RouteKind)
    requires
        old(state).step_counter < usize::MAX,
    ensures
        r == engine_outcome(program.rules@, input@).0,
        processed(*old(state), *final(state), program.rules@, input@),
        old(state).wf() ==> final(state).wf(),
{
    let ghost rules = program.rules@;
    let ghost t = input@;
    let r = match apply_program_rules(program, state, &input) {
        Some(route) => route,
        None => structural_classify(state, input),
    };
    proof {
        if old(state).wf() {
            law_process_appends_once(*old(state), *state, rules, t);
        }
    }
    r
}

/// Applies the first rule that matches; `None`, with `state` untouched, when no
/// rule does.
fn apply_program_rules(program: &RcxProgram, state: &mut RCXState, input: &Mu) -> (r: Option<
    RouteKind,
>)
    requires
        old(state).step_counter < usize::MAX,
    ensures
        r is None <==> first_match(program.rules@, input@, program.rules@.len() as int) is None,
        r is None ==> *final(state) == *old(state),
        r is Some ==> r->Some_0 == engine_outcome(program.rules@, input@).0 && processed(
            *old(state),
            *final(state),
            program.rules@,
            input@,
        ),
{
    let rules = &program.rules;
    let mut i: usize = 0;
    while i < rules.len()
        invariant
            rules@ == program.rules@,
            0 <= i <= rules@.len(),
            *state == *old(state),
            state.step_counter < usize::MAX,
            first_match(rules@, input@, i as int) is None,
        decreases rules.len() - i,
    {
        let rule = &rules[i];
        if mu_matches(&rule.pattern, input) {
            proof {
                assert(first_match(rules@, input@, i + 1) == Some(i as int));
                lemma_first_match_stays(rules@, input@, i as int + 1, rules@.len() as int);
            }
            let route = match &rule.action {
                RuleAction::ToRa => route_into(state, Classification::Ra, "engine_rule_to_ra", input.clone()),
                RuleAction::ToLobe => route_into(state, Classification::Lobe, "engine_rule_to_lobe", input.clone()),
                RuleAction::ToSink => route_into(state, Classification::Sink, "engine_rule_to_sink", input.clone()),
                RuleAction::Rewrite(template) => {
                    let rewritten = template.clone();
                    let c = classify(&rewritten);
                    route_into(state, c, "engine_rule_rewrite", rewritten)
                },
            };
            return Some(route);
        }
        i += 1;
    }
    None
}

proof fn lemma_first_match_stays(rules: Seq<RcxRule>, t: Term, k: int, n: int)
    requires
        1 <= k <= n,
        first_match(rules, t, k) is Some,
    ensures
        first_match(rules, t, n) == first_match(rules, t, k),
    decreases n - k,
{
    if k < n {
        lemma_first_match_stays(rules, t, k + 1, n);
    }
}

/// Each processed term adds exactly one bucket entry and one trace event, and a
/// log numbered `1..=n` stays numbered `1..=n+1`.
pub proof fn law_process_appends_once(old: RCXState, new: RCXState, rules: Seq<RcxRule>, t: Term)
    requires
        old.wf(),
        processed(old, new, rules, t),
    ensures
        new.wf(),
        new.trace@.len() == old.trace@.len() + 1,
        new.ra@.len() + new.lobes@.len() + new.sink@.len() == old.ra@.len() + old.lobes@.len()
            + old.sink@.len() + 1,
        (new.ra@.len() > old.ra@.len()) as int + (new.lobes@.len() > old.lobes@.len()) as int + (
        new.sink@.len() > old.sink@.len()) as int == 1,
{
    let route = engine_outcome(rules, t).0;
    assert(route == RouteKind::Ra || route == RouteKind::Lobe || route == RouteKind::Sink);
    assert forall|i: int| 0 <= i < new.trace@.len() implies (#[trigger] new.trace@[i]).step_index
        == i + 1 by {
        if i < old.trace@.len() {
            assert(new.trace@[i] == new.trace@.drop_last()[i]);
        }
    }
}

} // verus!
