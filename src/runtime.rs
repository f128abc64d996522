use vstd::prelude::*;
use crate::classify::{Classification, classify, classify_term};
use crate::engine::{buckets_stored, stored};
use crate::state::RCXState;
use crate::term::{Mu, Term, children_of, lemma_node_view, mu_eq, opt_view};
use crate::trace::{RouteKind, logged, route_of};
use crate::types::{RcxProgram, RcxRule, RuleAction};

verus! {

/// The term in flight, copied out.
pub fn reduce_step(state: &mut RCXState) -> (r: Option<Mu>)
    ensures
        *final(state) == *old(state),
        opt_view(r) == opt_view(old(state).current),
{
    match &state.current {
        Some(m) => Some(m.clone()),
        None => None,
    }
}

/// Classifies the term in flight, stores it and logs the step; the term stays in
/// flight. Without a term in flight nothing happens.
pub fn step(state: &mut RCXState)
    requires
        old(state).step_counter < usize::MAX,
    ensures
        old(state).current is None ==> *final(state) == *old(state),
        old(state).current is Some ==> {
            let t = old(state).current->Some_0@;
            let route = route_of(classify_term(t));
            stored(*old(state), *final(state), route, t) && logged(
                *old(state),
                *final(state),
                "step(structural)"@,
                route,
                t,
            )
        },
{
    if let Some(mu) = reduce_step(state) {
        let ghost before = *state;
        let route = match classify(&mu) {
            Classification::Ra => {
                state.ra.push(mu.clone());
                RouteKind::Ra
            },
            Classification::Lobe => {
                state.lobes.push(mu.clone());
                RouteKind::Lobe
            },
            Classification::Sink => {
                state.sink.push(mu.clone());
                RouteKind::Sink
            },
        };
        proof {
            assert(state.ra@.drop_last() =~= before.ra@ || state.ra == before.ra);
            assert(state.lobes@.drop_last() =~= before.lobes@ || state.lobes == before.lobes);
            assert(state.sink@.drop_last() =~= before.sink@ || state.sink == before.sink);
        }
        state.log_event("step(structural)", route, mu);
    }
}

/// The index of the first of the first `n` rules whose pattern equals `t`.
pub open spec fn first_equal(rules: Seq<RcxRule>, t: Term, n: int) -> Option<int>
    decreases n,
{
    if n <= 0 {
        None
    } else {
        match first_equal(rules, t, n - 1) {
            Some(k) => Some(k),
            None => if rules[n - 1].pattern@ == t {
                Some(n - 1)
            } else {
                None
            },
        }
    }
}

/// The route of an in-flight term `t` under `rules`.
pub open spec fn program_route(rules: Seq<RcxRule>, t: Term) -> RouteKind {
    match first_equal(rules, t, rules.len() as int) {
        Some(k) => match rules[k].action {
            RuleAction::ToRa => RouteKind::Ra,
            RuleAction::ToLobe => RouteKind::Lobe,
            RuleAction::ToSink => RouteKind::Sink,
            RuleAction::Rewrite(_) => RouteKind::Rewrite,
        },
        None => route_of(classify_term(t)),
    }
}

/// The term left in flight after routing `t`: a rewrite's target, else none.
pub open spec fn program_next(rules: Seq<RcxRule>, t: Term) -> Option<Term> {
    match first_equal(rules, t, rules.len() as int) {
        Some(k) => match rules[k].action {
            RuleAction::Rewrite(m) => Some(m@),
            _ => None,
        },
        None => None,
    }
}

/// The phase label of routing `t` under `rules`.
pub open spec fn program_phase(rules: Seq<RcxRule>, t: Term) -> Seq<char> {
    if first_equal(rules, t, rules.len() as int) is Some {
        "classify_with_program(rule)"@
    } else {
        "classify_with_program(structural)"@
    }
}

/// One program-aware step from `old` to `new` on the term in flight `t`.
pub open spec fn program_stepped(old: RCXState, new: RCXState, rules: Seq<RcxRule>, t: Term) -> bool {
    let route = program_route(rules, t);
    &&& opt_view(new.current) == program_next(rules, t)
    &&& buckets_stored(old, new, route, t)
    &&& logged(old, new, program_phase(rules, t), route, t)
}

proof fn lemma_first_equal_stays(rules: Seq<RcxRule>, t: Term, k: int, n: int)
    requires
        1 <= k <= n,
        first_equal(rules, t, k) is Some,
    ensures
        first_equal(rules, t, n) == first_equal(rules, t, k),
    decreases n - k,
{
    if k < n {
        lemma_first_equal_stays(rules, t, k + 1, n);
    }
}

/// Program-aware classification of the term in flight: the first rule whose
/// pattern equals it decides; a rewrite puts its target in flight. Without a
/// rule, the structural classifier decides.
pub fn classify_with_program(state: &mut RCXState, program: &RcxProgram) -> (r: Option<RouteKind>)
    requires
        old(state).step_counter < usize::MAX,
    ensures
        old(state).current is None ==> r is None && *final(state) == *old(state),
        old(state).current is Some && first_equal(
            program.rules@,
            old(state).current->Some_0@,
            program.rules@.len() as int,
        ) is None ==> r == Some(route_of(classify_term(old(state).current->Some_0@))),
        old(state).current is Some ==> {
            let t = old(state).current->Some_0@;
            r == Some(program_route(program.rules@, t)) && program_stepped(
                *old(state),
                *final(state),
                program.rules@,
                t,
            )
        },
{
    let current = match &state.current {
        Some(mu) => mu.clone(),
        None => return None,
    };
    let ghost t = current@;
    let rules = &program.rules;
    let mut i: usize = 0;
    while i < rules.len()
        invariant
            rules@ == program.rules@,
            0 <= i <= rules@.len(),
            *state == *old(state),
            state.step_counter < usize::MAX,
            t == current@,
            opt_view(state.current) == Some(t),
            first_equal(rules@, t, i as int) is None,
        decreases rules.len() - i,
    {
        let rule = &rules[i];
        if mu_eq(&current, &rule.pattern) {
            proof {
                assert(first_equal(rules@, t, i + 1) == Some(i as int));
                lemma_first_equal_stays(rules@, t, i as int + 1, rules@.len() as int);
            }
            let ghost before = *state;
            let route = match &rule.action {
                RuleAction::ToRa => {
                    state.ra.push(current.clone());
                    state.current = None;
                    RouteKind::Ra
                },
                RuleAction::ToLobe => {
                    state.lobes.push(current.clone());
                    state.current = None;
                    RouteKind::Lobe
                },
                RuleAction::ToSink => {
                    state.sink.push(current.clone());
                    state.current = None;
                    RouteKind::Sink
                },
                RuleAction::Rewrite(target) => {
                    state.current = Some(target.clone());
                    RouteKind::Rewrite
                },
            };
            proof {
                assert(state.ra@.drop_last() =~= before.ra@ || state.ra == before.ra);
                assert(state.lobes@.drop_last() =~= before.lobes@ || state.lobes == before.lobes);
                assert(state.sink@.drop_last() =~= before.sink@ || state.sink == before.sink);
            }
            state.log_event("classify_with_program(rule)", route, current);
            return Some(route);
        }
        i += 1;
    }
    let ghost before = *state;
    let route = match classify(&current) {
        Classification::Ra => {
            state.ra.push(current.clone());
            RouteKind::Ra
        },
        Classification::Lobe => {
            state.lobes.push(current.clone());
            RouteKind::Lobe
        },
        Classification::Sink => {
            state.sink.push(current.clone());
            RouteKind::Sink
        },
    };
    proof {
        assert(state.ra@.drop_last() =~= before.ra@ || state.ra == before.ra);
        assert(state.lobes@.drop_last() =~= before.lobes@ || state.lobes == before.lobes);
        assert(state.sink@.drop_last() =~= before.sink@ || state.sink == before.sink);
    }
    state.current = None;
    state.log_event("classify_with_program(structural)", route, current);
    Some(route)
}

/// The in-flight term `t` leaves flight within `n` program-aware steps.
pub open spec fn settles(rules: Seq<RcxRule>, t: Option<Term>, n: nat) -> bool
    decreases n,
{
    match t {
        None => true,
        Some(x) => n > 0 && settles(rules, program_next(rules, x), (n - 1) as nat),
    }
}

/// `states` runs from one state to the next by program-aware steps, each on
/// the term then in flight.
pub open spec fn stepped_chain(states: Seq<RCXState>, rules: Seq<RcxRule>) -> bool {
    &&& states.len() >= 1
    &&& forall|k: int|
        0 <= k < states.len() - 1 ==> (#[trigger] states[k]).current is Some && program_stepped(
            states[k],
            states[k + 1],
            rules,
            states[k].current->Some_0@,
        )
}

/// Applies `classify_with_program` at most `max_steps` times, stopping once
/// nothing is in flight; the number of steps taken.
pub fn run_program_bounded(state: &mut RCXState, program: &RcxProgram, max_steps: usize) -> (r: usize)
    requires
        old(state).step_counter + max_steps < usize::MAX,
    ensures
        r <= max_steps,
        r < max_steps ==> final(state).current is None,
        exists|states: Seq<RCXState>|
            stepped_chain(states, program.rules@) && states.len() == r + 1 && states[0] == *old(state)
                && states.last() == *final(state),
{
    let ghost mut states: Seq<RCXState> = seq![*state];
    let mut taken: usize = 0;
    while taken < max_steps && state.current.is_some()
        invariant
            taken <= max_steps,
            state.step_counter == old(state).step_counter + taken,
            old(state).step_counter + max_steps < usize::MAX,
            stepped_chain(states, program.rules@),
            states.len() == taken + 1,
            states[0] == *old(state),
            states.last() == *state,
        decreases max_steps - taken,
    {
        let ghost before = *state;
        let _ = classify_with_program(state, program);
        proof {
            let prev = states;
            states = states.push(*state);
            assert forall|k: int| 0 <= k < states.len() - 1 implies (#[trigger] states[k]).current is Some
                && program_stepped(states[k], states[k + 1], program.rules@, states[k].current->Some_0@) by {
                if k < prev.len() - 1 {
                    assert(states[k] == prev[k] && states[k + 1] == prev[k + 1]);
                } else {
                    assert(states[k] == before);
                }
            }
        }
        taken += 1;
    }
    taken
}

/// Applies `classify_with_program` until nothing is in flight. The chain of
/// rewrites from the term in flight must end, within the counter's range.
pub fn run_program(state: &mut RCXState, program: &RcxProgram)
    requires
        exists|n: nat|
            settles(program.rules@, opt_view(old(state).current), n) && old(state).step_counter + n
                < usize::MAX,
    ensures
        final(state).current is None,
        exists|states: Seq<RCXState>|
            stepped_chain(states, program.rules@) && states[0] == *old(state) && states.last()
                == *final(state),
{
    let ghost n0: nat = choose|n: nat|
        settles(program.rules@, opt_view(old(state).current), n) && old(state).step_counter + n
            < usize::MAX;
    let ghost mut n: nat = n0;
    let ghost mut states: Seq<RCXState> = seq![*state];
    while state.current.is_some()
        invariant
            settles(program.rules@, opt_view(state.current), n),
            state.step_counter + n < usize::MAX,
            stepped_chain(states, program.rules@),
            states[0] == *old(state),
            states.last() == *state,
        decreases n,
    {
        let ghost before = *state;
        let _ = classify_with_program(state, program);
        proof {
            n = (n - 1) as nat;
            let prev = states;
            states = states.push(*state);
            assert forall|k: int| 0 <= k < states.len() - 1 implies (#[trigger] states[k]).current is Some
                && program_stepped(states[k], states[k + 1], program.rules@, states[k].current->Some_0@) by {
                if k < prev.len() - 1 {
                    assert(states[k] == prev[k] && states[k + 1] == prev[k + 1]);
                } else {
                    assert(states[k] == before);
                }
            }
        }
    }
}

} // verus!
