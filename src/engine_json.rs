use vstd::prelude::*;
use crate::engine::{engine_outcome, process, processed};
use crate::formatter::{
    EventView,
    events_json,
    events_view,
    json_string,
    json_terms,
    push_events_json,
    push_json_string,
    push_json_terms,
    render,
    mu_to_string,
};
use crate::parser::{parse_mu, parse_spec};
use crate::state::RCXState;
use crate::term::{Mu, Term, children_of};
use crate::text::{decimal, push_decimal, push_text};
use crate::trace::RouteKind;
use crate::types::{RcxProgram, RcxRule};

verus! {

/// What a state's buckets and log hold, as terms.
pub struct Ledger {
    pub ra: Seq<Term>,
    pub lobes: Seq<Term>,
    pub sink: Seq<Term>,
    pub trace: Seq<EventView>,
}

pub open spec fn ledger(s: RCXState) -> Ledger {
    Ledger {
        ra: children_of(s.ra@),
        lobes: children_of(s.lobes@),
        sink: children_of(s.sink@),
        trace: events_view(s.trace@),
    }
}

/// The ledger after the engine processes `t` with the step counter at `counter`.
pub open spec fn ledger_after(l: Ledger, counter: nat, rules: Seq<RcxRule>, t: Term) -> Ledger {
    let (route, phase, payload) = engine_outcome(rules, t);
    Ledger {
        ra: if route == RouteKind::Ra {
            l.ra.push(payload)
        } else {
            l.ra
        },
        lobes: if route == RouteKind::Lobe {
            l.lobes.push(payload)
        } else {
            l.lobes
        },
        sink: if route == RouteKind::Sink {
            l.sink.push(payload)
        } else {
            l.sink
        },
        trace: l.trace.push(EventView { step: counter + 1, phase, route, payload }),
    }
}

/// The ledger after the engine processes each of `ts` in order.
pub open spec fn ledger_run(l: Ledger, counter: nat, rules: Seq<RcxRule>, ts: Seq<Term>) -> Ledger
    decreases ts.len(),
{
    if ts.len() == 0 {
        l
    } else {
        ledger_after(
            ledger_run(l, counter, rules, ts.drop_last()),
            counter + (ts.len() - 1) as nat,
            rules,
            ts.last(),
        )
    }
}

pub open spec fn empty_ledger() -> Ledger {
    Ledger { ra: Seq::empty(), lobes: Seq::empty(), sink: Seq::empty(), trace: Seq::empty() }
}

proof fn lemma_processed_ledger(old: RCXState, new: RCXState, rules: Seq<RcxRule>, t: Term)
    requires
        processed(old, new, rules, t),
    ensures
        ledger(new) == ledger_after(ledger(old), old.step_counter as nat, rules, t),
{
    let a = ledger(new);
    let b = ledger_after(ledger(old), old.step_counter as nat, rules, t);
    assert(a.ra =~= b.ra);
    assert(a.lobes =~= b.lobes);
    assert(a.sink =~= b.sink);
    assert(a.trace =~= b.trace);
}

/// `{"i":k,"mu":..}` for the first `n` inputs, comma-separated.
pub open spec fn inputs_json(ts: Seq<Term>, n: int) -> Seq<char>
    decreases n,
{
    if n <= 0 || n > ts.len() {
        Seq::empty()
    } else {
        (if n == 1 {
            Seq::empty()
        } else {
            inputs_json(ts, n - 1) + seq![',']
        }) + "{\"i\":"@ + decimal((n - 1) as nat) + ",\"mu\":"@ + json_string(render(ts[n - 1]))
            + "}"@
    }
}

/// The engine-run document of `world`, the inputs and the resulting ledger.
pub open spec fn run_json(world: Seq<char>, inputs: Seq<Term>, l: Ledger) -> Seq<char> {
    "{\"schema\":"@ + json_string("rcx.engine_run.v1"@) + ",\"world\":"@ + json_string(world)
        + ",\"inputs\":["@ + inputs_json(inputs, inputs.len() as int) + "],\"buckets\":{\"ra\":["@
        + json_terms(l.ra, l.ra.len() as int) + "],\"lobes\":["@ + json_terms(
        l.lobes,
        l.lobes.len() as int,
    ) + "],\"sink\":["@ + json_terms(l.sink, l.sink.len() as int) + "]},\"trace\":["@
        + events_json(l.trace, l.trace.len() as int) + "]}"@
}

/// Processes each input in order on `state`.
fn run_inputs(program: &RcxProgram, state: &mut RCXState, inputs: &[Mu])
    requires
        old(state).step_counter + inputs@.len() < usize::MAX,
    ensures
        final(state).step_counter == old(state).step_counter + inputs@.len(),
        final(state).current == old(state).current,
        final(state).null_reg == old(state).null_reg,
        final(state).inf_reg == old(state).inf_reg,
        ledger(*final(state)) == ledger_run(
            ledger(*old(state)),
            old(state).step_counter as nat,
            program.rules@,
            children_of(inputs@),
        ),
{
    let ghost ts = children_of(inputs@);
    let ghost start = *state;
    let ghost rules = program.rules@;
    let mut i: usize = 0;
    proof {
        assert(ts.subrange(0, 0) =~= Seq::<Term>::empty());
    }
    while i < inputs.len()
        invariant
            ts == children_of(inputs@),
            rules == program.rules@,
            start == *old(state),
            0 <= i <= inputs@.len(),
            state.step_counter == start.step_counter + i,
            start.step_counter + inputs@.len() < usize::MAX,
            state.current == start.current,
            state.null_reg == start.null_reg,
            state.inf_reg == start.inf_reg,
            ledger(*state) == ledger_run(
                ledger(start),
                start.step_counter as nat,
                rules,
                ts.subrange(0, i as int),
            ),
        decreases inputs.len() - i,
    {
        let ghost before = *state;
        let _ = process(state, program, inputs[i].clone());
        proof {
            lemma_processed_ledger(before, *state, rules, inputs@[i as int]@);
            let pre = ts.subrange(0, i + 1);
            assert(pre.drop_last() =~= ts.subrange(0, i as int));
            assert(pre.last() == inputs@[i as int]@);
        }
        i += 1;
    }
    proof {
        assert(ts.subrange(0, inputs@.len() as int) =~= ts);
    }
}

/// Appends `{"i":k,"mu":..}` for each input, comma-separated.
fn push_inputs_json(out: &mut String, inputs: &[Mu])
    ensures
        final(out)@ == old(out)@ + inputs_json(children_of(inputs@), inputs@.len() as int),
{
    let ghost ts = children_of(inputs@);
    let ghost mid = out@;
    let mut i: usize = 0;
    while i < inputs.len()
        invariant
            mid == old(out)@,
            ts == children_of(inputs@),
            0 <= i <= inputs@.len(),
            out@ == mid + inputs_json(ts, i as int),
        decreases inputs.len() - i,
    {
        if i > 0 {
            push_text(out, ",");
            proof {
                reveal_strlit(",");
            }
        }
        push_text(out, "{\"i\":");
        push_decimal(out, i as u64);
        push_text(out, ",\"mu\":");
        let text = mu_to_string(&inputs[i]);
        push_json_string(out, text.as_str());
        push_text(out, "}");
        proof {
            assert(out@ =~= mid + inputs_json(ts, i + 1));
        }
        i += 1;
    }
    proof {
        assert(final(out)@ =~= old(out)@ + inputs_json(ts, inputs@.len() as int));
    }
}

/// Appends the engine-run document for `inputs` and the buckets and log of `state`.
fn push_run_json(out: &mut String, world: &str, inputs: &[Mu], state: &RCXState)
    ensures
        final(out)@ == old(out)@ + run_json(world@, children_of(inputs@), ledger(*state)),
{
    let ghost start = out@;
    let ghost ts = children_of(inputs@);
    push_text(out, "{\"schema\":");
    push_json_string(out, "rcx.engine_run.v1");
    push_text(out, ",\"world\":");
    push_json_string(out, world);
    push_text(out, ",\"inputs\":[");
    push_inputs_json(out, inputs);
    push_text(out, "],\"buckets\":{\"ra\":[");
    push_json_terms(out, state.ra.as_slice());
    push_text(out, "],\"lobes\":[");
    push_json_terms(out, state.lobes.as_slice());
    push_text(out, "],\"sink\":[");
    push_json_terms(out, state.sink.as_slice());
    push_text(out, "]},\"trace\":[");
    push_events_json(out, state.trace.as_slice());
    push_text(out, "]}");
    proof {
        assert(out@ =~= start + run_json(world@, ts, ledger(*state)));
    }
}

/// Runs a fresh engine state over `inputs` and exports the run.
pub fn engine_run_to_json(world_name: &str, program: &RcxProgram, inputs: &[Mu]) -> (r: String)
    requires
        inputs@.len() < usize::MAX,
    ensures
        r@ == run_json(
            world_name@,
            children_of(inputs@),
            ledger_run(empty_ledger(), 0, program.rules@, children_of(inputs@)),
        ),
{
    let mut state = RCXState::new();
    proof {
        let l = ledger(state);
        assert(l.ra =~= Seq::<Term>::empty());
        assert(l.lobes =~= Seq::<Term>::empty());
        assert(l.sink =~= Seq::<Term>::empty());
        assert(l.trace =~= Seq::<EventView>::empty());
    }
    run_inputs(program, &mut state, inputs);
    let mut out = String::new();
    push_run_json(&mut out, world_name, inputs, &state);
    proof {
        assert(out@ =~= run_json(world_name@, children_of(inputs@), ledger(state)));
    }
    out
}

/// Runs the engine over `inputs` from an existing state and exports the run.
pub fn engine_run_from_state_to_json(
    world_name: &str,
    program: &RcxProgram,
    state: &mut RCXState,
    inputs: &[Mu],
) -> (r: String)
    requires
        old(state).step_counter + inputs@.len() < usize::MAX,
    ensures
        final(state).step_counter == old(state).step_counter + inputs@.len(),
        final(state).current == old(state).current,
        final(state).null_reg == old(state).null_reg,
        final(state).inf_reg == old(state).inf_reg,
        ledger(*final(state)) == ledger_run(
            ledger(*old(state)),
            old(state).step_counter as nat,
            program.rules@,
            children_of(inputs@),
        ),
        r@ == run_json(world_name@, children_of(inputs@), ledger(*final(state))),
{
    run_inputs(program, state, inputs);
    let mut out = String::new();
    push_run_json(&mut out, world_name, inputs, state);
    proof {
        assert(out@ =~= run_json(world_name@, children_of(inputs@), ledger(*state)));
    }
    out
}

/// Parses each source text into a term; the first failure is reported.
pub fn parse_inputs(mu_srcs: &[String]) -> (r: Result<Vec<Mu>, String>)
    ensures
        r is Ok <==> forall|i: int| 0 <= i < mu_srcs@.len() ==> parse_spec(#[trigger] mu_srcs@[i]@) is Some,
        r is Ok ==> r->Ok_0@.len() == mu_srcs@.len() && forall|i: int|
            0 <= i < mu_srcs@.len() ==> (#[trigger] r->Ok_0@[i])@ == parse_spec(mu_srcs@[i]@)->Some_0,
{
    let mut out: Vec<Mu> = Vec::new();
    let mut i: usize = 0;
    while i < mu_srcs.len()
        invariant
            0 <= i <= mu_srcs@.len(),
            out@.len() == i,
            forall|j: int| 0 <= j < i ==> parse_spec(#[trigger] mu_srcs@[j]@) is Some,
            forall|j: int| 0 <= j < i ==> (#[trigger] out@[j])@ == parse_spec(mu_srcs@[j]@)->Some_0,
        decreases mu_srcs.len() - i,
    {
        match parse_mu(mu_srcs[i].as_str()) {
            Ok(m) => out.push(m),
            Err(e) => {
                let mut msg = String::new();
                push_text(&mut msg, "parse mu `");
                push_text(&mut msg, mu_srcs[i].as_str());
                push_text(&mut msg, "`: ");
                push_text(&mut msg, e.as_str());
                return Err(msg);
            },
        }
        i += 1;
    }
    Ok(out)
}

} // verus!
