use vstd::prelude::*;
use vstd::string::*;
use crate::classify::Classification;
use crate::state::RCXState;
use crate::term::{Mu, Term};

verus! {

/// Where a term ended up.
#[derive(Clone, Copy, Debug, PartialEq, Eq, Structural)]
pub enum RouteKind {
    Ra,
    Lobe,
    Sink,
    Rewrite,
    StructuralFallback,
}

/// The route that names a bucket.
pub open spec fn route_of(c: Classification) -> RouteKind {
    match c {
        Classification::Ra => RouteKind::Ra,
        Classification::Lobe => RouteKind::Lobe,
        Classification::Sink => RouteKind::Sink,
    }
}

/// One entry of a state's log.
#[derive(Debug, Clone)]
pub struct TraceEvent {
    pub step_index: usize,
    pub phase: String,
    pub route: RouteKind,
    pub payload: Mu,
}

/// `new` is `old` with one event appended, numbered one past `old`'s counter.
pub open spec fn logged(
    old: RCXState,
    new: RCXState,
    phase: Seq<char>,
    route: RouteKind,
    payload: Term,
) -> bool {
    &&& new.step_counter == old.step_counter + 1
    &&& new.trace@.len() == old.trace@.len() + 1
    &&& new.trace@.drop_last() == old.trace@
    &&& new.trace@.last().step_index == new.step_counter
    &&& new.trace@.last().phase@ == phase
    &&& new.trace@.last().route == route
    &&& new.trace@.last().payload@ == payload
}

/// Appends a trace event to `state`'s log and advances its step counter.
pub fn log_event(state: &mut RCXState, phase: &str, route: RouteKind, payload: Mu)
    requires
        old(state).step_counter < usize::MAX,
    ensures
        logged(*old(state), *final(state), phase@, route, payload@),
        final(state).current == old(state).current,
        final(state).ra == old(state).ra,
        final(state).lobes == old(state).lobes,
        final(state).sink == old(state).sink,
        final(state).null_reg == old(state).null_reg,
        final(state).inf_reg == old(state).inf_reg,
{
    state.step_counter = state.step_counter + 1;
    let idx = state.step_counter;
    state.trace.push(TraceEvent { step_index: idx, phase: String::from_str(phase), route, payload });
    proof {
        assert(state.trace@.drop_last() =~= old(state).trace@);
    }
}

} // verus!
