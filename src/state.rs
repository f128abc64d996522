use vstd::prelude::*;
use crate::term::Mu;
use crate::trace::{RouteKind, TraceEvent, logged};

verus! {

/// A run's accumulator: the term in flight, three buckets, two registers and a log.
#[derive(Debug, Clone)]
pub struct RCXState {
    pub current: Option<Mu>,
    pub ra: Vec<Mu>,
    pub lobes: Vec<Mu>,
    pub sink: Vec<Mu>,
    pub null_reg: Vec<Mu>,
    pub inf_reg: Vec<Mu>,
    pub trace: Vec<TraceEvent>,
    pub step_counter: usize,
}

impl RCXState {
    /// The log is numbered `1..=n` without gaps and the counter stands at `n`.
    pub open spec fn wf(&self) -> bool {
        &&& self.step_counter == self.trace@.len()
        &&& forall|i: int|
            0 <= i < self.trace@.len() ==> (#[trigger] self.trace@[i]).step_index == i + 1
    }

    /// Every bucket, register and the log are empty, and nothing is in flight.
    pub open spec fn is_fresh(&self) -> bool {
        &&& self.current is None
        &&& self.ra@.len() == 0
        &&& self.lobes@.len() == 0
        &&& self.sink@.len() == 0
        &&& self.null_reg@.len() == 0
        &&& self.inf_reg@.len() == 0
        &&& self.trace@.len() == 0
        &&& self.step_counter == 0
    }

    pub fn new() -> (r: Self)
        ensures
            r.is_fresh(),
            r.wf(),
    {
        RCXState {
            current: None,
            ra: Vec::new(),
            lobes: Vec::new(),
            sink: Vec::new(),
            null_reg: Vec::new(),
            inf_reg: Vec::new(),
            trace: Vec::new(),
            step_counter: 0,
        }
    }

    /// A state holding the three buckets and nothing else: nothing in flight,
    /// empty registers, an empty log and the counter at zero.
    pub fn from_buckets(ra: Vec<Mu>, lobes: Vec<Mu>, sink: Vec<Mu>) -> (r: Self)
        ensures
            r.ra == ra && r.lobes == lobes && r.sink == sink,
            r.current is None,
            r.null_reg@.len() == 0 && r.inf_reg@.len() == 0,
            r.trace@.len() == 0 && r.step_counter == 0,
            r.wf(),
    {
        RCXState {
            current: None,
            ra,
            lobes,
            sink,
            null_reg: Vec::new(),
            inf_reg: Vec::new(),
            trace: Vec::new(),
            step_counter: 0,
        }
    }

    /// A fresh state with `mu` in flight.
    pub fn with_seed(mu: Mu) -> (r: Self)
        ensures
            r.current == Some(mu),
            r.ra@.len() == 0 && r.lobes@.len() == 0 && r.sink@.len() == 0,
            r.null_reg@.len() == 0 && r.inf_reg@.len() == 0,
            r.trace@.len() == 0 && r.step_counter == 0,
            r.wf(),
    {
        let mut s = Self::new();
        s.current = Some(mu);
        s
    }

    /// Appends a trace event and advances the step counter.
    pub fn log_event(&mut self, phase: &str, route: RouteKind, payload: Mu)
        requires
            old(self).step_counter < usize::MAX,
        ensures
            logged(*old(self), *final(self), phase@, route, payload@),
            final(self).current == old(self).current,
            final(self).ra == old(self).ra,
            final(self).lobes == old(self).lobes,
            final(self).sink == old(self).sink,
            final(self).null_reg == old(self).null_reg,
            final(self).inf_reg == old(self).inf_reg,
    {
        crate::trace::log_event(self, phase, route, payload)
    }
}

} // verus!
