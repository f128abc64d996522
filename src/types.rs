use vstd::prelude::*;
pub use crate::term::Mu;

verus! {

/// What a rule does with a term it matches.
#[derive(Clone, Debug)]
pub enum RuleAction {
    ToRa,
    ToLobe,
    ToSink,
    Rewrite(Mu),
}

/// A pattern and the action taken on the terms it matches.
#[derive(Debug, Clone)]
pub struct RcxRule {
    pub pattern: Mu,
    pub action: RuleAction,
}

/// An ordered list of rules: the first matching rule wins.
#[derive(Debug, Clone)]
pub struct RcxProgram {
    pub rules: Vec<RcxRule>,
}

impl RcxProgram {
    pub fn new(rules: Vec<RcxRule>) -> (r: Self)
        ensures
            r.rules == rules,
    {
        RcxProgram { rules }
    }
}

} // verus!
