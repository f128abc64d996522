//! A symbolic term-rewriting and classification engine.
//!
//! Terms (`term::Mu`) are atoms or ordered nodes. A program is an ordered list
//! of rules; the engine (`engine`) routes each term into one of three buckets
//! (`ra`, `lobes`, `sink`) by the first matching rule, falling back on the
//! structural classifier (`classify`), and logs one trace event per term. The
//! orbit engine (`orbit`) iterates rewrite rules from a seed and labels the
//! long-run behaviour. `trace_canon` and `json_value` give the canonical JSON
//! form of traces; `snapshot_json`, `engine_json` and `orbit_json` export and
//! import runs.
//!
//! Choices made here:
//! - Pattern variables (`matching`): the engine matches with `_` as the only
//!   wildcard; orbits bind single lowercase letters; `unify` binds symbols that
//!   start with an uppercase letter and treats `_` as a wildcard. All three are
//!   one matcher behind `matching::Convention`.
//! - A rewrite rule in the engine logs one event, whose route is the bucket of
//!   the rewritten term.
//! - JSON numbers are exact decimals, held as their canonical text; exponents
//!   beyond 400 are refused.
//! - The term grammar (`parser`) reads nested nodes, so a term's text reads
//!   back as the term.

use vstd::prelude::*;

pub mod classify;
pub mod engine;
pub mod engine_json;
pub mod formatter;
pub mod json_laws;
pub mod json_text_laws;
pub mod json_value;
pub mod matching;
pub mod mu_loader;
pub mod orbit;
pub mod orbit_json;
pub mod parser;
pub mod replay_cli;
pub mod runtime;
pub mod serialize;
pub mod snapshot_json;
pub mod snapshot_laws;
pub mod state;
pub mod term;
pub mod term_laws;
pub mod text;
pub mod trace_canon;
pub mod trace;
pub mod types;

verus! {

/// The sum of two numbers.
pub fn add(left: u64, right: u64) -> (r: u64)
    requires
        left + right <= u64::MAX,
    ensures
        r == left + right,
{
    left + right
}

} // verus!
