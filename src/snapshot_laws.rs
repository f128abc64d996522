use vstd::prelude::*;
use crate::formatter::render;
use crate::json_value::{Json, digits_val};
use crate::snapshot_json::{
    SnapshotModel,
    action_view,
    rule_text,
    rule_views,
    rules_spec,
    snapshot_spec,
    terms_field,
    terms_spec,
};
use crate::state::RCXState;
use crate::term::{Term, children_of, opt_view};
use crate::term_laws::{law_rule_text_round_trip, law_term_text_round_trip, plain_rule, plain_term};
use crate::text::decimal;
use crate::trace_canon::{field, index_text, lemma_decimal_digits, lookup};
use crate::types::RcxRule;

verus! {

/// The texts of terms as JSON strings.
pub open spec fn term_strings(ts: Seq<Term>) -> Seq<Json> {
    Seq::new(ts.len(), |i: int| Json::Str(render(ts[i])))
}

/// The texts of rules as JSON strings.
pub open spec fn rule_strings(rs: Seq<RcxRule>) -> Seq<Json> {
    Seq::new(rs.len(), |i: int| Json::Str(rule_text(rs[i])))
}

/// The object a snapshot document stands for, keys sorted as a parsed object
/// holds them. The log is left out: it is not read back.
pub open spec fn snapshot_obj(world: Seq<char>, rules: Seq<RcxRule>, s: RCXState) -> Json {
    Json::Obj(
        seq![
            ("program"@, Json::Obj(seq![("rules"@, Json::Arr(rule_strings(rules)))])),
            ("schema"@, Json::Str("rcx.snapshot.v1"@)),
            (
                "state"@,
                Json::Obj(
                    seq![
                        (
                            "current"@,
                            match opt_view(s.current) {
                                Some(t) => Json::Str(render(t)),
                                None => Json::Null,
                            },
                        ),
                        ("inf_reg"@, Json::Arr(term_strings(children_of(s.inf_reg@)))),
                        ("lobes"@, Json::Arr(term_strings(children_of(s.lobes@)))),
                        ("null_reg"@, Json::Arr(term_strings(children_of(s.null_reg@)))),
                        ("ra"@, Json::Arr(term_strings(children_of(s.ra@)))),
                        ("sink"@, Json::Arr(term_strings(children_of(s.sink@)))),
                        ("step_counter"@, Json::Num(decimal(s.step_counter as nat))),
                    ],
                ),
            ),
            ("world"@, Json::Str(world)),
        ],
    )
}

proof fn lemma_terms_back(ts: Seq<Term>)
    requires
        forall|i: int| 0 <= i < ts.len() ==> plain_term(#[trigger] ts[i]),
    ensures
        terms_spec(term_strings(ts)) == Some(ts),
    decreases ts.len(),
{
    if ts.len() > 0 {
        let d = ts.drop_last();
        lemma_terms_back(d);
        assert(term_strings(ts).drop_last() =~= term_strings(d));
        law_term_text_round_trip(ts.last());
        assert(d.push(ts.last()) =~= ts);
    } else {
        assert(term_strings(ts) =~= Seq::<Json>::empty());
        assert(ts =~= Seq::<Term>::empty());
    }
}

proof fn lemma_rules_back(rs: Seq<RcxRule>)
    requires
        forall|i: int| 0 <= i < rs.len() ==> plain_rule(#[trigger] rs[i]),
    ensures
        rules_spec(rule_strings(rs)) == Some(rule_views(rs)),
    decreases rs.len(),
{
    if rs.len() > 0 {
        let d = rs.drop_last();
        lemma_rules_back(d);
        assert(rule_strings(rs).drop_last() =~= rule_strings(d));
        law_rule_text_round_trip(rs.last());
        assert(rule_views(d).push((rs.last().pattern@, action_view(rs.last().action))) =~= rule_views(rs));
    } else {
        assert(rule_strings(rs) =~= Seq::<Json>::empty());
        assert(rule_views(rs) =~= Seq::<(Term, crate::snapshot_json::ActionSpec)>::empty());
    }
}

pub open spec fn plain_terms(v: Seq<crate::term::Mu>) -> bool {
    forall|i: int| 0 <= i < v.len() ==> plain_term(#[trigger] v[i]@)
}

proof fn lemma_plain_children(v: Seq<crate::term::Mu>)
    requires
        plain_terms(v),
    ensures
        forall|i: int| 0 <= i < children_of(v).len() ==> plain_term(#[trigger] children_of(v)[i]),
{
    assert forall|i: int| 0 <= i < children_of(v).len() implies plain_term(#[trigger] children_of(v)[i]) by {
        assert(children_of(v)[i] == v[i]@);
    }
}

proof fn lemma_snapshot_fields(world: Seq<char>, rules: Seq<RcxRule>, s: RCXState)
    ensures
        ({
            let top = snapshot_obj(world, rules, s)->Obj_0;
            let prog = top[0].1->Obj_0;
            let st = top[2].1->Obj_0;
            &&& field(top, "program"@) == Some(top[0].1)
            &&& field(top, "state"@) == Some(top[2].1)
            &&& field(prog, "rules"@) == Some(Json::Arr(rule_strings(rules)))
            &&& field(st, "current"@) == Some(st[0].1)
            &&& field(st, "inf_reg"@) == Some(st[1].1)
            &&& field(st, "lobes"@) == Some(st[2].1)
            &&& field(st, "null_reg"@) == Some(st[3].1)
            &&& field(st, "ra"@) == Some(st[4].1)
            &&& field(st, "sink"@) == Some(st[5].1)
            &&& field(st, "step_counter"@) == Some(st[6].1)
        }),
{
    reveal_strlit("program");
    reveal_strlit("schema");
    reveal_strlit("state");
    reveal_strlit("world");
    reveal_strlit("rules");
    reveal_strlit("current");
    reveal_strlit("inf_reg");
    reveal_strlit("lobes");
    reveal_strlit("null_reg");
    reveal_strlit("ra");
    reveal_strlit("sink");
    reveal_strlit("step_counter");
    assert("program"@.len() == 7 && "schema"@.len() == 6 && "state"@.len() == 5 && "world"@.len() == 5);
    assert("state"@[0] != "world"@[0]);
    assert("current"@.len() == 7 && "inf_reg"@.len() == 7 && "lobes"@.len() == 5);
    assert("null_reg"@.len() == 8 && "ra"@.len() == 2 && "sink"@.len() == 4);
    assert("step_counter"@.len() == 12);
    assert("current"@[0] != "inf_reg"@[0]);
    reveal_with_fuel(lookup, 9);
}

/// Reading back the object that a snapshot document stands for gives the same
/// rules, term in flight, buckets, registers and step counter, when every term
/// has plain symbols, no rule term holds `->` and the counter fits in `i64`.
pub proof fn law_snapshot_round_trip(world: Seq<char>, rules: Seq<RcxRule>, s: RCXState)
    requires
        forall|i: int| 0 <= i < rules.len() ==> plain_rule(#[trigger] rules[i]),
        match opt_view(s.current) {
            Some(t) => plain_term(t),
            None => true,
        },
        plain_terms(s.ra@),
        plain_terms(s.lobes@),
        plain_terms(s.sink@),
        plain_terms(s.null_reg@),
        plain_terms(s.inf_reg@),
        s.step_counter <= i64::MAX,
    ensures
        snapshot_spec(snapshot_obj(world, rules, s)) == Some(
            SnapshotModel {
                rules: rule_views(rules),
                current: opt_view(s.current),
                ra: children_of(s.ra@),
                lobes: children_of(s.lobes@),
                sink: children_of(s.sink@),
                null_reg: children_of(s.null_reg@),
                inf_reg: children_of(s.inf_reg@),
                step_counter: s.step_counter as nat,
            },
        ),
{
    lemma_snapshot_fields(world, rules, s);
    lemma_rules_back(rules);
    lemma_plain_children(s.ra@);
    lemma_plain_children(s.lobes@);
    lemma_plain_children(s.sink@);
    lemma_plain_children(s.null_reg@);
    lemma_plain_children(s.inf_reg@);
    lemma_terms_back(children_of(s.ra@));
    lemma_terms_back(children_of(s.lobes@));
    lemma_terms_back(children_of(s.sink@));
    lemma_terms_back(children_of(s.null_reg@));
    lemma_terms_back(children_of(s.inf_reg@));
    lemma_decimal_digits(s.step_counter as nat);
    if let Some(t) = opt_view(s.current) {
        law_term_text_round_trip(t);
    }
}

} // verus!
