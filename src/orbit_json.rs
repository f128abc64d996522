use vstd::prelude::*;
use crate::formatter::{json_string, mu_to_string, push_json_string, render};
use crate::matching::Env;
use crate::orbit::{Provenance, bindings_of, classify_orbit, first_rewrite, orbit_label, orbit_seq, orbit_with_provenance, var_match};
use crate::term::{Mu, Term, children_of};
use crate::text::{decimal, push_char, push_decimal, push_text};
use crate::types::{RcxProgram, RcxRule};

verus! {

/// `{"i":k,"mu":..}` for the first `n` states, comma-separated.
pub open spec fn states_json(ts: Seq<Term>, n: int) -> Seq<char>
    decreases n,
{
    if n <= 0 || n > ts.len() {
        Seq::empty()
    } else {
        (if n == 1 {
            Seq::empty()
        } else {
            states_json(ts, n - 1) + seq![',']
        }) + "{\"i\":"@ + decimal((n - 1) as nat) + ",\"mu\":"@ + json_string(render(ts[n - 1]))
            + "}"@
    }
}

/// The bindings of an environment as `"name":"term"` pairs in binding order.
pub open spec fn bindings_json(es: Seq<(String, Mu)>, n: int) -> Seq<char>
    decreases n,
{
    if n <= 0 || n > es.len() {
        Seq::empty()
    } else {
        (if n == 1 {
            Seq::empty()
        } else {
            bindings_json(es, n - 1) + seq![',']
        }) + json_string(es[n - 1].0@) + seq![':'] + json_string(render(es[n - 1].1@))
    }
}

/// One provenance record as JSON; bindings only when there are any.
pub open spec fn prov_json(p: Provenance) -> Seq<char> {
    "{\"i\":"@ + decimal(p.i as nat) + ",\"rule_i\":"@ + decimal(p.rule_i as nat) + ",\"pattern\":"@
        + json_string(render(p.pattern@)) + ",\"template\":"@ + json_string(render(p.template@))
        + (if p.bindings.entries@.len() == 0 {
        Seq::empty()
    } else {
        ",\"bindings\":{"@ + bindings_json(p.bindings.entries@, p.bindings.entries@.len() as int)
            + "}"@
    }) + "}"@
}

pub open spec fn provs_json(ps: Seq<Provenance>, n: int) -> Seq<char>
    decreases n,
{
    if n <= 0 || n > ps.len() {
        Seq::empty()
    } else if n == 1 {
        prov_json(ps[0])
    } else {
        provs_json(ps, n - 1) + seq![','] + prov_json(ps[n - 1])
    }
}

/// The orbit document.
pub open spec fn orbit_doc(seed: Term, max_steps: nat, states: Seq<Term>, ps: Seq<Provenance>) -> Seq<
    char,
> {
    "{\"schema\":"@ + json_string("rcx.orbit.v1"@) + ",\"seed\":"@ + json_string(render(seed))
        + ",\"max_steps\":"@ + decimal(max_steps) + ",\"states\":["@ + states_json(
        states,
        states.len() as int,
    ) + "],\"provenance\":["@ + provs_json(ps, ps.len() as int) + "],\"classification\":"@
        + json_string(orbit_label(states)) + "}"@
}

/// Provenance records that fit the orbit `seq` under `rules`.
pub open spec fn provenance_fits(rules: Seq<RcxRule>, seq: Seq<Mu>, ps: Seq<Provenance>) -> bool {
    &&& ps.len() + 1 == seq.len()
    &&& forall|j: int|
        0 <= j < ps.len() ==> {
            let p = #[trigger] ps[j];
            &&& p.i == j + 1
            &&& first_rewrite(rules, seq[j]@, rules.len() as int) == Some(p.rule_i as int)
            &&& p.pattern@ == rules[p.rule_i as int].pattern@
            &&& p.template@ == rules[p.rule_i as int].action->Rewrite_0@
            &&& bindings_of(p.bindings, p.pattern@, seq[j]@)
        }
}

fn push_bindings(out: &mut String, env: &Env)
    ensures
        final(out)@ == old(out)@ + bindings_json(env.entries@, env.entries@.len() as int),
{
    let ghost start = out@;
    let es = &env.entries;
    let mut i: usize = 0;
    while i < es.len()
        invariant
            es@ == env.entries@,
            0 <= i <= es@.len(),
            out@ == start + bindings_json(es@, i as int),
        decreases es.len() - i,
    {
        if i > 0 {
            push_char(out, ',');
        }
        push_json_string(out, es[i].0.as_str());
        push_char(out, ':');
        let text = mu_to_string(&es[i].1);
        push_json_string(out, text.as_str());
        proof {
            assert(out@ =~= start + bindings_json(es@, i + 1));
        }
        i += 1;
    }
}

fn push_prov(out: &mut String, p: &Provenance)
    ensures
        final(out)@ == old(out)@ + prov_json(*p),
{
    let ghost start = out@;
    push_text(out, "{\"i\":");
    push_decimal(out, p.i as u64);
    push_text(out, ",\"rule_i\":");
    push_decimal(out, p.rule_i as u64);
    push_text(out, ",\"pattern\":");
    let pt = mu_to_string(&p.pattern);
    push_json_string(out, pt.as_str());
    push_text(out, ",\"template\":");
    let tt = mu_to_string(&p.template);
    push_json_string(out, tt.as_str());
    let ghost mid = out@;
    if p.bindings.entries.len() > 0 {
        push_text(out, ",\"bindings\":{");
        push_bindings(out, &p.bindings);
        push_text(out, "}");
    }
    push_text(out, "}");
    proof {
        assert(out@ =~= start + prov_json(*p));
    }
}

/// The orbit of `seed` as a JSON document: states, provenance of each step and
/// the long-run label.
pub fn orbit_to_json(program: &RcxProgram, seed: Mu, max_steps: usize) -> (r: String)
    ensures
        exists|seq: Seq<Mu>, ps: Seq<Provenance>|
            children_of(seq) == orbit_seq(program.rules@, seed@, max_steps as nat)
                && provenance_fits(program.rules@, seq, ps) && r@ == orbit_doc(
                seed@,
                max_steps as nat,
                children_of(seq),
                ps,
            ),
{
    let ghost seed_v = seed@;
    let text_seed = mu_to_string(&seed);
    let (seq, prov) = orbit_with_provenance(program, seed, max_steps);
    let classification = classify_orbit(seq.as_slice());
    let ghost states = children_of(seq@);
    let mut out = String::new();
    push_text(&mut out, "{\"schema\":");
    push_json_string(&mut out, "rcx.orbit.v1");
    push_text(&mut out, ",\"seed\":");
    push_json_string(&mut out, text_seed.as_str());
    push_text(&mut out, ",\"max_steps\":");
    push_decimal(&mut out, max_steps as u64);
    push_text(&mut out, ",\"states\":[");
    let ghost m1 = out@;
    let mut i: usize = 0;
    while i < seq.len()
        invariant
            states == children_of(seq@),
            0 <= i <= seq@.len(),
            out@ == m1 + states_json(states, i as int),
        decreases seq.len() - i,
    {
        if i > 0 {
            push_char(&mut out, ',');
        }
        push_text(&mut out, "{\"i\":");
        push_decimal(&mut out, i as u64);
        push_text(&mut out, ",\"mu\":");
        let t = mu_to_string(&seq[i]);
        push_json_string(&mut out, t.as_str());
        push_text(&mut out, "}");
        proof {
            assert(out@ =~= m1 + states_json(states, i + 1));
        }
        i += 1;
    }
    push_text(&mut out, "],\"provenance\":[");
    let ghost m2 = out@;
    let mut j: usize = 0;
    while j < prov.len()
        invariant
            0 <= j <= prov@.len(),
            out@ == m2 + provs_json(prov@, j as int),
        decreases prov.len() - j,
    {
        if j > 0 {
            push_char(&mut out, ',');
        }
        push_prov(&mut out, &prov[j]);
        proof {
            assert(out@ =~= m2 + provs_json(prov@, j + 1));
        }
        j += 1;
    }
    push_text(&mut out, "],\"classification\":");
    push_json_string(&mut out, classification.as_str());
    push_text(&mut out, "}");
    proof {
        assert(provenance_fits(program.rules@, seq@, prov@));
        assert(out@ =~= orbit_doc(seed_v, max_steps as nat, states, prov@));
    }
    out
}

} // verus!
