use rcx_pi_rust::classify::{classify, Classification};
use rcx_pi_rust::engine::{process, Engine};
use rcx_pi_rust::engine_json::{engine_run_to_json, parse_inputs};
use rcx_pi_rust::formatter::{bucket_to_string, json_escape, mu_to_string, route_to_string};
use rcx_pi_rust::json_value::JsonValue;
use rcx_pi_rust::matching::{apply_subst, match_pattern, mu_matches, substitute_template, unify, Env};
use rcx_pi_rust::orbit::{classify_orbit, orbit, step_once};
use rcx_pi_rust::orbit_json::orbit_to_json;
use rcx_pi_rust::parser::parse_mu;
use rcx_pi_rust::replay_cli::{compare_expected, parse_args, replay_trace, ReplayVerdict, EXIT_MISMATCH, EXIT_OK};
use rcx_pi_rust::runtime::{classify_with_program, run_program, run_program_bounded};
use rcx_pi_rust::snapshot_json::{parse_rule_line, rule_to_string, snapshot_from_json, snapshot_to_json};
use rcx_pi_rust::state::RCXState;
use rcx_pi_rust::trace::RouteKind;
use rcx_pi_rust::trace_canon::{canon_event, canonicalize_trace, read_jsonl};
use rcx_pi_rust::types::{Mu, RcxProgram, RcxRule, RuleAction};

fn sym(s: &str) -> Mu {
    Mu::Sym(s.to_string())
}

fn node(items: Vec<Mu>) -> Mu {
    Mu::Node(items)
}

fn rewrite(p: Mu, t: Mu) -> RcxRule {
    RcxRule { pattern: p, action: RuleAction::Rewrite(t) }
}

#[test]
fn classify_is_deterministic() {
    let terms = vec![
        sym("A"),
        node(vec![]),
        node(vec![sym("A")]),
        node(vec![sym("A"), sym("A")]),
        node(vec![sym("A"), node(vec![])]),
        node(vec![sym("UNSTABLE"), sym("A"), sym("B")]),
        node(vec![sym("PARADOX")]),
    ];
    for t in &terms {
        assert_eq!(classify(t), classify(t));
    }
    assert_eq!(classify(&terms[0]), Classification::Ra);
    assert_eq!(classify(&terms[1]), Classification::Lobe);
    assert_eq!(classify(&terms[2]), Classification::Lobe);
    assert_eq!(classify(&terms[3]), Classification::Lobe);
    assert_eq!(classify(&terms[4]), Classification::Sink);
    assert_eq!(classify(&terms[5]), Classification::Lobe);
    assert_eq!(classify(&terms[6]), Classification::Sink);
}

#[test]
fn classify_examples() {
    assert_eq!(classify(&sym("ATOM")), Classification::Ra);
    assert_eq!(classify(&node(vec![sym("X"), sym("X"), sym("X")])), Classification::Lobe);
    assert_eq!(classify(&node(vec![sym("X"), sym("Y")])), Classification::Sink);
}

#[test]
fn atom_routes_to_ra_bucket() {
    let program = RcxProgram::new(vec![]);
    let mut state = RCXState::new();
    let r = process(&mut state, &program, sym("ATOM"));
    assert_eq!(r, RouteKind::Ra);
    assert_eq!(state.ra, vec![sym("ATOM")]);
    assert_eq!(state.trace.len(), 1);
    assert_eq!(state.trace[0].phase, "engine_structural_ra");
}

#[test]
fn process_appends_one_entry_and_one_event_each_time() {
    let program = RcxProgram::new(vec![
        RcxRule { pattern: node(vec![sym("news"), sym("_")]), action: RuleAction::ToSink },
        rewrite(sym("PING"), sym("PONG")),
    ]);
    let mut state = RCXState::new();
    let inputs = vec![
        sym("A"),
        node(vec![sym("news"), sym("x")]),
        sym("PING"),
        node(vec![sym("X"), sym("X")]),
        node(vec![sym("X"), sym("Y")]),
    ];
    for (k, t) in inputs.into_iter().enumerate() {
        let before = state.ra.len() + state.lobes.len() + state.sink.len();
        process(&mut state, &program, t);
        assert_eq!(state.ra.len() + state.lobes.len() + state.sink.len(), before + 1);
        assert_eq!(state.trace.len(), k + 1);
        assert_eq!(state.step_counter, k + 1);
    }
    for (i, e) in state.trace.iter().enumerate() {
        assert_eq!(e.step_index, i + 1);
    }
    assert_eq!(state.ra.len(), 2);
    assert_eq!(state.lobes.len(), 1);
    assert_eq!(state.sink.len(), 2);
}

#[test]
fn ping_rewrites_to_pong_with_one_event() {
    let program = RcxProgram::new(vec![rewrite(sym("PING"), sym("PONG"))]);
    let mut engine = Engine::new(program);
    let mut state = RCXState::new();
    let r = engine.process_input(&mut state, sym("PING"));
    assert_eq!(r, Some(RouteKind::Ra));
    assert_eq!(state.ra, vec![sym("PONG")]);
    assert_eq!(state.trace.len(), 1);
    assert_eq!(state.trace[0].payload, sym("PONG"));
    assert_eq!(state.trace[0].phase, "engine_rule_rewrite");
    assert_eq!(state.trace[0].route, RouteKind::Ra);
}

#[test]
fn orbit_example_three_rules() {
    let x = sym("X");
    let xx = node(vec![sym("X"), sym("X")]);
    let xxx = node(vec![sym("X"), sym("X"), sym("X")]);
    let program = RcxProgram::new(vec![
        rewrite(x.clone(), xx.clone()),
        rewrite(xx.clone(), xxx.clone()),
        rewrite(xxx.clone(), sym("STABLE")),
    ]);
    let seq = orbit(&program, x.clone(), 10);
    assert_eq!(seq, vec![x, xx, xxx, sym("STABLE")]);
    assert_eq!(classify_orbit(&seq), "no detected cycle up to 4 steps");
}

#[test]
fn orbit_never_exceeds_budget() {
    let program = RcxProgram::new(vec![rewrite(sym("A"), sym("B")), rewrite(sym("B"), sym("A"))]);
    for n in 0..6usize {
        let seq = orbit(&program, sym("A"), n);
        assert_eq!(seq.len(), n + 1);
    }
    let none = RcxProgram::new(vec![]);
    assert_eq!(orbit(&none, sym("A"), 5), vec![sym("A")]);
}

#[test]
fn orbit_binds_lowercase_variables() {
    let program = RcxProgram::new(vec![
        RcxRule { pattern: sym("Q"), action: RuleAction::ToRa },
        rewrite(node(vec![sym("x"), sym("y")]), node(vec![sym("y"), sym("x")])),
    ]);
    let next = step_once(&program, &node(vec![sym("A"), sym("B")]));
    assert_eq!(next, Some(node(vec![sym("B"), sym("A")])));
    assert_eq!(step_once(&program, &sym("Q")), None);
}

#[test]
fn omega_labels() {
    let a = sym("A");
    let b = sym("B");
    let c = sym("C");
    assert_eq!(classify_orbit(&[]), "empty orbit (no states produced)");
    assert_eq!(classify_orbit(&[a.clone()]), "no detected cycle up to 1 step");
    assert_eq!(classify_orbit(&[a.clone(), a.clone()]), "fixed point");
    assert_eq!(classify_orbit(&[a.clone(), b.clone(), a.clone(), b.clone()]), "pure limit cycle (period = 2)");
    assert_eq!(classify_orbit(&[a.clone(), b.clone(), b.clone()]), "transient of length 1 then fixed point");
    assert_eq!(
        classify_orbit(&[a.clone(), b.clone(), c.clone(), b.clone()]),
        "transient of length 1 then limit cycle (period = 2)"
    );
    assert_eq!(
        classify_orbit(&[a.clone(), b.clone(), a.clone(), c.clone(), a.clone()]),
        "transient of length 2 then limit cycle (period = 2)"
    );
    assert_eq!(classify_orbit(&[a.clone(), b.clone(), c.clone()]), "no detected cycle up to 3 steps");
}

#[test]
fn matching_conventions() {
    let mut env = Env::new();
    assert!(match_pattern(&node(vec![sym("x"), sym("x")]), &node(vec![sym("A"), sym("A")]), &mut env));
    assert_eq!(env.get("x"), Some(&sym("A")));
    let mut env2 = Env::new();
    assert!(!match_pattern(&node(vec![sym("x"), sym("x")]), &node(vec![sym("A"), sym("B")]), &mut env2));
    let mut env3 = Env::new();
    assert!(!match_pattern(&sym("_"), &sym("A"), &mut env3));
    assert_eq!(substitute_template(&node(vec![sym("x"), sym("z")]), &env), node(vec![sym("A"), sym("z")]));

    assert!(mu_matches(&node(vec![sym("_"), sym("B")]), &node(vec![node(vec![]), sym("B")])));
    assert!(!mu_matches(&node(vec![sym("A")]), &node(vec![sym("A"), sym("B")])));
    assert!(!mu_matches(&sym("x"), &sym("y")));

    let s = unify(&node(vec![sym("X"), sym("_"), sym("X")]), &node(vec![sym("a"), sym("b"), sym("a")])).unwrap();
    assert_eq!(s.len(), 1);
    assert_eq!(apply_subst(&node(vec![sym("X"), sym("_"), sym("Y")]), &s), node(vec![sym("a"), sym("_"), sym("Y")]));
    assert!(unify(&node(vec![sym("X"), sym("X")]), &node(vec![sym("a"), sym("b")])).is_none());
}

#[test]
fn rendering_and_parsing_terms() {
    let t = node(vec![sym("A"), node(vec![sym("B"), sym("C")]), node(vec![])]);
    assert_eq!(mu_to_string(&t), "[A,[B,C],[]]");
    assert_eq!(parse_mu("[A,[B,C],[]]").unwrap(), t);
    assert_eq!(parse_mu("  [ A , [B, C] , [ ] ] ").unwrap(), t);
    assert_eq!(parse_mu("NEWS").unwrap(), sym("NEWS"));
    assert!(parse_mu("").is_err());
    assert!(parse_mu("[A,]").is_err());
    assert!(parse_mu("[A").is_err());
    assert!(parse_mu("A]").is_err());
    assert_eq!(bucket_to_string(&[]), "[]");
    assert_eq!(bucket_to_string(&[sym("A"), node(vec![sym("B"), sym("C")])]), "[A, [B,C]]");
    assert_eq!(route_to_string(RouteKind::StructuralFallback), "structural");
}

#[test]
fn json_escaping() {
    assert_eq!(json_escape("a\"b\\c\nd\re\tf\u{1}g\u{7f}h"), "\"a\\\"b\\\\c\\nd\\re\\tf\\u0001g\\u007fh\"");
    assert_eq!(json_escape("plain"), "\"plain\"");
}

#[test]
fn rule_lines_round_trip() {
    let rules = vec![
        RcxRule { pattern: node(vec![sym("news"), sym("_")]), action: RuleAction::ToRa },
        RcxRule { pattern: sym("A"), action: RuleAction::ToLobe },
        RcxRule { pattern: sym("B"), action: RuleAction::ToSink },
        rewrite(node(vec![sym("PING"), sym("PING")]), node(vec![sym("PONG"), sym("PING")])),
    ];
    let texts = ["[news,_] -> ra", "A -> lobe", "B -> sink", "[PING,PING] -> rewrite [PONG,PING]"];
    for (r, t) in rules.iter().zip(texts.iter()) {
        assert_eq!(rule_to_string(r), *t);
        let back = parse_rule_line(t).unwrap();
        assert_eq!(back.pattern, r.pattern);
        assert_eq!(rule_to_string(&back), *t);
    }
    assert!(matches!(parse_rule_line("X -> LOBES").unwrap().action, RuleAction::ToLobe));
    assert!(parse_rule_line("X -> nowhere").is_err());
    assert!(parse_rule_line("X ra").is_err());
    assert!(parse_rule_line("X -> ra -> sink").is_err());
}

#[test]
fn snapshot_round_trip_keeps_all_but_trace() {
    let program = RcxProgram::new(vec![
        RcxRule { pattern: node(vec![sym("news"), sym("stable")]), action: RuleAction::ToRa },
        rewrite(sym("PING"), node(vec![sym("PONG"), node(vec![sym("a")])])),
    ]);
    let mut state = RCXState::new();
    process(&mut state, &program, node(vec![sym("news"), sym("stable")]));
    process(&mut state, &program, sym("PING"));
    process(&mut state, &program, node(vec![sym("Q"), sym("R")]));
    state.current = Some(node(vec![sym("c"), sym("d")]));
    state.null_reg.push(sym("n"));
    let json = snapshot_to_json("w1", &program, &state);
    let (world, prog2, s2) = snapshot_from_json("w1", &json).unwrap();
    assert_eq!(world, "w1");
    assert_eq!(prog2.rules.len(), 2);
    for (a, b) in prog2.rules.iter().zip(program.rules.iter()) {
        assert_eq!(rule_to_string(a), rule_to_string(b));
    }
    assert_eq!(s2.current, state.current);
    assert_eq!(s2.ra, state.ra);
    assert_eq!(s2.lobes, state.lobes);
    assert_eq!(s2.sink, state.sink);
    assert_eq!(s2.null_reg, state.null_reg);
    assert_eq!(s2.inf_reg, state.inf_reg);
    assert_eq!(s2.step_counter, 3);
    assert!(s2.trace.is_empty());
}

#[test]
fn snapshot_text_is_exact() {
    let program = RcxProgram::new(vec![RcxRule { pattern: sym("A"), action: RuleAction::ToRa }]);
    let mut state = RCXState::new();
    process(&mut state, &program, sym("A"));
    let json = snapshot_to_json("w", &program, &state);
    assert_eq!(
        json,
        "{\"schema\":\"rcx.snapshot.v1\",\"world\":\"w\",\"program\":{\"rules\":[\"A -> ra\"]},\"state\":{\"current\":null,\"ra\":[\"A\"],\"lobes\":[],\"sink\":[],\"step_counter\":1,\"null_reg\":[],\"inf_reg\":[],\"trace\":[{\"step\":1,\"phase\":\"engine_rule_to_ra\",\"route\":\"ra\",\"payload\":\"A\"}]}}"
    );
    assert!(snapshot_from_json("w", "{\"program\":{}}").is_err());
    assert!(snapshot_from_json("w", "not json").is_err());
}

#[test]
fn engine_run_text_is_exact() {
    let program = RcxProgram::new(vec![]);
    let inputs = parse_inputs(&["A".to_string(), "[B,C]".to_string()]).unwrap();
    let json = engine_run_to_json("w", &program, &inputs);
    assert_eq!(
        json,
        "{\"schema\":\"rcx.engine_run.v1\",\"world\":\"w\",\"inputs\":[{\"i\":0,\"mu\":\"A\"},{\"i\":1,\"mu\":\"[B,C]\"}],\"buckets\":{\"ra\":[\"A\"],\"lobes\":[],\"sink\":[\"[B,C]\"]},\"trace\":[{\"step\":1,\"phase\":\"engine_structural_ra\",\"route\":\"ra\",\"payload\":\"A\"},{\"step\":2,\"phase\":\"engine_structural_sink\",\"route\":\"sink\",\"payload\":\"[B,C]\"}]}"
    );
    assert!(parse_inputs(&["[".to_string()]).is_err());
}

#[test]
fn orbit_document() {
    let program = RcxProgram::new(vec![rewrite(node(vec![sym("x"), sym("y")]), node(vec![sym("y"), sym("x")]))]);
    let json = orbit_to_json(&program, node(vec![sym("A"), sym("B")]), 2);
    assert_eq!(
        json,
        "{\"schema\":\"rcx.orbit.v1\",\"seed\":\"[A,B]\",\"max_steps\":2,\"states\":[{\"i\":0,\"mu\":\"[A,B]\"},{\"i\":1,\"mu\":\"[B,A]\"},{\"i\":2,\"mu\":\"[A,B]\"}],\"provenance\":[{\"i\":1,\"rule_i\":0,\"pattern\":\"[x,y]\",\"template\":\"[y,x]\",\"bindings\":{\"x\":\"A\",\"y\":\"B\"}},{\"i\":2,\"rule_i\":0,\"pattern\":\"[x,y]\",\"template\":\"[y,x]\",\"bindings\":{\"x\":\"B\",\"y\":\"A\"}}],\"classification\":\"pure limit cycle (period = 2)\"}"
    );
}

#[test]
fn numbers_are_canonical() {
    let cases = [
        ("1.0", "1"),
        ("1e2", "100"),
        ("-0", "0"),
        ("0.50", "0.5"),
        ("1.5e-3", "0.0015"),
        ("-12.340E+1", "-123.4"),
        ("120e-1", "12"),
    ];
    for (src, want) in cases.iter() {
        assert_eq!(JsonValue::parse(src).unwrap(), JsonValue::Number(want.to_string()));
    }
    assert!(JsonValue::parse("01").is_err());
    assert!(JsonValue::parse("1.").is_err());
    assert!(JsonValue::parse("1e999").is_err());
    assert!(JsonValue::parse("{\"a\":1} x").is_err());
}

#[test]
fn strings_decode_escapes() {
    assert_eq!(
        JsonValue::parse("\"\\u0041\\n\\/\\\\\"").unwrap(),
        JsonValue::String("A\n/\\".to_string())
    );
    assert!(JsonValue::parse("\"\\u00G1\"").is_err());
    assert!(JsonValue::parse("\"open").is_err());
}

#[test]
fn deep_sort_orders_nested_keys() {
    let v = JsonValue::parse("{\"b\":{\"z\":1,\"a\":[{\"d\":1,\"c\":2}]},\"a\":null,\"b\":{\"y\":true}}").unwrap();
    assert_eq!(v.to_canonical_json(), "{\"a\":null,\"b\":{\"y\":true}}");
    let w = JsonValue::Object(vec![
        ("z".to_string(), JsonValue::Null),
        ("a".to_string(), JsonValue::Object(vec![("q".to_string(), JsonValue::Bool(false)), ("p".to_string(), JsonValue::Null)])),
    ]);
    assert_eq!(w.deep_sorted().to_canonical_json(), "{\"a\":{\"p\":null,\"q\":false},\"z\":null}");
    assert_eq!(w.deep_sorted().deep_sorted(), w.deep_sorted());
}

#[test]
fn canonicalization_is_idempotent() {
    let input = "{\"i\":0,\"type\":\"start\",\"v\":1,\"meta\":{\"z\":1,\"a\":{\"y\":2.50,\"b\":3}}}\n\n{\"type\":\"next\",\"v\":1,\"i\":1,\"mu\":[{\"k\":1,\"c\":0}],\"t\":\"x\"}\n";
    let once = canonicalize_trace(input).unwrap();
    assert_eq!(
        once,
        "{\"v\":1,\"type\":\"start\",\"i\":0,\"meta\":{\"a\":{\"b\":3,\"y\":2.5},\"z\":1}}\n{\"v\":1,\"type\":\"next\",\"i\":1,\"t\":\"x\",\"mu\":[{\"c\":0,\"k\":1}]}\n"
    );
    let twice = canonicalize_trace(&once).unwrap();
    assert_eq!(once, twice);
}

#[test]
fn gap_in_indices_is_a_contiguity_error() {
    let input = "{\"v\":1,\"type\":\"a\",\"i\":0}\n{\"v\":1,\"type\":\"b\",\"i\":2}\n";
    let err = canonicalize_trace(input).unwrap_err();
    assert!(err.contains("contiguous"));
    let reordered = "{\"v\":1,\"type\":\"a\",\"i\":1}\n{\"v\":1,\"type\":\"b\",\"i\":0}\n";
    assert!(canonicalize_trace(reordered).unwrap_err().contains("contiguous"));
}

#[test]
fn invalid_events_are_rejected() {
    let bad = [
        "{\"v\":2,\"type\":\"a\",\"i\":0}",
        "{\"v\":\"1\",\"type\":\"a\",\"i\":0}",
        "{\"v\":1,\"type\":\" \",\"i\":0}",
        "{\"v\":1,\"type\":\"a\",\"i\":-1}",
        "{\"v\":1,\"type\":\"a\",\"i\":0.5}",
        "{\"v\":1,\"type\":\"a\",\"i\":0,\"t\":\"\"}",
        "{\"v\":1,\"type\":\"a\",\"i\":0,\"t\":3}",
        "{\"v\":1,\"type\":\"a\",\"i\":0,\"meta\":[1]}",
        "[1]",
        "{\"type\":\"a\",\"i\":0}",
    ];
    for b in bad.iter() {
        let v = JsonValue::parse(b).unwrap();
        assert!(canon_event(&v).is_err(), "{}", b);
    }
    let ok = JsonValue::parse("{\"v\":1,\"type\":\"a\",\"i\":0,\"t\":null,\"meta\":null,\"mu\":null}").unwrap();
    let ev = canon_event(&ok).unwrap();
    assert_eq!(ev.v, 1);
    assert!(ev.t.is_none() && ev.mu.is_none() && ev.meta.is_none());
    assert!(read_jsonl("[1]\n").is_err());
    assert!(read_jsonl("{oops\n").is_err());
    assert_eq!(read_jsonl("\n  \n").unwrap().len(), 0);
}

#[test]
fn replay_outcomes() {
    let canonical = "{\"v\":1,\"type\":\"a\",\"i\":0}\n";
    let loose = "{\"i\":0,\"type\":\"a\",\"v\":1}\n";
    assert!(matches!(replay_trace(canonical, true), ReplayVerdict::Canonical(ref c) if c == canonical));
    assert!(matches!(replay_trace(loose, true), ReplayVerdict::NotCanonical));
    assert!(matches!(replay_trace(loose, false), ReplayVerdict::Canonical(ref c) if c == canonical));
    assert!(matches!(replay_trace("{\"i\":1,\"type\":\"a\"}", false), ReplayVerdict::Invalid(_)));
    assert_eq!(compare_expected(canonical, canonical), EXIT_OK);
    assert_eq!(compare_expected(canonical, loose), EXIT_MISMATCH);
}

#[test]
fn argument_errors() {
    assert_eq!(parse_args(&["--help".to_string()]).err(), Some(String::new()));
    assert_eq!(parse_args(&[]).err(), Some("--trace is required".to_string()));
    assert_eq!(parse_args(&["--trace".to_string()]).err(), Some("--trace requires a path".to_string()));
    assert_eq!(parse_args(&["--bogus".to_string()]).err(), Some("unknown argument: --bogus".to_string()));
}

#[test]
fn program_aware_runtime() {
    let program = RcxProgram::new(vec![
        rewrite(sym("A"), sym("B")),
        RcxRule { pattern: sym("B"), action: RuleAction::ToSink },
    ]);
    let mut state = RCXState::with_seed(sym("A"));
    assert_eq!(classify_with_program(&mut state, &program), Some(RouteKind::Rewrite));
    assert_eq!(state.current, Some(sym("B")));
    assert_eq!(classify_with_program(&mut state, &program), Some(RouteKind::Sink));
    assert_eq!(state.current, None);
    assert_eq!(state.sink, vec![sym("B")]);
    assert_eq!(classify_with_program(&mut state, &program), None);

    let mut s2 = RCXState::with_seed(sym("A"));
    run_program(&mut s2, &program);
    assert_eq!(s2.current, None);
    assert_eq!(s2.sink, vec![sym("B")]);
    assert_eq!(s2.trace.len(), 2);

    let mut s4 = RCXState::with_seed(node(vec![sym("UNSTABLE"), sym("A"), sym("B")]));
    assert_eq!(classify_with_program(&mut s4, &program), Some(RouteKind::Lobe));
    assert_eq!(s4.lobes.len(), 1);
    assert_eq!(s4.trace[0].phase, "classify_with_program(structural)");

    let mut s3 = RCXState::with_seed(node(vec![]));
    run_program(&mut s3, &program);
    assert_eq!(s3.lobes, vec![node(vec![])]);
}

#[test]
fn bounded_runs_stop_at_the_budget() {
    let cycle = RcxProgram::new(vec![rewrite(sym("A"), sym("B")), rewrite(sym("B"), sym("A"))]);
    let mut s = RCXState::with_seed(sym("A"));
    assert_eq!(run_program_bounded(&mut s, &cycle, 5), 5);
    assert_eq!(s.current, Some(sym("B")));
    assert_eq!(s.trace.len(), 5);
    let ends = RcxProgram::new(vec![
        rewrite(sym("A"), sym("B")),
        RcxRule { pattern: sym("B"), action: RuleAction::ToSink },
    ]);
    let mut t = RCXState::with_seed(sym("A"));
    assert_eq!(run_program_bounded(&mut t, &ends, 10), 2);
    assert_eq!(t.current, None);
    assert_eq!(t.sink, vec![sym("B")]);
}
