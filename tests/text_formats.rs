use rcx_pi_rust::engine::process;
use rcx_pi_rust::engine_json::engine_run_from_state_to_json;
use rcx_pi_rust::mu_loader::{normalize_world_path, parse_program_text, program_to_text};
use rcx_pi_rust::runtime::reduce_step;
use rcx_pi_rust::serialize::{
    escape_json_string, load_buckets_text, load_state_text, parse_bucket, save_buckets_text,
    save_state_text, world_json_text,
};
use rcx_pi_rust::snapshot_json::rule_to_string;
use rcx_pi_rust::state::RCXState;
use rcx_pi_rust::trace::{log_event, RouteKind};
use rcx_pi_rust::types::{Mu, RcxProgram, RcxRule, RuleAction};

fn sym(s: &str) -> Mu {
    Mu::Sym(s.to_string())
}

fn node(items: Vec<Mu>) -> Mu {
    Mu::Node(items)
}

#[test]
fn program_file_round_trip() {
    let text = "# comment\n\n[null,_]    -> ra\n[inf,_] -> LOBE\n  [paradox,_] -> sink\nPING -> rewrite(PONG)\n[PING,PING] -> Rewrite([PONG,PING])\n";
    let program = parse_program_text(text).unwrap();
    assert_eq!(program.rules.len(), 5);
    assert!(matches!(program.rules[1].action, RuleAction::ToLobe));
    let written = program_to_text(&program);
    assert_eq!(
        written,
        "[null,_] -> ra\n[inf,_] -> lobe\n[paradox,_] -> sink\nPING -> rewrite(PONG)\n[PING,PING] -> rewrite([PONG,PING])\n"
    );
    let again = parse_program_text(&written).unwrap();
    assert_eq!(program_to_text(&again), written);
    assert!(parse_program_text("A -> elsewhere\n").is_err());
    assert!(parse_program_text("A B\n").is_err());
    assert!(parse_program_text("A -> rewrite(B\n").is_err());
}

#[test]
fn state_file_round_trip() {
    let program = RcxProgram::new(vec![
        RcxRule { pattern: node(vec![sym("news"), sym("stable")]), action: RuleAction::ToRa },
        RcxRule { pattern: sym("PING"), action: RuleAction::Rewrite(node(vec![sym("PONG"), sym("PING")])) },
    ]);
    let mut state = RCXState::new();
    state.ra.push(node(vec![sym("null"), sym("a")]));
    state.lobes.push(node(vec![sym("inf"), sym("a")]));
    state.sink.push(sym("z"));
    let text = save_state_text(&state, &program);
    assert_eq!(
        text,
        "# RCX-\u{3c0} snapshot v1\nPROGRAM:\nRULE: [news,stable] -> ra\nRULE: PING -> rewrite [PONG,PING]\nSTATE:\nRA: [null,a]\nLOBE: [inf,a]\nSINK: z\n"
    );
    let (s2, prog2) = load_state_text(&text).unwrap();
    assert_eq!(s2.ra, state.ra);
    assert_eq!(s2.lobes, state.lobes);
    assert_eq!(s2.sink, state.sink);
    assert_eq!(prog2.rules.len(), 2);
    assert_eq!(rule_to_string(&prog2.rules[1]), "PING -> rewrite [PONG,PING]");
    assert!(load_state_text("WHAT: x\n").is_err());
}

#[test]
fn bucket_file_round_trip() {
    let mut state = RCXState::new();
    state.ra.push(sym("A"));
    state.ra.push(node(vec![sym("B"), sym("C")]));
    state.sink.push(sym("Z"));
    let text = save_buckets_text(&state);
    assert_eq!(text, "# RCX state snapshot\nra = [A, [B,C]]\nlobes = []\nsink = [Z]\n");
    let (ra, lobes, sink) = load_buckets_text(&text).unwrap();
    assert_eq!(ra, state.ra);
    assert!(lobes.is_empty());
    assert_eq!(sink, state.sink);
    let (ra2, _, _) = load_buckets_text("ra = [X]\nra = Y\n").unwrap();
    assert_eq!(ra2, vec![sym("Y")]);
    assert_eq!(parse_bucket("Q").unwrap(), vec![sym("Q")]);
    assert!(parse_bucket("[").is_err());
}

#[test]
fn world_export_text() {
    let program = RcxProgram::new(vec![
        RcxRule { pattern: sym("A\"q"), action: RuleAction::ToSink },
        RcxRule { pattern: sym("P"), action: RuleAction::Rewrite(sym("Q")) },
    ]);
    assert_eq!(
        world_json_text(&program),
        "{\n  \"rules\": [\n    {\n      \"pattern\": \"A\\\"q\",\n      \"action\": \"sink\"\n    },\n    {\n      \"pattern\": \"P\",\n      \"action\": \"rewrite\",\n      \"rewrite\": \"Q\"\n    }\n  ]\n}\n"
    );
    assert_eq!(escape_json_string("a\\b\t\u{1}"), "a\\\\b\\t\u{1}");
}

#[test]
fn head_and_logging() {
    let t = Mu::with_head("F".to_string(), vec![sym("x"), sym("y")]);
    assert_eq!(t, node(vec![sym("F"), sym("x"), sym("y")]));
    let mut state = RCXState::new();
    log_event(&mut state, "first", RouteKind::Rewrite, sym("A"));
    state.log_event("second", RouteKind::Sink, sym("B"));
    assert_eq!(state.step_counter, 2);
    assert_eq!(state.trace[0].step_index, 1);
    assert_eq!(state.trace[1].phase, "second");
    assert_eq!(state.trace[1].route, RouteKind::Sink);
    let mut seeded = RCXState::with_seed(sym("S"));
    assert_eq!(reduce_step(&mut seeded), Some(sym("S")));
    assert_eq!(reduce_step(&mut RCXState::new()), None);
}

#[test]
fn engine_run_continues_a_state() {
    let program = RcxProgram::new(vec![]);
    let mut state = RCXState::new();
    process(&mut state, &program, sym("A"));
    let json = engine_run_from_state_to_json("w", &program, &mut state, &[node(vec![sym("B")])]);
    assert_eq!(state.step_counter, 2);
    assert_eq!(state.lobes, vec![node(vec![sym("B")])]);
    assert!(json.ends_with("\"trace\":[{\"step\":1,\"phase\":\"engine_structural_ra\",\"route\":\"ra\",\"payload\":\"A\"},{\"step\":2,\"phase\":\"engine_structural_lobe\",\"route\":\"lobe\",\"payload\":\"[B]\"}]}"));
}

#[test]
fn world_paths() {
    assert_eq!(normalize_world_path("rcx_core"), "mu_programs/rcx_core.mu");
    assert_eq!(normalize_world_path("rcx_core.mu"), "mu_programs/rcx_core.mu");
    assert_eq!(normalize_world_path("mu_programs/rcx_core.mu"), "mu_programs/rcx_core.mu");
    assert_eq!(normalize_world_path("./w"), "./w");
    assert_eq!(normalize_world_path("w/"), "mu_programs/w/.mu");
    assert_eq!(normalize_world_path("/w"), "/w");
    assert_eq!(normalize_world_path(""), "mu_programs/.mu");
}

#[test]
fn buckets_make_a_fresh_state() {
    let s = RCXState::from_buckets(vec![sym("A")], vec![], vec![sym("B")]);
    assert_eq!(s.ra, vec![sym("A")]);
    assert_eq!(s.sink, vec![sym("B")]);
    assert!(s.current.is_none() && s.trace.is_empty() && s.step_counter == 0);
}
