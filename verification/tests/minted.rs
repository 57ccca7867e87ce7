use maskedrunner::index::Table;
use maskedrunner::judge::judge;
use maskedrunner::keys::write_marking;
use maskedrunner::model::{
    glob_match, BindMode, EffectTemplate, Place, Principal, PrincipalClass, Spec, TokenSpec,
    Transition,
};
use maskedrunner::net::Net;
use maskedrunner::observation::{EffectInstance, Observation, Plane, Record};
use maskedrunner::ordered::StrMap;
use maskedrunner::permissiveness::permissiveness;
use maskedrunner::text::trim_text;
use maskedrunner::verify::{verify, VerifyOptions, VerifyOutcome};

fn args(items: &[(&str, &str)]) -> StrMap<String> {
    let mut m = StrMap::new();
    for (k, v) in items {
        m.insert(k.to_string(), v.to_string());
    }
    m
}

fn place(id: &str, tokens: usize, carries: &[&str]) -> Place {
    Place {
        id: id.to_string(),
        tokens: (0..tokens)
            .map(|_| TokenSpec { ty: "repo".to_string(), value: "app".to_string() })
            .collect(),
        carries: carries.iter().map(|c| c.to_string()).collect(),
    }
}

fn emits(kind: &str, items: &[(&str, &str)]) -> EffectTemplate {
    let mut t = Table::new();
    for (k, v) in items {
        t.insert(k.to_string(), v.to_string());
    }
    EffectTemplate { effect: kind.to_string(), requires_relation: Vec::new(), args: t }
}

fn transition(
    id: &str,
    from: &str,
    to: &str,
    binds: &[(&str, BindMode)],
    guard: Option<&str>,
    emits: Vec<EffectTemplate>,
) -> Transition {
    let mut table = Table::new();
    for (k, m) in binds {
        table.insert(k.to_string(), *m);
    }
    Transition {
        id: id.to_string(),
        principal: "bot".to_string(),
        consumes: vec![from.to_string()],
        produces: vec![to.to_string()],
        binds: table,
        guard: guard.map(|g| g.to_string()),
        emits,
    }
}

fn spec(places: Vec<Place>, transitions: Vec<Transition>) -> Spec {
    let mut principals = Table::new();
    principals.insert(
        "bot".to_string(),
        Principal { class: PrincipalClass::Workload, id_pattern: "bot@*".to_string() },
    );
    Spec {
        spec_version: 1,
        workflow: "w".to_string(),
        principals,
        places,
        final_places: vec!["done".to_string()],
        transitions,
        relations: Table::new(),
        invariants: Vec::new(),
    }
}

fn record(id: &str, step: &str, effects: Vec<(&str, &str, &[(&str, &str)])>) -> Record {
    Record {
        id: id.to_string(),
        plane: "ci".to_string(),
        principal: "bot@x".to_string(),
        step: Some(step.to_string()),
        ts: format!("2024-01-01T00:00:0{}Z", id.len()),
        effects: effects
            .into_iter()
            .map(|(id, kind, a)| EffectInstance {
                id: id.to_string(),
                kind: kind.to_string(),
                args: args(a),
            })
            .collect(),
    }
}

fn observed(records: Vec<Record>) -> Observation {
    let mut planes = StrMap::new();
    planes.insert("ci".to_string(), Plane { complete: false, carries: Vec::new() });
    Observation { run_id: "run".to_string(), planes, records, edges: Vec::new() }
}

fn judged(spec: &Spec, obs: &Observation, slack: usize) -> VerifyOutcome {
    verify(&Net::compile(spec), obs, VerifyOptions::for_observation(obs, slack))
}

fn pipeline(shown: bool, guard: Option<&str>) -> Spec {
    let made = if shown { vec![emits("artifact_create", &[("digest", "$digest")])] } else { vec![] };
    spec(
        vec![place("start", 1, &[]), place("artifact", 0, &["digest"]), place("done", 0, &[])],
        vec![
            transition("build", "start", "artifact", &[("digest", BindMode::Fresh)], guard, made),
            transition(
                "test",
                "artifact",
                "done",
                &[],
                None,
                vec![emits("ci_report", &[("digest", "$digest")])],
            ),
        ],
    )
}

#[test]
fn an_unlogged_build_may_have_minted_what_is_shown_later() {
    let obs = observed(vec![record("r1", "test", vec![("e1", "ci_report", &[("digest", "AA11")])])]);
    let outcome = judged(&pipeline(true, None), &obs, 1);
    assert!(outcome.accepted());
    assert_eq!(outcome.witness_path(), "build -> test");
    let witness = outcome.witness.unwrap();
    assert_eq!(witness[0].bindings.get("digest").map(String::as_str), Some("AA11"));
    assert!(!judged(&pipeline(true, None), &obs, 0).accepted());
}

#[test]
fn a_recorded_build_may_have_minted_what_it_does_not_show() {
    let obs = observed(vec![
        record("r1", "build", vec![]),
        record("r22", "test", vec![("e1", "ci_report", &[("digest", "AA11")])]),
    ]);
    let outcome = judged(&pipeline(false, None), &obs, 0);
    assert!(outcome.accepted());
    assert_eq!(outcome.witness_path(), "build -> test");
}

#[test]
fn a_guard_still_binds_what_was_minted_before_it_was_shown() {
    let obs = observed(vec![
        record("r1", "build", vec![]),
        record("r22", "test", vec![("e1", "ci_report", &[("digest", "AA11")])]),
    ]);
    assert!(judged(&pipeline(false, Some("$digest != BB22")), &obs, 0).accepted());
    assert!(judged(&pipeline(false, Some("$digest == AA11")), &obs, 0).accepted());
    let refused = judged(&pipeline(false, Some("$digest != AA11")), &obs, 0);
    assert!(!refused.accepted());
    assert!(!refused.exhausted);
    assert!(!judged(&pipeline(false, Some("$digest == BB22")), &obs, 0).accepted());
}

#[test]
fn two_uses_of_one_minted_value_must_agree() {
    let two = |second: &str| {
        observed(vec![
            record("r1", "build", vec![]),
            record("r22", "test", vec![("e1", "ci_report", &[("digest", "AA11")])]),
            record("r333", "sign", vec![("e2", "sign", &[("digest", second)])]),
        ])
    };
    let mut workflow = pipeline(false, None);
    workflow.places.push(place("tested", 0, &["digest"]));
    workflow.transitions[1].produces = vec!["tested".to_string()];
    workflow.transitions.push(transition(
        "sign",
        "tested",
        "done",
        &[],
        None,
        vec![emits("sign", &[("digest", "$digest")])],
    ));
    assert!(judged(&workflow, &two("AA11"), 0).accepted());
    let refused = judged(&workflow, &two("BB22"), 0);
    assert!(!refused.accepted());
    assert!(!refused.exhausted);
}

#[test]
fn a_value_that_looks_minted_is_a_value_like_any_other() {
    let obs = observed(vec![
        record("r1", "build", vec![]),
        record("r22", "test", vec![("e1", "ci_report", &[("digest", "~fresh1")])]),
    ]);
    let outcome = judged(&pipeline(false, None), &obs, 0);
    assert!(outcome.accepted());
    let witness = outcome.witness.unwrap();
    assert_eq!(witness[0].bindings.get("digest").map(String::as_str), Some("~fresh1"));
}

#[test]
fn minted_names_change_only_where_a_value_begins_like_one() {
    let mut workflow = pipeline(false, None);
    workflow.transitions[1] =
        transition("note", "artifact", "done", &[], None, vec![emits("note", &[("path", "$path")])]);
    let minted = |path: &str| {
        let obs = observed(vec![
            record("r1", "build", vec![]),
            record("r22", "note", vec![("e1", "note", &[("path", path)])]),
        ]);
        let outcome = judged(&workflow, &obs, 0);
        assert!(outcome.accepted());
        outcome.witness.unwrap()[0].bindings.get("digest").cloned()
    };
    assert_eq!(minted("app").as_deref(), Some("~fresh1"));
    assert_eq!(minted("~/app").as_deref(), Some("~fresh1"));
    assert_eq!(minted("~~fresh7").as_deref(), Some("~fresh1"));
    assert_eq!(minted("~fresh1").as_deref(), Some("~~fresh1"));
}

#[test]
fn states_with_other_minted_names_are_looked_at_too() {
    let workflow = spec(
        vec![
            place("start", 1, &[]),
            place("pool", 0, &["x"]),
            place("bin", 0, &[]),
            place("done", 0, &[]),
        ],
        vec![
            Transition {
                produces: vec!["start".to_string(), "pool".to_string()],
                ..transition("mint", "start", "pool", &[("x", BindMode::Fresh)], None, vec![])
            },
            transition("drop", "pool", "bin", &[], None, vec![]),
        ],
    );
    let obs = observed(Vec::new());
    let counts: Vec<usize> =
        (0..6).map(|slack| judged(&workflow, &obs, slack).states_explored).collect();
    assert_eq!(counts, vec![1, 2, 4, 8, 16, 31]);
}

#[test]
fn executions_at_one_point_are_followed_once() {
    let workflow = spec(
        vec![place("start", 1, &[]), place("middle", 0, &[]), place("done", 0, &[])],
        vec![
            transition("quiet", "start", "middle", &[("x", BindMode::Fresh)], None, vec![]),
            transition("plain", "start", "middle", &[], None, vec![]),
            transition(
                "finish",
                "middle",
                "done",
                &[("digest", BindMode::Fresh)],
                None,
                vec![emits("publish", &[("digest", "$digest")])],
            ),
        ],
    );
    let count = permissiveness(&Net::compile(&workflow), 2, 100, 1000);
    assert_eq!(count.shapes, 1);
    assert!(!count.truncated);
    let mut longer = workflow;
    longer.transitions[0].produces = vec!["start".to_string()];
    let count = permissiveness(&Net::compile(&longer), 3, 100, 1000);
    assert_eq!(count.shapes, 2);
}

#[test]
fn an_attested_value_still_needs_its_evidence() {
    let mut workflow = pipeline(true, None);
    workflow.transitions[0].binds.insert("digest".to_string(), BindMode::Attested);
    let obs = observed(vec![
        record("r1", "build", vec![("e0", "artifact_create", &[("digest", "AA11")])]),
        record("r22", "test", vec![("e1", "ci_report", &[("digest", "AA11")])]),
    ]);
    assert!(!judged(&workflow, &obs, 0).accepted());
    let mut net = Net::compile(&workflow);
    net.evidence.insert("AA11".to_string());
    assert!(verify(&net, &obs, VerifyOptions::for_observation(&obs, 0)).accepted());
    let mut other = Net::compile(&workflow);
    other.evidence.insert("BB22".to_string());
    assert!(!verify(&other, &obs, VerifyOptions::for_observation(&obs, 0)).accepted());
}

fn crowded(tokens: usize) -> Spec {
    spec(
        vec![place("start", tokens, &[]), place("done", 0, &[])],
        vec![transition("go", "start", "done", &[], None, vec![emits("e", &[("x", "1")])])],
    )
}

#[test]
fn a_rejection_that_left_choices_out_says_so() {
    let obs = observed(vec![record("r1", "go", vec![("e1", "e", &[("x", "2")])])]);
    let few = judged(&crowded(3), &obs, 0);
    assert!(!few.accepted());
    assert!(!few.exhausted);
    let all = judged(&crowded(512), &obs, 0);
    assert!(!all.accepted());
    assert!(!all.exhausted);
    for tokens in [513, 600] {
        let many = judged(&crowded(tokens), &obs, 0);
        assert!(!many.accepted());
        assert!(many.exhausted);
    }
    let (_, robust) = judge(&Net::compile(&crowded(3)), &obs, 0);
    assert_eq!(robust, Some(true));
    let (_, robust) = judge(&Net::compile(&crowded(600)), &obs, 0);
    assert_eq!(robust, None);
}

#[test]
fn markings_are_told_apart_by_what_they_hold() {
    let one = vec![vec![args(&[("x", "1"), ("y", "2")])]];
    let other = vec![vec![args(&[("x", "1,y=2")])]];
    assert_ne!(write_marking(&one), write_marking(&other));
    let swapped = vec![vec![args(&[("x", "1")]), args(&[("x", "2")])]];
    let straight = vec![vec![args(&[("x", "2")]), args(&[("x", "1")])]];
    assert_eq!(write_marking(&swapped), write_marking(&straight));
    let moved = vec![vec![args(&[("x", "1")])], vec![args(&[("x", "2")])]];
    assert_ne!(write_marking(&swapped), write_marking(&moved));
}

#[test]
fn a_star_matches_stars_too() {
    assert!(glob_match("*", "*a"));
    assert!(glob_match("*", "*"));
    assert!(glob_match("*", ""));
    assert!(glob_match("a*c", "a*bc"));
    assert!(glob_match("**", "x"));
    assert!(!glob_match("a*", "*a"));
    assert!(!glob_match("*b", "*a"));
}

#[test]
fn every_white_space_is_trimmed() {
    for c in [
        '\u{9}', '\u{a}', '\u{b}', '\u{c}', '\u{d}', ' ', '\u{85}', '\u{a0}', '\u{1680}',
        '\u{2000}', '\u{200a}', '\u{2028}', '\u{2029}', '\u{202f}', '\u{205f}', '\u{3000}',
    ] {
        assert_eq!(trim_text(&format!("{}x{}", c, c)), "x");
    }
    for c in ['\u{8}', '\u{e}', '\u{1c}', '\u{180e}', '\u{200b}', '\u{feff}'] {
        assert_eq!(trim_text(&format!("{}x", c)), format!("{}x", c));
    }
    for n in 0..0x11_0000u32 {
        if let Some(c) = char::from_u32(n) {
            let white = matches!(n, 0x9..=0xd | 0x20 | 0x85 | 0xa0 | 0x1680 | 0x2000..=0x200a
                | 0x2028 | 0x2029 | 0x202f | 0x205f | 0x3000);
            assert_eq!(c.is_whitespace(), white, "{:x}", n);
        }
    }
}
