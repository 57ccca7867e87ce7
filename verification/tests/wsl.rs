use maskedrunner::index::Table;
use maskedrunner::lint::{lint, LintReport, Severity};
use maskedrunner::load::{load_checked, parse_str, WslError};
use maskedrunner::model::{
    classify, glob_match, BindMode, EffectTemplate, Invariant, InvariantKind, Pattern, Place,
    Principal, PrincipalClass, RelationObligation, RelationSchema, Spec, TokenSpec, Transition,
};

fn texts(items: &[&str]) -> Vec<String> {
    items.iter().map(|s| s.to_string()).collect()
}

fn place(id: &str, marked: bool) -> Place {
    Place {
        id: id.to_string(),
        tokens: if marked {
            vec![TokenSpec { ty: "repo".to_string(), value: "app".to_string() }]
        } else {
            Vec::new()
        },
        carries: Vec::new(),
    }
}

fn transition(id: &str, consumes: &[&str], produces: &[&str]) -> Transition {
    Transition {
        id: id.to_string(),
        principal: "bot".to_string(),
        consumes: texts(consumes),
        produces: texts(produces),
        binds: Table::new(),
        guard: None,
        emits: Vec::new(),
    }
}

fn emits(effect: &str, args: &[(&str, &str)]) -> EffectTemplate {
    let mut table = Table::new();
    for (k, v) in args {
        table.insert(k.to_string(), v.to_string());
    }
    EffectTemplate { effect: effect.to_string(), requires_relation: Vec::new(), args: table }
}

fn spec(workflow: &str, places: Vec<Place>, transitions: Vec<Transition>) -> Spec {
    let mut principals = Table::new();
    principals.insert(
        "bot".to_string(),
        Principal {
            class: PrincipalClass::ServiceAccount,
            id_pattern: "bot@*".to_string(),
        },
    );
    Spec {
        spec_version: 1,
        workflow: workflow.to_string(),
        principals,
        places,
        final_places: texts(&["done"]),
        transitions,
        relations: Table::new(),
        invariants: Vec::new(),
    }
}

fn plain() -> Spec {
    spec(
        "plain",
        vec![place("start", true), place("done", false)],
        vec![transition("go", &["start"], &["done"])],
    )
}

fn codes(report: &LintReport) -> Vec<&str> {
    report.diagnostics.iter().map(|d| d.code).collect()
}

fn messages(report: &LintReport) -> Vec<&str> {
    report.diagnostics.iter().map(|d| d.message.as_str()).collect()
}

#[test]
fn dead_transition_is_rejected() {
    let loaded = parse_str(
        "dead",
        spec(
            "dead",
            vec![place("start", true), place("orphan", false), place("done", false)],
            vec![
                transition("go", &["start"], &["done"]),
                transition("never", &["orphan"], &["done"]),
            ],
        ),
    )
    .unwrap();
    assert!(loaded.report.errors().iter().any(|d| d.code == "W009"));
    assert_eq!(codes(&loaded.report), vec!["W009", "W012"]);
}

#[test]
fn unbound_variable_is_rejected() {
    let mut s = spec(
        "unbound",
        vec![place("start", true), place("done", false)],
        vec![transition("go", &["start"], &["done"])],
    );
    s.transitions[0].emits = vec![emits("registry_write", &[("digest", "$digest")])];
    let loaded = parse_str("unbound", s).unwrap();
    assert!(loaded.report.errors().iter().any(|d| d.code == "W018"));
    assert_eq!(
        messages(&loaded.report),
        vec!["transition `go` references `$digest` which no consumed token guarantees"]
    );
}

#[test]
fn glob_matches_principal_patterns() {
    assert!(glob_match("ci-bot@*", "ci-bot@ci.internal"));
    assert!(glob_match("*@corp.example", "sre@corp.example"));
    assert!(!glob_match("*@corp.example", "ci-bot@ci.internal"));
    assert!(glob_match("registry://prod/*", "registry://prod/app"));
    assert!(!glob_match("registry://prod/*", "registry://staging/app"));
}

#[test]
fn globs_match_by_character() {
    assert!(glob_match("a?c", "abc"));
    assert!(glob_match("a?c", "a\u{e9}c"));
    assert!(!glob_match("a?c", "ac"));
    assert!(glob_match("*", ""));
    assert!(glob_match("a**b", "ab"));
    assert!(glob_match("", ""));
    assert!(!glob_match("", "x"));
}

#[test]
fn patterns_are_variables_globs_or_literals() {
    assert!(matches!(classify("$digest"), Pattern::Var(v) if v == "digest"));
    assert!(matches!(classify("repo/*"), Pattern::Glob(g) if g == "repo/*"));
    assert!(matches!(classify("app"), Pattern::Lit(l) if l == "app"));
}

#[test]
fn a_plain_specification_has_no_findings() {
    let report = lint(&plain());
    assert!(report.diagnostics.is_empty());
    assert!(report.is_sound());
    assert!(report.errors().is_empty());
    assert!(report.warnings().is_empty());
}

#[test]
fn names_are_checked() {
    let mut s = plain();
    s.places.push(place("done", false));
    s.transitions.push(transition("go", &["nowhere"], &["done"]));
    s.transitions.push(transition("idle", &[], &[]));
    s.transitions[1].principal = "ghost".to_string();
    s.final_places.push("lost".to_string());
    let report = lint(&s);
    let told = messages(&report);
    assert_eq!(codes(&report)[..6], ["W001", "W002", "W003", "W004", "W005", "W007"]);
    assert_eq!(told[0], "duplicate place id `done`");
    assert_eq!(told[1], "duplicate transition id `go`");
    assert_eq!(told[2], "transition `go` references unknown place `nowhere`");
    assert_eq!(told[3], "transition `go` references unknown principal `ghost`");
    assert_eq!(told[4], "transition `idle` is vacuous");
    assert_eq!(told[5], "unknown final place `lost`");
    assert!(told.contains(&"improper completion: final place `lost` is unreachable"));
}

#[test]
fn empty_specifications_are_unsound() {
    let mut s = spec("empty", vec![place("alone", false)], Vec::new());
    s.final_places.clear();
    let report = lint(&s);
    assert_eq!(codes(&report), vec!["W006", "W008", "W011", "W012"]);
    assert_eq!(report.warnings().len(), 1);
    assert_eq!(report.errors().len(), 3);
    assert_eq!(report.diagnostics[2].severity, Severity::Warning);
    assert!(!report.is_sound());
}

#[test]
fn variables_flow_along_every_path() {
    let mut s = spec(
        "flow",
        vec![
            place("start", true),
            place("built", false),
            place("tested", false),
            place("done", false),
        ],
        vec![
            transition("build", &["start"], &["built"]),
            transition("test", &["built"], &["tested", "built"]),
            transition("publish", &["tested"], &["done"]),
        ],
    );
    s.transitions[0].binds.insert("digest".to_string(), BindMode::Fresh);
    s.transitions[2].emits = vec![emits("write", &[("digest", "$digest")])];
    assert!(lint(&s).is_sound());
    s.transitions.push(transition("shortcut", &["start"], &["tested"]));
    let report = lint(&s);
    assert_eq!(
        report.errors().iter().map(|d| d.code).collect::<Vec<&str>>(),
        vec!["W018"]
    );
}

#[test]
fn relations_and_obligations_are_typed() {
    let mut s = plain();
    s.relations.insert(
        "derives_from".to_string(),
        RelationSchema {
            from: "write".to_string(),
            to: "create".to_string(),
            constraint: String::new(),
        },
    );
    let mut template = emits("write", &[("scope", "x")]);
    for (ty, target) in [("derives_from", "other"), ("unknown", "create")] {
        template.requires_relation.push(RelationObligation {
            ty: ty.to_string(),
            target: target.to_string(),
            bind: Table::new(),
        });
    }
    s.transitions[0].emits = vec![template];
    let report = lint(&s);
    assert_eq!(codes(&report), vec!["W015", "W017", "W016"]);
    assert_eq!(
        messages(&report),
        vec![
            "relation `derives_from` targets effect `create` which no transition emits",
            "obligation on `go` is ill-typed: relation `derives_from` is write -> create but the obligation is write -> other",
            "transition `go` requires undeclared relation `unknown`",
        ]
    );
    s.transitions[0].emits.clear();
    assert_eq!(codes(&lint(&s)), vec!["W014", "W015"]);
}

#[test]
fn declared_properties_are_checked() {
    let mut s = plain();
    s.transitions.push(transition("again", &["start"], &["start"]));
    s.invariants = vec![
        Invariant {
            id: "one".to_string(),
            kind: InvariantKind::EffectHasProducingTransition {
                effect: "write".to_string(),
                scope: "*".to_string(),
            },
        },
        Invariant {
            id: "two".to_string(),
            kind: InvariantKind::TokenConsumedNotCopied { place: "start".to_string() },
        },
        Invariant {
            id: "three".to_string(),
            kind: InvariantKind::TokenConsumedNotCopied { place: "lost".to_string() },
        },
    ];
    assert_eq!(
        messages(&lint(&s)),
        vec![
            "invariant `one` names effect `write` which no transition emits",
            "invariant `two` fails statically: transition `again` returns the `start` token it consumes",
            "invariant `three` names unknown place `lost`",
        ]
    );
}

#[test]
fn shared_inputs_with_other_preconditions_are_not_free_choice() {
    let mut s = plain();
    s.places.push(place("extra", true));
    s.transitions.push(transition("both", &["extra", "start"], &["done"]));
    let report = lint(&s);
    assert_eq!(codes(&report), vec!["W013"]);
    assert!(report.is_sound());
    s.transitions[0].consumes = texts(&["start", "extra"]);
    assert!(lint(&s).diagnostics.is_empty());
}

#[test]
fn loading_checks_the_version_and_hashes_the_text() {
    let loaded = parse_str("abc", plain()).unwrap();
    assert_eq!(
        loaded.hash,
        "ba7816bf8f01cfea414140de5dae2223b00361a396177a9cb410ff61f20015ad"
    );
    assert_eq!(loaded.short_hash(), "plain@sha256:ba7816bf8f01");
    let mut s = plain();
    s.spec_version = 2;
    let e = parse_str("abc", s).unwrap_err();
    assert!(matches!(e, WslError::Version(2)));
    assert_eq!(e.render(), "unsupported spec_version 2");
}

#[test]
fn only_sound_specifications_are_accepted() {
    assert!(load_checked("abc", plain()).is_ok());
    let mut s = plain();
    s.final_places = texts(&["lost"]);
    let e = load_checked("abc", s).unwrap_err();
    assert_eq!(e.render(), "spec `plain` is not sound: 2 error(s)");
    assert!(matches!(e, WslError::Unsound { count: 2, .. }));
}
