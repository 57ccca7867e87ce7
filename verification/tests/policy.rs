use maskedrunner::observation::{EffectInstance, Observation, Record};
use maskedrunner::ordered::StrMap;
use maskedrunner::policy::{evaluate, evaluate_exactly, permission, BotPolicy};

fn obs(principal: &str, step: Option<&str>, kind: &str, scope: Option<&str>) -> Observation {
    let mut args = StrMap::new();
    if let Some(s) = scope {
        args.insert("scope".to_string(), s.to_string());
    }
    Observation {
        run_id: "t".to_string(),
        planes: StrMap::new(),
        records: vec![Record {
            id: "r1".to_string(),
            plane: "runner".to_string(),
            principal: principal.to_string(),
            step: step.map(str::to_string),
            ts: "2026-01-01T00:00:00Z".to_string(),
            effects: vec![EffectInstance {
                id: "e1".to_string(),
                kind: kind.to_string(),
                args,
            }],
        }],
        edges: Vec::new(),
    }
}

fn policy() -> BotPolicy {
    BotPolicy {
        identity: "*".to_string(),
        allowed_actions: vec!["vcs_read".to_string(), "registry_write".to_string()],
        allowed_scopes: vec!["repo/*".to_string(), "registry://prod/*".to_string()],
        allowed_steps: vec!["checkout".to_string(), "build".to_string()],
        ..Default::default()
    }
}

#[test]
fn a_wildcard_identity_admits_any_principal() {
    let out = evaluate(
        &policy(),
        &obs("ci-bot", Some("checkout"), "vcs_read", Some("repo/app")),
    );
    assert!(out.allowed(), "{:?}", out.messages());
    assert_eq!(out.checked_identities, 1);
    assert_eq!(out.checked_actions, 1);
}

#[test]
fn a_bare_principal_is_qualified_before_matching() {
    let mut p = policy();
    p.identity = "ci-bot@ci.internal".to_string();
    let out = evaluate(
        &p,
        &obs("ci-bot", Some("checkout"), "vcs_read", Some("repo/app")),
    );
    assert!(out.allowed(), "{:?}", out.messages());
}

#[test]
fn a_different_identity_is_denied() {
    let mut p = policy();
    p.identity = "ci-bot@ci.internal".to_string();
    let out = evaluate(
        &p,
        &obs(
            "mallory@evil.test",
            Some("checkout"),
            "vcs_read",
            Some("repo/app"),
        ),
    );
    assert!(!out.allowed());
    assert!(out.messages()[0].contains("not the authorised identity"));
    assert_eq!(out.findings[0].subject, "r1");
    assert_eq!(
        out.messages(),
        vec!["`mallory@evil.test` is not the authorised identity"]
    );
}

#[test]
fn an_undeclared_step_is_denied() {
    let out = evaluate(
        &policy(),
        &obs("ci-bot", Some("exfiltrate"), "vcs_read", Some("repo/app")),
    );
    assert!(!out.allowed());
    assert!(out
        .messages()
        .iter()
        .any(|m| m.contains("not permitted for this identity")));
}

#[test]
fn a_record_with_no_step_is_not_judged_on_its_step() {
    let out = evaluate(
        &policy(),
        &obs("ci-bot", None, "vcs_read", Some("repo/app")),
    );
    assert!(out.allowed(), "{:?}", out.messages());
}

#[test]
fn an_out_of_scope_write_is_denied() {
    let out = evaluate(
        &policy(),
        &obs(
            "ci-bot",
            Some("build"),
            "registry_write",
            Some("registry://staging/app"),
        ),
    );
    assert!(!out.allowed());
    assert!(out.messages()[0].contains("outside the permitted scopes"));
}

#[test]
fn an_empty_policy_judges_nothing() {
    let out = evaluate(
        &BotPolicy::default(),
        &obs("anyone", Some("whatever"), "anything", Some("anywhere")),
    );
    assert!(
        out.allowed(),
        "an unconfigured policy must not invent findings"
    );
}

#[test]
fn an_action_that_is_not_permitted_hides_its_scope() {
    let out = evaluate(
        &policy(),
        &obs("ci-bot", Some("build"), "secret_read", Some("secrets://prod/x")),
    );
    assert_eq!(out.messages(), vec!["action `secret_read` is not permitted"]);
    assert_eq!(out.findings[0].subject, "e1");
}

#[test]
fn an_identity_pattern_is_a_glob() {
    let mut p = policy();
    p.identity = "*@corp.example".to_string();
    assert!(evaluate(
        &p,
        &obs("sre@corp.example", Some("build"), "vcs_read", Some("repo/app"))
    )
    .allowed());
    assert!(!evaluate(&p, &obs("sre", Some("build"), "vcs_read", Some("repo/app"))).allowed());
}

#[test]
fn an_exact_policy_takes_no_pattern() {
    let mut p = policy();
    let run = obs("ci-bot", Some("build"), "vcs_read", Some("repo/app"));
    let out = evaluate_exactly(&p, &run);
    assert_eq!(
        out.messages(),
        vec!["`ci-bot@ci.internal` is not the authorised identity"]
    );
    p.identity = "ci-bot@ci.internal".to_string();
    assert!(evaluate_exactly(&p, &run).allowed());
}

#[test]
fn the_service_does_not_look_at_steps() {
    let mut p = policy();
    let run = obs("ci-bot", Some("exfiltrate"), "registry_write", Some("registry://staging/app"));
    assert_eq!(
        permission(&p, &run),
        (
            false,
            vec!["scope registry://staging/app is outside the permitted scopes".to_string()]
        )
    );
    p.identity = "someone@else".to_string();
    p.allowed_scopes.clear();
    p.allowed_actions = vec!["vcs_read".to_string()];
    assert_eq!(
        permission(&p, &run).1,
        vec![
            "ci-bot@ci.internal is not the authorised identity",
            "action registry_write is not permitted"
        ]
    );
    let fine = obs("ci-bot", Some("exfiltrate"), "vcs_read", None);
    assert_eq!(permission(&policy(), &fine), (true, Vec::new()));
}
