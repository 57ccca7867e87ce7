use maskedrunner::adapters::{
    default_conclusion, default_runner_principal, normalize, substitute, AdapterError, AdapterMap,
    AuditEntry, AuditPlane, Bundle, EffectRule, Job, Provenance, RegistryEvent, RegistryPlane,
    RunnerPlane, StepRule,
};
use maskedrunner::ordered::StrMap;

fn args(items: &[(&str, &str)]) -> StrMap<String> {
    let mut m = StrMap::new();
    for (k, v) in items {
        m.insert(k.to_string(), v.to_string());
    }
    m
}

fn map() -> AdapterMap {
    let mut m = AdapterMap::default();
    m.runner_principal = default_runner_principal();
    m.jobs.insert(
        "build".to_string(),
        StepRule {
            step: "build".to_string(),
            effects: vec![EffectRule {
                kind: "artifact_create".to_string(),
                args: args(&[("digest", "${outputs.digest}"), ("by", "${job}@${ts}")]),
            }],
        },
    );
    m.registry_actions.insert(
        "publish".to_string(),
        EffectRule {
            kind: "registry_write".to_string(),
            args: args(&[("digest", "${digest}"), ("scope", "registry://prod/${package}")]),
        },
    );
    m.audit_actions.insert(
        "iam.approve".to_string(),
        StepRule {
            step: "grant_emergency_approval".to_string(),
            effects: vec![EffectRule {
                kind: "approval_grant".to_string(),
                args: args(&[("scope", "${attributes.scope}")]),
            }],
        },
    );
    m
}

fn bundle() -> Bundle {
    Bundle {
        run_id: "run-9".to_string(),
        repository: "acme/widgets".to_string(),
        runner: RunnerPlane {
            jobs: vec![
                Job {
                    id: "j1".to_string(),
                    name: "build".to_string(),
                    actor: "ci-bot@ci.internal".to_string(),
                    ts: "2026-01-01T00:02:00Z".to_string(),
                    outputs: args(&[("digest", "sha256:AA11")]),
                    conclusion: default_conclusion(),
                },
                Job {
                    id: "j2".to_string(),
                    name: "build".to_string(),
                    actor: "ci-bot@ci.internal".to_string(),
                    ts: "2026-01-01T00:01:00Z".to_string(),
                    outputs: args(&[("digest", "sha256:FFFF")]),
                    conclusion: "failure".to_string(),
                },
            ],
        },
        registry: RegistryPlane {
            events: vec![
                RegistryEvent {
                    id: "npm-1".to_string(),
                    ts: "2026-01-01T00:03:00Z".to_string(),
                    actor: "npm".to_string(),
                    action: "publish".to_string(),
                    provenance: Some(Provenance {
                        build_digest: "sha256:AA11".to_string(),
                        issuer: String::new(),
                    }),
                    fields: args(&[("digest", "sha256:AA11"), ("package", "app")]),
                },
                RegistryEvent {
                    id: "npm-2".to_string(),
                    ts: "2026-01-01T00:03:00Z".to_string(),
                    actor: "npm".to_string(),
                    action: "publish".to_string(),
                    provenance: Some(Provenance {
                        build_digest: "sha256:FFFF".to_string(),
                        issuer: String::new(),
                    }),
                    fields: args(&[("digest", "sha256:FFFF"), ("package", "app")]),
                },
                RegistryEvent {
                    id: "npm-3".to_string(),
                    ts: String::new(),
                    actor: "npm".to_string(),
                    action: "download".to_string(),
                    provenance: None,
                    fields: StrMap::new(),
                },
            ],
        },
        cloud_audit: AuditPlane {
            entries: vec![AuditEntry {
                id: "a1".to_string(),
                ts: "2026-01-01T00:00:00Z".to_string(),
                principal: "sre@corp.example".to_string(),
                action: "iam.approve".to_string(),
                attributes: args(&[("scope", "approvals/hotfix")]),
            }],
        },
    }
}

#[test]
fn three_logs_become_one_observation() {
    let obs = normalize(&bundle(), &map());
    assert_eq!(obs.run_id, "run-9");
    let ids: Vec<&str> = obs.records.iter().map(|r| r.id.as_str()).collect();
    assert_eq!(ids, vec!["a1", "j1", "npm-1", "npm-2"]);
    let planes: Vec<&str> = obs.records.iter().map(|r| r.plane.as_str()).collect();
    assert_eq!(planes, vec!["audit", "runner", "registry", "registry"]);
    assert_eq!(obs.records[1].step.as_deref(), Some("build"));
    assert_eq!(obs.records[2].step, None);
    assert_eq!(obs.records[1].principal, "ci-bot@ci.internal");
    let by = obs.records[1].effects[0].args.get("by").map(String::as_str);
    assert_eq!(by, Some("build@2026-01-01T00:02:00Z"));
    assert_eq!(obs.records[0].effects[0].id, "a1.0");
    assert_eq!(
        obs.records[0].effects[0].args.get("scope").map(String::as_str),
        Some("approvals/hotfix")
    );
    assert_eq!(
        obs.records[2].effects[0].args.get("scope").map(String::as_str),
        Some("registry://prod/app")
    );
    assert!(obs.validate().is_ok());
}

#[test]
fn an_edge_needs_a_build_that_was_seen() {
    let obs = normalize(&bundle(), &map());
    assert_eq!(obs.edges.len(), 1);
    assert_eq!(obs.edges[0].from, "npm-1.0");
    assert_eq!(obs.edges[0].to, "j1.0");
    assert_eq!(obs.edges[0].ty, "derives_from");
}

#[test]
fn templates_are_filled_in() {
    let context = args(&[("a", "1"), ("b", "${a}")]);
    assert_eq!(substitute("x${a}y${b}", &context), "x1y${a}");
    assert_eq!(substitute("${none}", &context), "<unresolved:none>");
    assert_eq!(substitute("left ${open", &context), "left ${open");
    assert_eq!(substitute("plain", &context), "plain");
    assert_eq!(substitute("${}", &context), "<unresolved:>");
}

#[test]
fn fields_of_an_event_come_last() {
    let mut b = bundle();
    b.registry.events[0].fields.insert("package".to_string(), "other".to_string());
    b.registry.events[0].fields.insert("actor".to_string(), "forged".to_string());
    let mut m = map();
    m.registry_actions.insert(
        "publish".to_string(),
        EffectRule { kind: "registry_write".to_string(), args: args(&[("by", "${actor}")]) },
    );
    let obs = normalize(&b, &m);
    let event = obs.records.iter().find(|r| r.id == "npm-1").unwrap();
    assert_eq!(event.effects[0].args.get("by").map(String::as_str), Some("forged"));
    assert_eq!(event.principal, "npm");
}

#[test]
fn errors_say_what_failed() {
    assert_eq!(
        AdapterError::Io("gone".to_string()).render(),
        "cannot read input: gone"
    );
    assert_eq!(
        AdapterError::Parse("bad".to_string()).render(),
        "cannot parse input: bad"
    );
}
