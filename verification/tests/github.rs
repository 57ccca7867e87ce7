use maskedrunner::adapters::{AdapterMap, EffectRule, Provenance, StepRule};
use maskedrunner::github::{
    normalize, resolve_rule, slugify, Actor, Fact, Facts, Job, Jobs, Repository, Run, Step,
};
use maskedrunner::observation::Observation;
use maskedrunner::ordered::StrMap;
use serde_json::Value;

fn args(items: &[(&str, &str)]) -> StrMap<String> {
    let mut m = StrMap::new();
    for (k, v) in items {
        m.insert(k.to_string(), v.to_string());
    }
    m
}

fn rule(step: &str, effects: Vec<EffectRule>) -> StepRule {
    StepRule { step: step.to_string(), effects }
}

fn map() -> AdapterMap {
    let mut jobs = StrMap::new();
    jobs.insert(
        "checkout".to_string(),
        rule(
            "checkout",
            vec![EffectRule {
                kind: "vcs_read".to_string(),
                args: args(&[("scope", "repo/${repository_name}")]),
            }],
        ),
    );
    jobs.insert(
        "build".to_string(),
        rule(
            "build",
            vec![EffectRule {
                kind: "artifact_create".to_string(),
                args: args(&[("digest", "${outputs.digest}")]),
            }],
        ),
    );
    jobs.insert(
        "publish".to_string(),
        rule(
            "publish",
            vec![EffectRule {
                kind: "registry_write".to_string(),
                args: args(&[
                    ("scope", "registry://prod/${repository_name}"),
                    ("digest", "${outputs.digest}"),
                ]),
            }],
        ),
    );
    jobs.insert("build-test-publish".to_string(), rule("build_test_publish", Vec::new()));
    AdapterMap {
        jobs,
        runner_principal: "${actor}@github".to_string(),
        ..Default::default()
    }
}

fn run() -> Run {
    Run {
        id: 42,
        name: "release".to_string(),
        head_sha: "abc123".to_string(),
        run_started_at: String::new(),
        actor: Some(Actor { login: "ci-bot".to_string() }),
        repository: Some(Repository { full_name: "acme/widgets".to_string() }),
    }
}

fn job(id: u64, name: &str, conclusion: &str, ts: &str) -> Job {
    Job {
        id,
        name: name.to_string(),
        conclusion: Some(conclusion.to_string()),
        started_at: ts.to_string(),
        steps: Vec::new(),
    }
}

fn fact(step: &str, digest: Option<&str>, built: Option<&str>) -> Fact {
    Fact {
        step: step.to_string(),
        digest: digest.map(|d| d.to_string()),
        scope: None,
        provenance: built.map(|d| Provenance {
            build_digest: d.to_string(),
            issuer: String::new(),
        }),
    }
}

fn steps(obs: &Observation) -> Vec<String> {
    obs.records.iter().filter_map(|r| r.step.clone()).collect()
}

#[test]
fn maps_jobs_to_transitions_and_substitutes_repository() {
    let jobs = Jobs {
        jobs: vec![
            job(1, "checkout", "success", "2026-01-01T00:00:00Z"),
            job(2, "build", "success", "2026-01-01T00:01:00Z"),
        ],
    };
    let facts = vec![fact("build", Some("sha256:AA11"), None)];
    let obs = normalize(&run(), &jobs, &facts, &map());

    assert_eq!(steps(&obs), vec!["checkout", "build"]);
    assert_eq!(obs.records[0].principal, "ci-bot@github");
    assert_eq!(
        obs.records[0].effects[0]
            .args
            .get("scope")
            .map(String::as_str),
        Some("repo/widgets"),
        "repository_name must be substituted from the full name"
    );
    assert_eq!(
        obs.records[1].effects[0]
            .args
            .get("digest")
            .map(String::as_str),
        Some("sha256:AA11"),
        "the fact's digest must reach the effect"
    );
    assert_eq!(obs.run_id, "gha-release-42");
    assert_eq!(obs.records[1].id, "gha-2");
    assert_eq!(obs.records[1].effects[0].id, "gha-2.0");
}

#[test]
fn failed_jobs_are_not_observed() {
    let jobs = Jobs {
        jobs: vec![
            job(1, "checkout", "success", "2026-01-01T00:00:00Z"),
            job(2, "build", "failure", "2026-01-01T00:01:00Z"),
        ],
    };
    let obs = normalize(&run(), &jobs, &Vec::new(), &map());
    assert_eq!(steps(&obs), vec!["checkout"], "a failed job produces no evidence");
}

#[test]
fn unmapped_jobs_are_skipped_rather_than_guessed() {
    let jobs = Jobs {
        jobs: vec![job(1, "lint-and-format", "success", "2026-01-01T00:00:00Z")],
    };
    let obs = normalize(&run(), &jobs, &Vec::new(), &map());
    assert!(
        obs.records.is_empty(),
        "a job the model does not declare must not be invented"
    );
}

#[test]
fn reusable_workflow_job_names_resolve_to_the_declared_job() {
    let jobs = Jobs {
        jobs: vec![
            job(
                1,
                "Build, test, publish / build, test, package",
                "success",
                "2026-01-01T00:00:00Z",
            ),
            job(
                2,
                "Build, test, publish / Run simple test",
                "success",
                "2026-01-01T00:01:00Z",
            ),
            job(
                3,
                "Build, test, publish / Create release",
                "success",
                "2026-01-01T00:02:00Z",
            ),
        ],
    };
    let obs = normalize(&run(), &jobs, &Vec::new(), &map());
    assert_eq!(
        steps(&obs),
        vec!["build_test_publish"],
        "many expanded jobs resolving to one declared job are a single firing"
    );
}

#[test]
fn matrix_leg_parameters_are_stripped() {
    let jobs = Jobs {
        jobs: vec![job(
            1,
            "build (ubuntu-latest, 1.75)",
            "success",
            "2026-01-01T00:00:00Z",
        )],
    };
    let obs = normalize(&run(), &jobs, &Vec::new(), &map());
    assert_eq!(steps(&obs), vec!["build"]);
}

#[test]
fn provenance_creates_an_edge_only_when_the_build_is_observed() {
    let jobs = Jobs {
        jobs: vec![
            job(1, "build", "success", "2026-01-01T00:00:00Z"),
            job(2, "publish", "success", "2026-01-01T00:01:00Z"),
        ],
    };
    let with_real_build = vec![
        fact("build", Some("sha256:AA11"), None),
        fact("publish", Some("sha256:AA11"), Some("sha256:AA11")),
    ];
    let obs = normalize(&run(), &jobs, &with_real_build, &map());
    assert_eq!(
        obs.edges.len(),
        1,
        "provenance naming an observed build links them"
    );
    assert_eq!(obs.edges[0].ty, "derives_from");
    assert_eq!(obs.edges[0].from, "gha-2.0");
    assert_eq!(obs.edges[0].to, "gha-1.0");

    let with_phantom_build = vec![
        fact("build", Some("sha256:AA11"), None),
        fact("publish", Some("sha256:BEEF"), Some("sha256:BEEF")),
    ];
    let obs = normalize(&run(), &jobs, &with_phantom_build, &map());
    assert!(
        obs.edges.is_empty(),
        "the adapter must never synthesise a causal link to a build it did not see"
    );
}

#[test]
fn unresolved_template_values_are_visible_not_silent() {
    let jobs = Jobs {
        jobs: vec![job(1, "build", "success", "2026-01-01T00:00:00Z")],
    };
    let obs = normalize(&run(), &jobs, &Vec::new(), &map());
    let digest = obs.records[0].effects[0].args.get("digest").unwrap();
    assert!(
        digest.starts_with("<unresolved:"),
        "a missing value must be loud, not silently dropped: {}",
        digest
    );
    assert_eq!(digest, "<unresolved:outputs.digest>");
}

#[test]
fn records_are_ordered_by_time() {
    let jobs = Jobs {
        jobs: vec![
            job(2, "build", "success", "2026-01-01T00:05:00Z"),
            job(1, "checkout", "success", "2026-01-01T00:00:00Z"),
        ],
    };
    let obs = normalize(&run(), &jobs, &Vec::new(), &map());
    assert_eq!(steps(&obs), vec!["checkout", "build"]);
}

fn text(v: &Value, key: &str) -> String {
    v[key].as_str().unwrap_or("").to_string()
}

fn live_job(v: &Value) -> Job {
    Job {
        id: v["id"].as_u64().unwrap_or(0),
        name: text(v, "name"),
        conclusion: v["conclusion"].as_str().map(|s| s.to_string()),
        started_at: text(v, "started_at"),
        steps: v["steps"]
            .as_array()
            .map(|all| {
                all.iter()
                    .map(|s| Step {
                        name: text(s, "name"),
                        number: s["number"].as_u64().unwrap_or(0) as u32,
                        conclusion: s["conclusion"].as_str().map(|c| c.to_string()),
                        started_at: text(s, "started_at"),
                    })
                    .collect()
            })
            .unwrap_or_default(),
    }
}

#[test]
fn a_run_still_in_progress_parses() {
    let live: Value = serde_json::from_str(
        r#"{
        "jobs": [
            { "id": 1, "name": "checkout", "conclusion": "success",
              "started_at": "2026-01-01T00:00:00Z", "steps": [] },
            { "id": 2, "name": "maskedrunner / verify", "conclusion": null,
              "status": "in_progress", "started_at": "2026-01-01T00:01:00Z",
              "steps": [ { "name": "Complete job", "status": "queued",
                           "conclusion": null, "number": 9, "started_at": null } ] }
        ]
    }"#,
    )
    .expect("a live payload must parse");
    let jobs = Jobs {
        jobs: live["jobs"].as_array().unwrap().iter().map(live_job).collect(),
    };
    assert_eq!(jobs.jobs[1].steps[0].number, 9);

    let partial: Value = serde_json::from_str(
        r#"{
        "id": 42, "name": null, "head_sha": null, "run_started_at": null,
        "actor": { "login": "ci-bot" },
        "repository": { "full_name": "acme/widgets" }
    }"#,
    )
    .expect("a run with null scalars must parse");
    let partial_run = Run {
        id: partial["id"].as_u64().unwrap(),
        name: text(&partial, "name"),
        head_sha: text(&partial, "head_sha"),
        run_started_at: text(&partial, "run_started_at"),
        actor: Some(Actor { login: text(&partial["actor"], "login") }),
        repository: Some(Repository { full_name: text(&partial["repository"], "full_name") }),
    };

    let obs = normalize(&partial_run, &jobs, &Vec::new(), &map());
    assert_eq!(
        steps(&obs),
        vec!["checkout"],
        "the unfinished job contributes no evidence, and the rest still imports"
    );
}

#[test]
fn names_reduce_to_the_same_key() {
    assert_eq!(slugify("Build, test, publish"), "build_test_publish");
    assert_eq!(slugify("build-test-publish"), "build_test_publish");
    assert_eq!(slugify("  --Go!  "), "go");
    assert_eq!(slugify("***"), "");
}

#[test]
fn a_rule_is_found_by_the_whole_name_first() {
    let mut m = map();
    m.jobs.insert("a / build".to_string(), rule("special", Vec::new()));
    assert_eq!(resolve_rule(&m, "a / build").map(|r| r.step.as_str()), Some("special"));
    assert_eq!(resolve_rule(&m, "b / build").map(|r| r.step.as_str()), Some("build"));
    assert_eq!(resolve_rule(&m, "x / Build").map(|r| r.step.as_str()), Some("build"));
    assert!(resolve_rule(&m, "x / y").is_none());
}

#[test]
fn a_run_without_actor_or_repository_is_read() {
    let mut r = run();
    r.actor = None;
    r.repository = None;
    let jobs = Jobs {
        jobs: vec![job(7, "checkout", "success", "t")],
    };
    let obs = normalize(&r, &jobs, &Vec::new(), &map());
    assert_eq!(obs.records[0].principal, "unknown@github");
    assert_eq!(
        obs.records[0].effects[0].args.get("scope").map(String::as_str),
        Some("repo/")
    );
}

#[test]
fn facts_may_be_missing() {
    assert_eq!(Facts::Absent.items().len(), 0);
    assert_eq!(Facts::List(vec![fact("a", None, None)]).items()[0].step, "a");
}
