use maskedrunner::adapters::AdapterMap;
use maskedrunner::generate::{
    generate, guess_effect, read_sign, slug, Needs, Signal, WfJob, WfStep, Workflow,
};
use maskedrunner::github::Fact;
use maskedrunner::judge::exit_code;
use maskedrunner::lint::lint;
use maskedrunner::adapters::Provenance;
use maskedrunner::index::Table;
use maskedrunner::model::{Place, Spec};
use maskedrunner::observation::{Observation, Record};
use maskedrunner::ordered::StrMap;
use maskedrunner::policy::{BotPolicy, PolicyFinding, PolicyOutcome};
use maskedrunner::report::{account_lines, leg_lines};
use maskedrunner::service::{
    budget_of, choose_spec, depth_of, fallback_policy, list_findings, onboarding_map, parse_count,
    register, safe_id, shows_contrast, slack_of, spec_stem, tamper, unverifiable,
};
use maskedrunner::verify::{Verdict, VerifyOutcome};

fn step(name: &str, uses: &str) -> WfStep {
    WfStep {
        name: Some(name.to_string()),
        run: Some("npm publish build".to_string()),
        uses: Some(uses.to_string()),
    }
}

fn job(needs: Needs, steps: Vec<WfStep>) -> WfJob {
    WfJob { needs, steps }
}

fn workflow() -> Workflow {
    let mut jobs = StrMap::new();
    jobs.insert(
        "Build It".to_string(),
        job(Needs::default(), vec![step("Checkout", "actions/checkout@v4"), step("Compile", "")]),
    );
    jobs.insert(
        "publish".to_string(),
        job(
            Needs::Many(vec!["Build It".to_string(), "unit".to_string()]),
            vec![step("Release to NPM", "")],
        ),
    );
    jobs.insert(
        "unit".to_string(),
        job(Needs::One("Build It".to_string()), vec![step("Run tests", "")]),
    );
    Workflow { name: Some("Release, v2".to_string()), jobs }
}

#[test]
fn ids_that_leave_the_directory_are_refused() {
    assert_eq!(safe_id("case1"), Some("case1"));
    assert_eq!(safe_id("a.b-c_D9"), Some("a.b-c_D9"));
    for id in ["", ".", "..", "a..b", "a/b", "a\\b", "caf\u{e9}", "a b"] {
        assert_eq!(safe_id(id), None, "{}", id);
    }
    assert!(safe_id(&"x".repeat(128)).is_some());
    assert!(safe_id(&"x".repeat(129)).is_none());
}

#[test]
fn numbers_are_read_or_defaulted() {
    assert_eq!(parse_count("0"), Some(0));
    assert_eq!(parse_count("+17"), Some(17));
    assert_eq!(parse_count("007"), Some(7));
    assert_eq!(parse_count(&usize::MAX.to_string()), Some(usize::MAX));
    for bad in ["", "+", "-1", " 1", "1 ", "x", "99999999999999999999999999"] {
        assert_eq!(parse_count(bad), None, "{}", bad);
        assert_eq!(bad.parse::<usize>().ok(), None);
    }
    assert_eq!(slack_of(None), 0);
    assert_eq!(slack_of(Some("3")), 3);
    assert_eq!(slack_of(Some("three")), 0);
    assert_eq!(depth_of(None), 8);
    assert_eq!(depth_of(Some("11")), 11);
    assert_eq!(depth_of(Some("99")), 12);
    assert_eq!(budget_of(None), 400_000);
    assert_eq!(budget_of(Some("5")), 5);
}

#[test]
fn specification_files_are_known_by_their_suffix() {
    assert_eq!(spec_stem("release.wsl.yaml"), Some("release".to_string()));
    assert_eq!(spec_stem("a.wsl.yaml.wsl.yaml"), Some("a".to_string()));
    assert_eq!(spec_stem(".wsl.yaml"), Some(String::new()));
    assert_eq!(spec_stem("release.yaml"), None);
    assert_eq!(spec_stem(""), None);
}

#[test]
fn ids_come_from_names() {
    assert_eq!(slug("Build It!"), "build_it_");
    assert_eq!(slug("caf\u{e9}"), "caf_");
}

#[test]
fn the_strongest_sign_of_a_job_counts() {
    let wf = workflow();
    assert_eq!(guess_effect(wf.jobs.get("Build It").unwrap()), Some("artifact_create"));
    assert_eq!(guess_effect(wf.jobs.get("publish").unwrap()), Some("registry_write"));
    assert_eq!(guess_effect(wf.jobs.get("unit").unwrap()), Some("ci_report"));
    let reading = job(Needs::Nothing, vec![step("x", "Actions/CHECKOUT@v4")]);
    assert_eq!(guess_effect(&reading), Some("vcs_read"));
    let silent = job(Needs::Nothing, vec![step("say hello", "")]);
    assert_eq!(guess_effect(&silent), None);
    assert_eq!(read_sign("docker push"), Some(Signal::Publish));
    assert_eq!(read_sign("Publish"), None);
}

#[test]
fn a_workflow_file_becomes_a_skeleton() {
    let text = generate(&workflow());
    let expected = "# GENERATED SKELETON. Review every TODO before trusting a verdict.
# The job graph and identities are inferred from the workflow file.
# A human must still add: digests, effect arguments, and the
# `requires_relation` links that actually catch tampering.
spec_version: 1
workflow: release__v2

principals:
  gha_runner:
    class: service_account
    id_pattern: \"*\"        # TODO restrict to your bot identity

places:
  - id: start
    tokens:
      - { type: repository, value: \"*\" }
  - id: p_build_it
    carries: [digest]
  - id: p_publish
    carries: [digest]
  - id: p_unit
    carries: [digest]

final: [p_publish]

transitions:
  - id: build_it
    principal: gha_runner
    consumes: [start]
    produces: [p_build_it]
    binds:
      digest: fresh
    emits:
      - effect: artifact_create
        digest: $digest

  - id: publish
    principal: gha_runner
    consumes: [p_build_it, p_unit]
    produces: [p_publish]
    emits:
      - effect: registry_write
        scope: \"registry://prod/*\"   # TODO tighten scope
        digest: $digest
        requires_relation:
          - type: derives_from
            target: artifact_create   # TODO name the producing build
            bind: { digest: $digest }

  - id: unit
    principal: gha_runner
    consumes: [p_build_it]
    produces: [p_unit]
    emits:
      - effect: ci_report
        digest: $digest

relations:
  derives_from:
    from: registry_write
    to: artifact_create
    constraint: \"from.digest == to.digest\"
";
    assert_eq!(text, expected);
}

#[test]
fn a_workflow_without_a_build_demands_none() {
    let mut jobs = StrMap::new();
    jobs.insert("ship".to_string(), job(Needs::Nothing, vec![step("publish", "")]));
    jobs.insert("other".to_string(), job(Needs::Nothing, vec![step("hello", "")]));
    let text = generate(&Workflow { name: None, jobs });
    assert!(text.contains("workflow: workflow\n"));
    assert!(text.contains("final: [p_other, p_ship]\n"));
    assert!(text.contains("        digest: \"*\"   # no build job in this workflow to mint one\n"));
    assert!(text.contains("    # TODO declare what this job emits\n    emits: []\n"));
    assert!(!text.contains("$digest"));
    assert!(text.ends_with("would be an effect with no producing transition, and rejected.\n"));
}

#[test]
fn a_test_without_a_build_names_no_digest() {
    let mut jobs = StrMap::new();
    jobs.insert("unit".to_string(), job(Needs::Nothing, vec![step("test", "")]));
    let text = generate(&Workflow { name: None, jobs });
    assert!(text.contains("      - effect: ci_report\n        digest: \"*\"   # no build job"));
    assert!(!text.contains("$digest"));
}

#[test]
fn onboarding_maps_a_workflows_own_jobs() {
    let mut base = AdapterMap::default();
    base.runner_principal = "${actor}".to_string();
    let map = onboarding_map(&base, &workflow());
    assert_eq!(map.runner_principal, "${actor}");
    assert_eq!(map.jobs.len(), 3);
    let build = map.jobs.get("Build It").unwrap();
    assert_eq!(build.step, "build_it");
    assert_eq!(build.effects[0].kind, "artifact_create");
    assert_eq!(
        build.effects[0].args.get("digest").map(String::as_str),
        Some("${outputs.digest}")
    );
    let publish = map.jobs.get("publish").unwrap();
    assert_eq!(
        publish.effects[0].args.get("scope").map(String::as_str),
        Some("registry://prod/${repository_name}")
    );
}

#[test]
fn the_registry_is_bounded_and_names_are_checked() {
    assert_eq!(register("x", true, 0, false), Ok(true));
    assert_eq!(register("x", false, 999, false), Ok(false));
    assert_eq!(register("x", true, 256, true), Ok(true));
    assert_eq!(register("x", true, 256, false), Err("spec registry is full".to_string()));
    assert_eq!(register("x", true, 255, false), Ok(true));
    let bad = Err("spec name must be 1..200 characters".to_string());
    assert_eq!(register("", true, 0, false), bad);
    assert_eq!(register(&"x".repeat(201), true, 0, false), bad);
    assert_eq!(register(&"\u{e9}".repeat(101), true, 0, false), bad);
    assert_eq!(register(&"x".repeat(200), true, 0, false), Ok(true));
}

fn observed(steps: &[Option<&str>]) -> Observation {
    Observation {
        run_id: "r".to_string(),
        planes: StrMap::new(),
        records: steps
            .iter()
            .enumerate()
            .map(|(i, s)| Record {
                id: format!("r{}", i),
                plane: "runner".to_string(),
                principal: "p".to_string(),
                step: s.map(|t| t.to_string()),
                ts: String::new(),
                effects: Vec::new(),
            })
            .collect(),
        edges: Vec::new(),
    }
}

fn texts(items: &[&str]) -> Vec<String> {
    items.iter().map(|s| s.to_string()).collect()
}

#[test]
fn the_specification_that_suits_best_is_chosen() {
    let names = texts(&["wide", "release", "narrow"]);
    let transitions = vec![
        texts(&["a", "b", "c", "d", "e"]),
        texts(&["z"]),
        texts(&["a", "b"]),
    ];
    let run = observed(&[Some("a"), Some("b"), Some("a"), None]);
    assert_eq!(choose_spec(&names, &transitions, None, &run), 2);
    assert_eq!(choose_spec(&names, &transitions, Some("wide"), &run), 0);
    assert_eq!(choose_spec(&names, &transitions, Some("unknown"), &run), 2);
    let other = observed(&[Some("q")]);
    assert_eq!(choose_spec(&names, &transitions, None, &other), 1);
    let names = texts(&["one", "two"]);
    let transitions = vec![texts(&["x"]), texts(&["y"])];
    assert_eq!(choose_spec(&names, &transitions, None, &other), 0);
}

#[test]
fn a_run_that_was_not_understood_is_not_judged() {
    assert_eq!(unverifiable(&observed(&[None, Some("a")]), 4), None);
    let reason = unverifiable(&observed(&[None]), 4).unwrap();
    assert!(reason.starts_with("None of the 4 job(s) in this run map to a transition"));
    assert!(reason.ends_with("(reusable workflows report jobs as \"caller / inner job\")."));
}

#[test]
fn tampering_rewrites_one_step() {
    let facts: Vec<Fact> = ["build", "publish"]
        .iter()
        .map(|s| Fact {
            step: s.to_string(),
            digest: Some("sha256:AA11".to_string()),
            scope: Some("x".to_string()),
            provenance: Some(Provenance {
                build_digest: "sha256:AA11".to_string(),
                issuer: String::new(),
            }),
        })
        .collect();
    let out = tamper(&facts, "publish", "sha256:BEEF");
    assert_eq!(out[0].digest.as_deref(), Some("sha256:AA11"));
    assert!(out[0].provenance.is_some());
    assert_eq!(out[1].digest.as_deref(), Some("sha256:BEEF"));
    assert_eq!(out[1].scope.as_deref(), Some("x"));
    assert!(out[1].provenance.is_none());
}

#[test]
fn findings_are_listed_with_their_codes() {
    let spec = Spec {
        spec_version: 1,
        workflow: "w".to_string(),
        principals: Table::new(),
        places: vec![Place { id: "p".to_string(), tokens: Vec::new(), carries: Vec::new() }],
        final_places: Vec::new(),
        transitions: Vec::new(),
        relations: Table::new(),
        invariants: Vec::new(),
    };
    assert_eq!(
        list_findings(&lint(&spec)),
        vec![
            "W006 specification declares no final places",
            "W008 initial marking is empty",
            "W011 place `p` is isolated",
            "W012 place `p` is never marked and never produced",
        ]
    );
}

#[test]
fn a_fallback_policy_permits_a_release() {
    let p = fallback_policy();
    assert_eq!(p.identity, "");
    assert_eq!(p.allowed_actions.len(), 5);
    assert_eq!(p.allowed_scopes, vec!["repo/*", "secrets://prod/*", "registry://prod/*"]);
    assert!(p.allowed_steps.is_empty());
}

#[test]
fn only_one_contrast_counts() {
    assert_eq!(shows_contrast(Some(true), Some(false)), Some(true));
    assert_eq!(shows_contrast(Some(true), Some(true)), Some(false));
    assert_eq!(shows_contrast(Some(false), Some(false)), Some(false));
    assert_eq!(shows_contrast(None, Some(false)), None);
    assert_eq!(shows_contrast(Some(true), None), None);
    assert_eq!(exit_code(shows_contrast(Some(true), Some(false))), 0);
    assert_eq!(exit_code(shows_contrast(Some(false), Some(false))), 1);
    assert_eq!(exit_code(shows_contrast(None, Some(false))), 2);
}

#[test]
fn a_scenario_is_told_line_by_line() {
    let mut p = BotPolicy::default();
    p.identity = "ci-bot@ci.internal".to_string();
    p.credential.kind = "pat".to_string();
    p.credential.id = "t-1".to_string();
    p.credential.issued = "2025".to_string();
    p.allowed_actions = texts(&["a", "b"]);
    let lines = account_lines(&p);
    assert_eq!(lines[2], "   credential   pat t-1  issued 2025");
    assert_eq!(lines[3], "   rotated      never");
    assert_eq!(lines[4], "   may perform  a, b");

    let denied = PolicyOutcome {
        checked_identities: 1,
        checked_actions: 2,
        findings: vec![PolicyFinding { subject: "r1".to_string(), detail: "no".to_string() }],
    };
    let rejected = VerifyOutcome {
        verdict: Verdict::Reject,
        witness: None,
        failures: Vec::new(),
        bound: 1,
        slack: 1,
        states_explored: 1,
        exhausted: false,
        explained: Vec::new(),
        observed_steps: 1,
        blocked: None,
    };
    assert_eq!(
        leg_lines("T", "S", &denied, &rejected),
        vec![
            "",
            "== T ==",
            "   S",
            "",
            "   IDENTITY AND PERMISSION CHECK   1 identities, 2 actions",
            "   -> DENIED",
            "      r1  no",
            "",
            "   REACHABILITY CHECK   (one unlogged step allowed)",
            "   -> REJECT",
        ]
    );
}
