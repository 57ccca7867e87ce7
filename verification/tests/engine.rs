use maskedrunner::campaign::{run_campaign, Trial};
use maskedrunner::explain::explain;
use maskedrunner::index::Table;
use maskedrunner::judge::{assess, can_assess, can_judge, judge, measure};
use maskedrunner::lint::lint;
use maskedrunner::load::{load_checked, LoadedSpec};
use maskedrunner::model::{
    classify, BindMode, EffectTemplate, Invariant, InvariantKind, Pattern, Place, Principal,
    PrincipalClass, RelationObligation, RelationSchema, Spec, TokenSpec, Transition,
};
use maskedrunner::mus::{extract, MusOptions};
use maskedrunner::mutate::{apply, mutants, Mutation};
use maskedrunner::net::{Failure, Net};
use maskedrunner::observation::{EffectInstance, Fact, Observation, ObservedEdge, Plane, Record};
use maskedrunner::ordered::{Dup, StrMap};
use maskedrunner::permissiveness::permissiveness;
use maskedrunner::report::{campaign_lines, lint_lines, measure_lines, report};
use maskedrunner::verify::{verify, VerifyOptions, VerifyOutcome};
use std::collections::{BTreeMap, BTreeSet};

const BOT: &str = "ci-bot@ci.internal";
const SRE: &str = "sre@corp.example";

fn texts(items: &[&str]) -> Vec<String> {
    items.iter().map(|s| s.to_string()).collect()
}

fn table(items: &[(&str, &str)]) -> Table<String> {
    let mut t = Table::new();
    for (k, v) in items {
        t.insert(k.to_string(), v.to_string());
    }
    t
}

fn args(items: &[(&str, &str)]) -> StrMap<String> {
    let mut m = StrMap::new();
    for (k, v) in items {
        m.insert(k.to_string(), v.to_string());
    }
    m
}

fn place(id: &str, token: Option<(&str, &str)>, carries: &[&str]) -> Place {
    Place {
        id: id.to_string(),
        tokens: token
            .iter()
            .map(|(ty, value)| TokenSpec { ty: ty.to_string(), value: value.to_string() })
            .collect(),
        carries: texts(carries),
    }
}

fn template(effect: &str, items: &[(&str, &str)], linked: bool) -> EffectTemplate {
    EffectTemplate {
        effect: effect.to_string(),
        requires_relation: if linked {
            vec![RelationObligation {
                ty: "derives_from".to_string(),
                target: "artifact_create".to_string(),
                bind: table(&[("digest", "$digest")]),
            }]
        } else {
            Vec::new()
        },
        args: table(items),
    }
}

fn transition(
    id: &str,
    principal: &str,
    consumes: &[&str],
    produces: &[&str],
    bind: Option<BindMode>,
    emits: Vec<EffectTemplate>,
) -> Transition {
    let mut binds = Table::new();
    if let Some(mode) = bind {
        binds.insert("digest".to_string(), mode);
    }
    Transition {
        id: id.to_string(),
        principal: principal.to_string(),
        consumes: texts(consumes),
        produces: texts(produces),
        binds,
        guard: None,
        emits,
    }
}

/// The release workflow: a standard path and a break-glass path.
fn release() -> Spec {
    let mut principals = Table::new();
    principals.insert(
        "ci_bot".to_string(),
        Principal {
            class: PrincipalClass::ServiceAccount,
            id_pattern: "ci-bot@*".to_string(),
        },
    );
    principals.insert(
        "sre".to_string(),
        Principal { class: PrincipalClass::Human, id_pattern: "*@corp.example".to_string() },
    );
    let mut relations = Table::new();
    relations.insert(
        "derives_from".to_string(),
        RelationSchema {
            from: "registry_write".to_string(),
            to: "artifact_create".to_string(),
            constraint: "from.digest == to.digest".to_string(),
        },
    );
    let publish = || {
        template(
            "registry_write",
            &[("scope", "registry://prod/*"), ("digest", "$digest")],
            true,
        )
    };
    Spec {
        spec_version: 1,
        workflow: "release-pipeline".to_string(),
        principals,
        places: vec![
            place("start", Some(("repository", "app")), &[]),
            place("source", None, &[]),
            place("artifact", None, &["digest"]),
            place("tested", None, &["digest"]),
            place("oncall", Some(("rota", "sre")), &[]),
            place("approval", None, &[]),
            place("released", None, &["digest"]),
        ],
        final_places: texts(&["released"]),
        transitions: vec![
            transition(
                "checkout",
                "ci_bot",
                &["start"],
                &["source"],
                None,
                vec![template("vcs_read", &[("scope", "repo/*")], false)],
            ),
            transition(
                "build",
                "ci_bot",
                &["source"],
                &["source", "artifact"],
                Some(BindMode::Fresh),
                vec![template("artifact_create", &[("digest", "$digest")], false)],
            ),
            transition(
                "test",
                "ci_bot",
                &["artifact"],
                &["artifact", "tested"],
                None,
                vec![template("ci_report", &[("digest", "$digest")], false)],
            ),
            transition(
                "grant_emergency_approval",
                "sre",
                &["oncall"],
                &["oncall", "approval"],
                None,
                vec![template("approval_grant", &[("scope", "approvals/*")], false)],
            ),
            transition(
                "publish_standard",
                "ci_bot",
                &["artifact", "tested"],
                &["released"],
                None,
                vec![publish()],
            ),
            transition(
                "publish_breakglass",
                "ci_bot",
                &["artifact", "approval"],
                &["released"],
                None,
                vec![publish()],
            ),
        ],
        relations,
        invariants: vec![
            Invariant {
                id: "writes_are_produced".to_string(),
                kind: InvariantKind::EffectHasProducingTransition {
                    effect: "registry_write".to_string(),
                    scope: "registry://prod/*".to_string(),
                },
            },
            Invariant {
                id: "approval_is_single_use".to_string(),
                kind: InvariantKind::TokenConsumedNotCopied { place: "approval".to_string() },
            },
        ],
    }
}

/// The release workflow with a way to publish an artifact of an earlier run again.
fn release_with_rollback() -> Spec {
    let mut spec = release();
    spec.transitions.push(transition(
        "restore_prior_artifact",
        "ci_bot",
        &["source"],
        &["source", "artifact", "tested"],
        Some(BindMode::Attested),
        vec![template("artifact_create", &[("digest", "$digest")], false)],
    ));
    spec
}

fn loaded(spec: Spec) -> LoadedSpec {
    match load_checked("release", spec) {
        Ok(l) => l,
        Err(e) => panic!("{}", e.render()),
    }
}

fn net() -> Net {
    Net::compile(&loaded(release_with_rollback()).spec)
}

fn effect(id: &str, kind: &str, items: &[(&str, &str)]) -> EffectInstance {
    EffectInstance { id: id.to_string(), kind: kind.to_string(), args: args(items) }
}

fn record(
    id: &str,
    plane: &str,
    principal: &str,
    step: Option<&str>,
    minute: usize,
    effects: Vec<EffectInstance>,
) -> Record {
    Record {
        id: id.to_string(),
        plane: plane.to_string(),
        principal: principal.to_string(),
        step: step.map(|s| s.to_string()),
        ts: format!("2026-09-05T10:{:02}:00Z", minute),
        effects,
    }
}

fn edge(from: &str, to: &str) -> ObservedEdge {
    ObservedEdge { ty: "derives_from".to_string(), from: from.to_string(), to: to.to_string() }
}

fn observation(run: &str, records: Vec<Record>, edges: Vec<ObservedEdge>) -> Observation {
    let mut planes = StrMap::new();
    planes.insert("runner".to_string(), Plane { complete: false, carries: Vec::new() });
    Observation { run_id: run.to_string(), planes, records, edges }
}

fn steps_to_test() -> Vec<Record> {
    vec![
        record("r1", "runner", BOT, Some("checkout"), 0, vec![effect(
            "e1",
            "vcs_read",
            &[("scope", "repo/app")],
        )]),
        record("r2", "runner", BOT, Some("build"), 1, vec![effect(
            "e2",
            "artifact_create",
            &[("digest", "sha256:AA11")],
        )]),
        record("r3", "runner", BOT, Some("test"), 2, vec![effect(
            "e3",
            "ci_report",
            &[("digest", "sha256:AA11")],
        )]),
    ]
}

fn publish_record(id: &str, step: &str, effect_id: &str, digest: &str, minute: usize) -> Record {
    record(id, "runner", BOT, Some(step), minute, vec![effect(
        effect_id,
        "registry_write",
        &[("digest", digest), ("scope", "registry://prod/app")],
    )])
}

fn case1() -> Observation {
    let mut records = steps_to_test();
    records.push(publish_record("r4", "publish_standard", "e4", "sha256:AA11", 3));
    observation("run-1", records, vec![edge("e4", "e2")])
}

fn case2() -> Observation {
    let mut records = steps_to_test();
    records.push(publish_record("r4", "publish_standard", "e4", "sha256:BEEF", 3));
    observation("run-2", records, Vec::new())
}

fn case3() -> Observation {
    observation(
        "run-3",
        vec![
            record("r1", "runner", SRE, Some("grant_emergency_approval"), 0, vec![effect(
                "e1",
                "approval_grant",
                &[("scope", "approvals/hotfix")],
            )]),
            record("r2", "runner", BOT, Some("checkout"), 1, vec![effect(
                "e2",
                "vcs_read",
                &[("scope", "repo/app")],
            )]),
            record("r3", "runner", BOT, Some("build"), 2, vec![effect(
                "e3",
                "artifact_create",
                &[("digest", "sha256:BB01")],
            )]),
            record("r4", "runner", BOT, Some("build"), 3, vec![effect(
                "e4",
                "artifact_create",
                &[("digest", "sha256:BB02")],
            )]),
            publish_record("r5", "publish_breakglass", "e5", "sha256:BB02", 4),
        ],
        vec![edge("e5", "e4")],
    )
}

fn capjs(digest: &str, edges: Vec<ObservedEdge>) -> Observation {
    let mut records = steps_to_test();
    records.push(record("npm-77120", "registry", "npm-token", None, 9, vec![effect(
        "npm-77120.0",
        "registry_write",
        &[("digest", digest), ("scope", "registry://prod/app")],
    )]));
    let mut obs = observation("run-capjs", records, edges);
    obs.planes.insert(
        "registry".to_string(),
        Plane { complete: false, carries: texts(&["registry_write"]) },
    );
    obs
}

fn attack_capjs() -> Observation {
    capjs("sha256:D00D", Vec::new())
}

fn attack_capjs_provenance() -> Observation {
    capjs("sha256:AA11", vec![edge("npm-77120.0", "e2")])
}

fn attack_forged_provenance() -> Observation {
    let mut obs = case2();
    obs.edges.push(edge("e4", "e2"));
    obs
}

fn attack_self_approval() -> Observation {
    let mut obs = case3();
    obs.records[0].principal = BOT.to_string();
    obs
}

fn rollback(digest: &str) -> Observation {
    observation(
        "run-rollback",
        vec![
            record("r1", "runner", BOT, Some("checkout"), 0, vec![effect(
                "e1",
                "vcs_read",
                &[("scope", "repo/app")],
            )]),
            record("r2", "runner", BOT, Some("restore_prior_artifact"), 1, vec![effect(
                "e2",
                "artifact_create",
                &[("digest", digest)],
            )]),
            publish_record("r3", "publish_standard", "e3", digest, 2),
        ],
        vec![edge("e3", "e2")],
    )
}

fn run(obs: &Observation, slack: usize) -> VerifyOutcome {
    if let Err(e) = obs.validate() {
        panic!("{}", e.render());
    }
    verify(&net(), obs, VerifyOptions::for_observation(obs, slack))
}

fn rendered(outcome: &VerifyOutcome) -> Vec<String> {
    outcome.failures.iter().map(|f: &Failure| f.render()).collect()
}

// ---------------------------------------------------------------------------
// The cases
// ---------------------------------------------------------------------------

#[test]
fn case1_legitimate_release_is_accepted() {
    let outcome = run(&case1(), 0);
    assert!(outcome.accepted(), "{:?}", outcome.failures);
    assert_eq!(
        outcome.witness_path(),
        "checkout -> build -> test -> publish_standard"
    );
    assert_eq!(outcome.bound, 4);
    assert_eq!(outcome.slack, 0);
}

#[test]
fn case2_swapped_digest_is_rejected() {
    let outcome = run(&case2(), 0);
    assert!(!outcome.accepted());
    let told = rendered(&outcome);
    assert!(
        told.iter().any(|f| f.contains("derives_from")),
        "expected the unmet effect relation to be named: {:?}",
        told
    );
}

#[test]
fn case2_rejection_survives_maximum_slack() {
    let outcome = run(&case2(), 12);
    assert!(
        !outcome.accepted(),
        "no amount of assumed missing logging may explain a swapped digest"
    );
}

#[test]
fn case3_breakglass_hotfix_is_accepted() {
    let outcome = run(&case3(), 0);
    assert!(outcome.accepted(), "{:?}", outcome.failures);
    assert_eq!(
        outcome.witness_path(),
        "grant_emergency_approval -> checkout -> build -> build -> publish_breakglass"
    );
    let witness = outcome.witness.expect("acceptance must carry a witness");
    assert!(witness
        .iter()
        .any(|s| s.transition == "grant_emergency_approval"));
    assert!(witness.iter().any(|s| s.transition == "publish_breakglass"));
    assert_eq!(
        witness.iter().filter(|s| s.transition == "build").count(),
        2,
        "the retried build must appear in the witness"
    );
}

#[test]
fn case3_approval_token_is_single_use() {
    let mut obs = case3();
    let publish = obs
        .records
        .iter()
        .find(|r| r.step.as_deref() == Some("publish_breakglass"))
        .map(|r| r.dup())
        .expect("fixture must contain a break-glass publish");
    let mut replay = publish.dup();
    replay.id = "r6".to_string();
    replay.ts = "2026-09-05T11:30:00Z".to_string();
    replay.effects = publish
        .effects
        .iter()
        .map(|e| {
            let mut e = e.dup();
            e.id = format!("{}b", e.id);
            e
        })
        .collect();
    let extra_edges: Vec<ObservedEdge> = obs
        .edges
        .iter()
        .filter(|e| publish.effects.iter().any(|p| p.id == e.from))
        .map(|e| ObservedEdge {
            ty: e.ty.clone(),
            from: format!("{}b", e.from),
            to: e.to.clone(),
        })
        .collect();
    obs.records.push(replay);
    obs.edges.extend(extra_edges);

    let outcome = run(&obs, 0);
    assert!(
        !outcome.accepted(),
        "a second publish on one approval must find no token"
    );
}

#[test]
fn capjs_publish_without_a_producing_run_is_rejected() {
    let outcome = run(&attack_capjs(), 0);
    assert!(!outcome.accepted());
    let told = rendered(&outcome);
    assert!(
        told.iter()
            .any(|f| f.starts_with("registry_write `npm-77120.0` has no producing transition")),
        "{:?}",
        told
    );
    let robust = run(&attack_capjs(), 8);
    assert!(
        !robust.accepted(),
        "the rejection must survive assumed missing logging"
    );
}

#[test]
fn capjs_with_genuine_provenance_is_accepted_under_slack() {
    let strict = run(&attack_capjs_provenance(), 0);
    assert!(!strict.accepted());
    let relaxed = run(&attack_capjs_provenance(), 1);
    assert!(
        relaxed.accepted(),
        "a publish with real provenance and one unlogged step must verify: {:?}",
        relaxed.failures
    );
}

#[test]
fn held_out_forged_provenance_edge_is_rejected() {
    let outcome = run(&attack_forged_provenance(), 0);
    assert!(!outcome.accepted());
    let told = rendered(&outcome);
    assert!(
        told.iter()
            .any(|f| f.contains("violates the declared constraint")),
        "a fabricated relation edge must fail the relation schema: {:?}",
        told
    );
}

#[test]
fn held_out_self_approval_is_rejected() {
    let outcome = run(&attack_self_approval(), 0);
    assert!(!outcome.accepted());
    let told = rendered(&outcome);
    assert!(
        told.iter().any(|f| f.contains("*@corp.example")),
        "the service account may not issue its own approval: {:?}",
        told
    );
}

#[test]
fn rejection_reports_the_longest_legal_prefix() {
    let outcome = run(&case2(), 0);
    assert!(!outcome.accepted());
    let prefix: Vec<String> = outcome
        .explained
        .iter()
        .map(|s| s.transition.clone())
        .collect();
    assert_eq!(prefix, vec!["checkout", "build", "test"]);
    assert_eq!(outcome.observed_steps, 4);
    let blocked = outcome.blocked.expect("a blocked step must be named");
    assert_eq!(blocked.step, "publish_standard");
    assert_eq!(blocked.record, "r4");
}

#[test]
fn unmatched_effect_explains_every_step_and_blocks_none() {
    let outcome = run(&attack_capjs(), 0);
    assert!(!outcome.accepted());
    assert_eq!(outcome.explained.len(), 3);
    assert!(
        outcome.blocked.is_none(),
        "every recorded step is legal here; the effect is what has no cause"
    );
}

fn run_with_evidence(obs: &Observation, digests: &[&str]) -> VerifyOutcome {
    let mut net = net();
    net.present_evidence(&texts(digests));
    verify(&net, obs, VerifyOptions::for_observation(obs, 0))
}

#[test]
fn rollback_without_a_certificate_is_rejected() {
    let outcome = run(&rollback("sha256:AA11"), 0);
    assert!(!outcome.accepted());
    let told = rendered(&outcome);
    assert!(
        told.iter()
            .any(|f| f.contains("no presented certificate attests")),
        "the rejection must name the missing evidence: {:?}",
        told
    );
}

#[test]
fn rollback_with_a_certificate_for_that_digest_is_accepted() {
    let outcome = run_with_evidence(&rollback("sha256:AA11"), &["sha256:AA11"]);
    assert!(outcome.accepted(), "{:?}", outcome.failures);
    assert_eq!(
        outcome.witness_path(),
        "checkout -> restore_prior_artifact -> publish_standard"
    );
}

#[test]
fn a_certificate_admits_only_the_digest_it_attests() {
    let outcome = run_with_evidence(&rollback("sha256:DEAD"), &["sha256:AA11"]);
    assert!(!outcome.accepted());
    let told = rendered(&outcome);
    assert!(
        told.iter().any(|f| f.contains("sha256:DEAD")),
        "the rejection must name the digest that was never produced: {:?}",
        told
    );
}

#[test]
fn rollback_cannot_be_smuggled_in_as_an_unobserved_step() {
    let outcome = run(&rollback("sha256:DEAD"), 12);
    assert!(
        !outcome.accepted(),
        "an unobserved restore must not be inventable under slack"
    );
}

// ---------------------------------------------------------------------------
// Legal traces
// ---------------------------------------------------------------------------

const MAX_STEPS: usize = 14;

struct Rng(u64);

impl Rng {
    fn new(seed: u64) -> Self {
        Rng(seed | 1)
    }

    fn next(&mut self) -> u64 {
        let mut x = self.0;
        x ^= x << 13;
        x ^= x >> 7;
        x ^= x << 17;
        self.0 = x;
        x
    }

    fn below(&mut self, n: usize) -> usize {
        if n == 0 {
            0
        } else {
            (self.next() % n as u64) as usize
        }
    }
}

fn concrete(raw: &str, env: &StrMap<String>) -> String {
    match classify(raw) {
        Pattern::Lit(v) => v,
        Pattern::Glob(p) => p.replace('*', "app"),
        Pattern::Var(name) => env.get(&name).cloned().unwrap_or_else(|| "unbound".to_string()),
    }
}

fn identity_for(net: &Net, key: &str) -> String {
    net.spec
        .principals
        .get(key)
        .map(|p| p.id_pattern.replace('*', "gen"))
        .unwrap_or_else(|| key.to_string())
}

fn generate(net: &Net, seed: u64) -> Option<Observation> {
    let mut rng = Rng::new(seed);
    let mut marking = net.initial.dup();
    let mut records: Vec<Record> = Vec::new();
    let mut edges: Vec<ObservedEdge> = Vec::new();
    let mut minted = 0usize;

    for step in 0..MAX_STEPS {
        if net.is_final(&marking) {
            break;
        }
        let mut candidates = Vec::new();
        for transition in &net.transitions {
            if net.missing_place(&marking, transition).is_some() {
                continue;
            }
            for choice in net.choices(&marking, transition) {
                if net.merge_env(&marking, transition, &choice).is_some() {
                    candidates.push((transition, choice));
                }
            }
        }
        if candidates.is_empty() {
            return None;
        }
        let (transition, choice) = candidates[rng.below(candidates.len())].clone();
        let mut env = net.merge_env(&marking, transition, &choice)?;
        for bind in &transition.binds {
            minted += 1;
            env.insert(bind.clone(), format!("sha256:GEN{:04}", minted));
        }

        let record_id = format!("s{}", step);
        let mut effects: Vec<EffectInstance> = Vec::new();
        for (index, template) in transition.emits.iter().enumerate() {
            let mut made = StrMap::new();
            for i in 0..template.args.len() {
                made.insert(
                    template.args.key_at(i).clone(),
                    concrete(template.args.value_at(i), &env),
                );
            }
            let effect = EffectInstance {
                id: format!("{}.{}", record_id, index),
                kind: template.effect.clone(),
                args: made,
            };
            for obligation in &template.requires_relation {
                let mut wanted: BTreeMap<String, String> = BTreeMap::new();
                for i in 0..obligation.bind.len() {
                    wanted.insert(
                        obligation.bind.key_at(i).clone(),
                        concrete(obligation.bind.value_at(i), &env),
                    );
                }
                let target = records
                    .iter()
                    .flat_map(|r| r.effects.iter())
                    .rev()
                    .find(|candidate| {
                        candidate.kind == obligation.target
                            && wanted
                                .iter()
                                .all(|(k, v)| candidate.args.get(k) == Some(v))
                    })?;
                edges.push(ObservedEdge {
                    ty: obligation.ty.clone(),
                    from: effect.id.clone(),
                    to: target.id.clone(),
                });
            }
            effects.push(effect);
        }

        records.push(Record {
            id: record_id,
            plane: "runner".to_string(),
            principal: identity_for(net, &transition.principal),
            step: Some(transition.id.clone()),
            ts: format!("2026-01-01T00:{:02}:00Z", step),
            effects,
        });
        marking = net.fire(&marking, transition, &choice, &env);
    }

    if !net.is_final(&marking) {
        return None;
    }

    Some(Observation {
        run_id: format!("generated-{}", seed),
        planes: StrMap::new(),
        records,
        edges,
    })
}

fn plain_net() -> Net {
    Net::compile(&loaded(release()).spec)
}

#[test]
fn every_legal_trace_is_accepted() {
    let net = plain_net();
    let mut generated = 0usize;
    let mut shapes: BTreeSet<String> = BTreeSet::new();

    for seed in 1..=4000u64 {
        let Some(obs) = generate(&net, seed) else {
            continue;
        };
        if let Err(e) = obs.validate() {
            panic!("generated observation must be well formed: {}", e.render());
        }
        let outcome = verify(&net, &obs, VerifyOptions::for_observation(&obs, 0));
        assert!(
            outcome.accepted(),
            "legal trace {} was rejected: {:?}",
            obs.records
                .iter()
                .filter_map(|r| r.step.clone())
                .collect::<Vec<String>>()
                .join(" -> "),
            outcome.failures
        );
        shapes.insert(
            obs.records
                .iter()
                .filter_map(|r| r.step.clone())
                .collect::<Vec<String>>()
                .join(" -> "),
        );
        generated += 1;
    }

    println!(
        "generated {} legal traces, {} structurally distinct, all accepted",
        generated,
        shapes.len()
    );
    assert!(generated >= 1000, "expected a large legal corpus, got {}", generated);
    assert!(
        shapes.len() >= 100,
        "expected many structurally distinct legal traces, got {}",
        shapes.len()
    );
    assert_eq!(generated, 3977);
    assert_eq!(shapes.len(), 511);
}

#[test]
fn generated_traces_are_not_enumerated_by_the_spec() {
    let net = plain_net();
    let mut longest = 0usize;
    for seed in 1..=4000u64 {
        if let Some(obs) = generate(&net, seed) {
            longest = longest.max(obs.records.len());
        }
    }
    assert!(
        longest > net.transitions.len(),
        "expected accepted traces longer than the transition count, got {}",
        longest
    );
}

// ---------------------------------------------------------------------------
// The release specification
// ---------------------------------------------------------------------------

#[test]
fn reference_spec_is_sound() {
    let report = lint(&release_with_rollback());
    let errors: Vec<String> = report
        .errors()
        .iter()
        .map(|d| format!("{} {}", d.code, d.message))
        .collect();
    assert!(errors.is_empty(), "{:#?}", errors);
    assert!(report.is_sound());
}

#[test]
fn reference_spec_reports_free_choice_escape_hatch() {
    let report = lint(&release());
    assert!(report.warnings().iter().any(|d| d.code == "W013"));
}

#[test]
fn permissiveness_counts_distinct_shapes() {
    let net = plain_net();
    let counts: Vec<usize> = (4..=8)
        .map(|depth| permissiveness(&net, depth, 100_000, 2_000_000).shapes)
        .collect();
    assert_eq!(counts, vec![2, 9, 29, 85, 233]);
    let capped = permissiveness(&net, 8, 10, 2_000_000);
    assert!(capped.truncated);
    assert_eq!(capped.shapes, 10);
}

#[test]
fn a_measure_stops_where_it_is_cut_short() {
    let net = plain_net();
    let rows = measure(&net, 8, 9, 2_000_000);
    let shapes: Vec<(usize, usize, bool)> =
        rows.iter().map(|m| (m.depth, m.shapes, m.truncated)).collect();
    assert_eq!(
        shapes,
        vec![(1, 0, false), (2, 0, false), (3, 0, false), (4, 2, false), (5, 9, true)]
    );
    let lines = measure_lines(&loaded(release()), &rows);
    assert_eq!(lines[1], "SOURCE    7 places, 6 transitions");
    assert_eq!(lines[6], "  4       2");
    assert_eq!(lines[7], "  5       9+");
    assert_eq!(
        lines[8],
        "ACCEPTS   9+ structurally distinct executions at depth 5"
    );
}

#[test]
fn the_rejection_rests_on_one_pair_of_clauses() {
    let l = loaded(release());
    let all = mutants(&l.spec);
    assert_eq!(all.len(), 13);
    let c = run_campaign(&l.spec, &case2(), 0);
    assert!(c.singles.iter().all(|t| *t == Trial::Reject));
    assert_eq!(c.pairs.len(), 1);
    let (a, b) = c.pairs[0];
    assert_eq!(
        all[a].id,
        "drop-obligation:publish_standard/registry_write/derives_from"
    );
    assert_eq!(all[b].id, "loosen-arg:publish_standard/registry_write/digest");
    let lines = campaign_lines(&l, "run-2", &all, &c);
    let at = lines
        .iter()
        .position(|s| s == "RESULT    0 of 13 single mutations remove the rejection")
        .expect("a result line");
    assert_eq!(
        lines[at + 1],
        "          the rejection is over-determined: 1 pair(s) of clauses must both be relaxed"
    );
    assert_eq!(lines[at + 2], "MINIMAL RELAXATION");
    assert_eq!(
        lines[at + 3],
        "  drop-obligation:publish_standard/registry_write/derives_from"
    );
}

#[test]
fn an_accepted_run_has_no_campaign() {
    let l = loaded(release());
    let c = run_campaign(&l.spec, &case1(), 0);
    assert!(c.singles.is_empty());
    assert!(c.pairs.is_empty());
    let lines = campaign_lines(&l, "run-1", &mutants(&l.spec), &c);
    assert_eq!(lines[2], "BASELINE  ACCEPT");
    assert_eq!(
        lines[3],
        "Mutation testing only applies to a rejected run. This one is accepted."
    );
}

#[test]
fn a_widened_principal_admits_a_self_approval() {
    let l = loaded(release());
    let c = run_campaign(&l.spec, &attack_self_approval(), 0);
    let all = mutants(&l.spec);
    let hits: Vec<&str> = all
        .iter()
        .zip(c.singles.iter())
        .filter(|(_, t)| **t == Trial::Accept)
        .map(|(m, _)| m.id.as_str())
        .collect();
    assert_eq!(hits, vec!["widen-principal:sre"]);
    assert!(c.pairs.is_empty());
}

// ---------------------------------------------------------------------------
// Mutations
// ---------------------------------------------------------------------------

#[test]
fn named_obligations_are_dropped_in_any_order() {
    let mut spec = release();
    let obligations = &mut spec.transitions[4].emits[0].requires_relation;
    for ty in ["second", "third", "fourth"] {
        obligations.push(RelationObligation {
            ty: ty.to_string(),
            target: "x".to_string(),
            bind: Table::new(),
        });
    }
    let first = Mutation::DropObligation { transition: 4, emit: 0, obligation: 0 };
    let third = Mutation::DropObligation { transition: 4, emit: 0, obligation: 2 };
    for order in [vec![&first, &third], vec![&third, &first]] {
        let out = apply(&spec, &order);
        let left: Vec<String> = out.transitions[4].emits[0]
            .requires_relation
            .iter()
            .map(|o| o.ty.clone())
            .collect();
        assert_eq!(left, vec!["second", "fourth"]);
    }
    let beyond = Mutation::DropObligation { transition: 4, emit: 0, obligation: 9 };
    let out = apply(&spec, &vec![&beyond]);
    assert_eq!(out.transitions[4].emits[0].requires_relation.len(), 4);
}

#[test]
fn each_mutation_relaxes_its_clause() {
    let mut spec = release();
    spec.transitions[0].guard = Some("scope == app".to_string());
    let loosen = Mutation::LoosenArg {
        transition: 1,
        emit: 0,
        key: "digest".to_string(),
    };
    let widen = Mutation::WidenPrincipal { name: "sre".to_string() };
    let relax = Mutation::RelaxRelation { name: "derives_from".to_string() };
    let drop_guard = Mutation::DropGuard { transition: 0 };
    let nowhere = Mutation::WidenPrincipal { name: "nobody".to_string() };
    let out = apply(&spec, &vec![&loosen, &widen, &relax, &drop_guard, &nowhere]);
    assert_eq!(
        out.transitions[1].emits[0].args.get("digest").map(|s| s.as_str()),
        Some("*")
    );
    assert_eq!(
        out.principals.get("sre").map(|p| p.id_pattern.as_str()),
        Some("*")
    );
    assert_eq!(
        out.relations.get("derives_from").map(|r| r.constraint.as_str()),
        Some("")
    );
    assert_eq!(out.transitions[0].guard, None);
    assert_eq!(out.principals.len(), 2);
    assert!(mutants(&spec).iter().any(|m| m.id == "drop-guard:checkout"
        && m.description == "guard `scope == app` removed from `checkout`"));
    let same = apply(&spec, &Vec::new());
    assert_eq!(format!("{:?}", same), format!("{:?}", spec));
}

#[test]
fn each_mutation_leaves_one_mutant_less() {
    let mut spec = release();
    spec.transitions[0].guard = Some("scope == app".to_string());
    let all = mutants(&spec);
    assert_eq!(all.len(), 14);
    for m in &all {
        let left = mutants(&apply(&spec, &vec![&m.mutation])).len();
        if matches!(m.mutation, Mutation::RelaxRelation { .. }) {
            assert_eq!(left, 14, "{}", m.id);
        } else {
            assert_eq!(left, 13, "{}", m.id);
        }
    }
}

#[test]
fn mutations_can_be_made_in_any_order() {
    let spec = release();
    let all = mutants(&spec);
    let forth: Vec<&Mutation> = all.iter().map(|m| &m.mutation).collect();
    let back: Vec<&Mutation> = all.iter().rev().map(|m| &m.mutation).collect();
    let out = apply(&spec, &forth);
    assert_eq!(format!("{:?}", out), format!("{:?}", apply(&spec, &back)));
    assert_eq!(mutants(&out).len(), spec.relations.len());
}

// ---------------------------------------------------------------------------
// Certificates
// ---------------------------------------------------------------------------

#[test]
fn a_rejection_is_explained_by_a_single_fact() {
    let l = loaded(release());
    let net = Net::compile(&l.spec);
    let obs = case2();
    assert!(can_assess(&net, &obs, 0));
    let a = assess(&l, &net, &obs, b"case2", 0, 77);
    assert!(!a.outcome.accepted());
    assert_eq!(a.robust, Some(true));
    let c = &a.certificate;
    assert_eq!(c.verdict, "reject");
    assert_eq!(c.minimal_unsatisfiable_set.len(), 1);
    assert_eq!(
        c.minimal_unsatisfiable_set[0].render(),
        "registry_write(digest=sha256:BEEF, scope=registry://prod/app)"
    );
    assert_eq!(c.mus_oracle_calls, 9);
    assert!(c.mus_minimal);
    assert!(c.attested_digests.is_empty());
    assert_eq!(c.witness, None);
    assert_eq!(c.issued_at_unix, 77);
    assert_eq!(c.engine, "maskedrunner 0.1.0");
    let lines = report(&l, &obs, b"case2", &a.outcome, a.robust, c);
    assert_eq!(
        lines[0],
        "VERDICT   REJECT  (robust: holds at maximum slack)"
    );
    assert_eq!(
        lines[1],
        "EXPLAINED checkout -> build -> test      3 of 4 observed steps"
    );
    assert_eq!(
        lines[3],
        "            build                      ci-bot@ci.internal   [r2] digest=sha256:AA11"
    );
    assert_eq!(
        lines[5],
        "BLOCKED   publish_standard           ci-bot@ci.internal   [r4]"
    );
    assert_eq!(lines[6], "MINIMAL UNSATISFIABLE SET   (9 oracle calls)");
    assert!(lines.contains(&"FAILED OBLIGATION".to_string()));
    assert!(lines.contains(&"BOUND     k=4, slack=0".to_string()));
}

#[test]
fn an_acceptance_attests_the_digests_that_were_observed() {
    let l = loaded(release());
    let net = Net::compile(&l.spec);
    let mut obs = case1();
    let a = assess(&l, &net, &obs, b"case1", 0, 0);
    assert_eq!(a.robust, None);
    assert_eq!(a.certificate.verdict, "accept");
    assert_eq!(a.certificate.attested_digests, vec!["sha256:AA11"]);
    assert_eq!(
        a.certificate.witness,
        Some(texts(&["checkout", "build", "test", "publish_standard"]))
    );
    let lines = report(&l, &obs, b"case1", &a.outcome, a.robust, &a.certificate);
    assert_eq!(lines[0], "VERDICT   ACCEPT");
    assert_eq!(
        lines[1],
        "WITNESS   checkout -> build -> test -> publish_standard"
    );
    obs.records[0].effects[0]
        .args
        .insert("digest".to_string(), "~fresh9".to_string());
    let outcome = a.outcome.dup();
    let c = explain(&net, "w", "h", &obs, b"", &outcome, None, 0);
    assert_eq!(c.attested_digests, vec!["sha256:AA11"]);
    obs.records[0].effects[0]
        .args
        .insert("digest".to_string(), "sha256:0000".to_string());
    let c = explain(&net, "w", "h", &obs, b"", &outcome, None, 0);
    assert_eq!(c.attested_digests, vec!["sha256:0000", "sha256:AA11"]);
    assert_eq!(c.spec_hash, "sha256:h");
    assert_eq!(
        c.observation_hash,
        "sha256:e3b0c44298fc1c149afbf4c8996fb92427ae41e4649b934ca495991b7852b855"
    );
}

#[test]
fn a_missing_log_line_is_told_from_a_missing_cause() {
    let l = loaded(release());
    let net = Net::compile(&l.spec);
    let obs = attack_capjs_provenance();
    assert!(can_judge(&net, &obs, 0));
    let (outcome, robust) = judge(&net, &obs, 0);
    assert!(!outcome.accepted());
    assert_eq!(robust, Some(false));
    let (outcome, robust) = judge(&net, &attack_capjs(), 0);
    assert!(!outcome.accepted());
    assert_eq!(robust, Some(true));
}

#[test]
fn a_rejection_that_rests_on_complete_planes_says_so() {
    let l = loaded(release());
    let net = Net::compile(&l.spec);
    let mut obs = attack_capjs_provenance();
    obs.planes.insert(
        "runner".to_string(),
        Plane {
            complete: true,
            carries: texts(&["registry_write", "ci_report", "artifact_create", "vcs_read"]),
        },
    );
    obs.planes.insert("registry".to_string(), Plane { complete: true, carries: Vec::new() });
    obs.records.pop();
    obs.edges.clear();
    obs.records.push(record("x", "registry", "npm", None, 9, vec![effect(
        "x.0",
        "ci_report",
        &[("digest", "sha256:AA11")],
    )]));
    let outcome = verify(&net, &obs, VerifyOptions::for_observation(&obs, 0));
    assert!(!outcome.accepted());
    let c = explain(&net, "w", "h", &obs, b"", &outcome, None, 0);
    assert_eq!(c.notes.len(), 1);
    assert!(c.notes[0].starts_with(
        "this rejection holds only because plane(s) [registry, runner] are declared complete."
    ));
}

#[test]
fn a_core_is_unsatisfiable_and_spares_no_fact() {
    let net = plain_net();
    let obs = attack_capjs();
    let options = MusOptions::for_observation(&obs);
    let core = extract(&net, &obs, options);
    assert!(!core.relaxation_accepts);
    assert!(core.minimal);
    assert_eq!(core.facts.len(), 1);
    assert_eq!(
        core.facts[0].render(),
        "registry_write(digest=sha256:D00D, scope=registry://prod/app)"
    );
    assert!(matches!(core.facts[0], Fact::Effect { .. }));
}

#[test]
fn a_lint_is_told_line_by_line() {
    let lines = lint_lines(&loaded(release()));
    assert!(lines[0].starts_with("SPEC      release-pipeline@sha256:"));
    assert_eq!(lines[0].len(), "SPEC      release-pipeline@sha256:".len() + 12);
    assert_eq!(lines[1], "PLACES    7   TRANSITIONS  6");
    assert!(lines[2].starts_with("WARNING W013  not free-choice: `test` and `publish_standard`"));
    assert_eq!(lines[lines.len() - 1], "VERDICT   SOUND");
}
