use maskedrunner::certificate::CertificateError;
use maskedrunner::index::Table;
use maskedrunner::matching::{eval_constraint, eval_guard};
use maskedrunner::model::{
    BindMode, EffectTemplate, Place, Principal, PrincipalClass, RelationObligation,
    RelationSchema, Spec, TokenSpec, Transition,
};
use maskedrunner::net::{Failure, Net};
use maskedrunner::observation::{
    EffectInstance, Fact, FactSet, Observation, ObservationError, ObservedEdge, Plane, Record,
};
use maskedrunner::ordered::{StrMap, StrSet};
use maskedrunner::text::{cut_text, split_text, strip_prefix_text, text_before, trim_text};
use maskedrunner::verify::{verify, VerifyOptions, VerifyOutcome};

fn table(items: &[(&str, &str)]) -> Table<String> {
    let mut t = Table::new();
    for (k, v) in items {
        t.insert(k.to_string(), v.to_string());
    }
    t
}

fn args(items: &[(&str, &str)]) -> StrMap<String> {
    let mut m = StrMap::new();
    for (k, v) in items {
        m.insert(k.to_string(), v.to_string());
    }
    m
}

fn transition(id: &str, from: &str, to: &str, emits: EffectTemplate) -> Transition {
    Transition {
        id: id.to_string(),
        principal: "bot".to_string(),
        consumes: vec![from.to_string()],
        produces: vec![to.to_string()],
        binds: Table::new(),
        guard: None,
        emits: vec![emits],
    }
}

/// Two steps: a build, and a publish of what was built.
fn spec() -> Spec {
    let mut principals = Table::new();
    principals.insert(
        "bot".to_string(),
        Principal { class: PrincipalClass::Workload, id_pattern: "bot@*".to_string() },
    );
    let mut relations = Table::new();
    relations.insert(
        "derives_from".to_string(),
        RelationSchema {
            from: "publish".to_string(),
            to: "build".to_string(),
            constraint: "from.digest == to.digest".to_string(),
        },
    );
    let place = |id: &str, carries: &[&str]| Place {
        id: id.to_string(),
        tokens: Vec::new(),
        carries: carries.iter().map(|c| c.to_string()).collect(),
    };
    let mut start = place("start", &[]);
    start.tokens.push(TokenSpec { ty: "repo".to_string(), value: "app".to_string() });
    let mut build = transition(
        "build",
        "start",
        "made",
        EffectTemplate {
            effect: "build".to_string(),
            requires_relation: Vec::new(),
            args: table(&[("digest", "$digest")]),
        },
    );
    build.binds.insert("digest".to_string(), BindMode::Fresh);
    let ship = transition(
        "ship",
        "made",
        "done",
        EffectTemplate {
            effect: "publish".to_string(),
            requires_relation: vec![RelationObligation {
                ty: "derives_from".to_string(),
                target: "build".to_string(),
                bind: table(&[("digest", "$digest")]),
            }],
            args: table(&[("digest", "$digest")]),
        },
    );
    Spec {
        spec_version: 1,
        workflow: "w".to_string(),
        principals,
        places: vec![start, place("made", &["digest"]), place("done", &["digest"])],
        final_places: vec!["done".to_string()],
        transitions: vec![build, ship],
        relations,
        invariants: Vec::new(),
    }
}

fn effect(id: &str, kind: &str, digest: &str) -> EffectInstance {
    EffectInstance {
        id: id.to_string(),
        kind: kind.to_string(),
        args: args(&[("digest", digest)]),
    }
}

fn record(id: &str, plane: &str, step: Option<&str>, ts: &str, e: EffectInstance) -> Record {
    Record {
        id: id.to_string(),
        plane: plane.to_string(),
        principal: "bot@ci".to_string(),
        step: step.map(|s| s.to_string()),
        ts: ts.to_string(),
        effects: vec![e],
    }
}

fn edge(ty: &str, from: &str, to: &str) -> ObservedEdge {
    ObservedEdge { ty: ty.to_string(), from: from.to_string(), to: to.to_string() }
}

fn legal() -> Observation {
    Observation {
        run_id: "r".to_string(),
        planes: StrMap::new(),
        records: vec![
            record("r1", "runner", Some("build"), "1", effect("e1", "build", "aa")),
            record("r2", "registry", Some("ship"), "2", effect("e2", "publish", "aa")),
        ],
        edges: vec![edge("derives_from", "e2", "e1")],
    }
}

fn judged(spec: &Spec, obs: &Observation) -> VerifyOutcome {
    verify(&Net::compile(spec), obs, VerifyOptions::for_observation(obs, 0))
}

fn failed(spec: &Spec, obs: &Observation) -> Vec<String> {
    let outcome = judged(spec, obs);
    assert!(!outcome.accepted());
    outcome.failures.iter().map(|f| f.render()).collect()
}

#[test]
fn a_publish_of_what_was_built_is_accepted() {
    let outcome = judged(&spec(), &legal());
    assert!(outcome.accepted());
    assert_eq!(outcome.witness_path(), "build -> ship");
    assert_eq!(outcome.observed_steps, 2);
}

#[test]
fn log_sources_may_disagree_about_the_clock() {
    let mut skewed = legal();
    skewed.records[0].ts = "9".to_string();
    let (a, b) = (judged(&spec(), &legal()), judged(&spec(), &skewed));
    assert!(a.accepted() && b.accepted());
    assert_eq!(a.witness_path(), b.witness_path());
    assert_eq!(a.states_explored, b.states_explored);
    skewed.records[1].plane = "runner".to_string();
    assert!(matches!(skewed.validate(), Err(ObservationError::CausalCycle(_))));
}

#[test]
fn observations_are_validated() {
    assert!(legal().validate().is_ok());
    let mut twice = legal();
    twice.records[1].id = "r1".to_string();
    assert!(matches!(twice.validate(), Err(ObservationError::DuplicateRecord(id)) if id == "r1"));
    let mut twice = legal();
    twice.records[1].effects[0].id = "e1".to_string();
    let e = twice.validate().unwrap_err();
    assert_eq!(e.render(), "duplicate effect id `e1`");
    let mut dangling = legal();
    dangling.edges.push(edge("derives_from", "e2", "e9"));
    let e = dangling.validate().unwrap_err();
    assert!(matches!(e, ObservationError::UnknownEffect { .. }));
    assert_eq!(e.render(), "edge `derives_from` references unknown effect `e9`");
    let mut cycle = legal();
    cycle.edges.push(edge("derives_from", "e1", "e2"));
    let e = cycle.validate().unwrap_err();
    assert!(matches!(e, ObservationError::CausalCycle(_)));
    assert_eq!(
        e.render(),
        "observation contains a causal cycle involving record `r1`"
    );
}

#[test]
fn records_are_ordered_by_plane_and_by_edge() {
    assert_eq!(legal().order().unwrap(), vec![vec![], vec![0]]);
    let mut apart = legal();
    apart.edges.clear();
    assert_eq!(apart.order().unwrap(), vec![Vec::<usize>::new(), Vec::new()]);
    apart.records[0].plane = "registry".to_string();
    apart.records[0].ts = "3".to_string();
    assert_eq!(apart.order().unwrap(), vec![vec![1], vec![]]);
}

#[test]
fn every_failure_is_told() {
    let mut obs = legal();
    obs.records[0].step = Some("deploy".to_string());
    assert_eq!(
        failed(&spec(), &obs),
        vec!["step `deploy` is not a transition of this workflow"]
    );

    let mut obs = legal();
    obs.records[0].principal = "eve@ci".to_string();
    assert_eq!(
        failed(&spec(), &obs),
        vec!["`build` was performed by `eve@ci` but the transition admits only `bot@*`"]
    );

    let mut obs = legal();
    obs.records.remove(0);
    obs.edges.clear();
    assert_eq!(
        failed(&spec(), &obs),
        vec!["`ship` is not enabled: no token available in place `made`"]
    );

    let mut obs = legal();
    obs.records[0].effects.push(effect("e3", "build", "bb"));
    assert_eq!(
        failed(&spec(), &obs),
        vec![
            "`build` emitted effects the schema does not permit: transition emits 1 effect(s), record carries 2"
        ]
    );

    let mut obs = legal();
    obs.edges[0].ty = "knows".to_string();
    let outcome = judged(&spec(), &obs);
    assert!(matches!(outcome.failures[0], Failure::EdgeIllTyped { .. }));
    assert_eq!(outcome.states_explored, 0);

    let mut obs = legal();
    obs.records[1].effects[0].args = args(&[("digest", "bb")]);
    assert_eq!(
        failed(&spec(), &obs),
        vec!["edge derives_from(e2 -> e1) violates the declared constraint `from.digest == to.digest`"]
    );

    let mut obs = legal();
    obs.edges.clear();
    obs.records[1].effects[0].args = args(&[("digest", "bb")]);
    let outcome = judged(&spec(), &obs);
    assert!(outcome.failures.iter().any(|f| matches!(f, Failure::ObligationUnmet { .. })));
    assert!(outcome.failures.iter().any(|f| matches!(
        f,
        Failure::EffectArgMismatch { arg, observed, .. } if arg == "digest" && observed == "bb"
    )));

    let mut obs = legal();
    obs.records.push(record("r3", "registry", None, "3", effect("e3", "publish", "cc")));
    let outcome = judged(&spec(), &obs);
    assert!(matches!(
        &outcome.failures[0],
        Failure::UnmatchedEffect { effect, kind, .. } if effect == "e3" && kind == "publish"
    ));

    let mut obs = legal();
    obs.records.pop();
    obs.edges.clear();
    let outcome = judged(&spec(), &obs);
    assert!(matches!(outcome.failures[0], Failure::NoFinalMarking { .. }));

    let mut guarded = spec();
    guarded.transitions[1].guard = Some("$digest == bb".to_string());
    let outcome = judged(&guarded, &legal());
    assert!(matches!(
        &outcome.failures[0],
        Failure::GuardFalse { transition, guard } if transition == "ship" && guard == "$digest == bb"
    ));

    let mut attesting = spec();
    attesting.transitions[0].binds.insert("digest".to_string(), BindMode::Attested);
    let outcome = judged(&attesting, &legal());
    assert!(matches!(
        &outcome.failures[0],
        Failure::NotAttested { transition, bind, value }
            if transition == "build" && bind == "digest" && value == "aa"
    ));
}

#[test]
fn a_bound_cuts_steps_off() {
    let net = Net::compile(&spec());
    let options = VerifyOptions { bound: 1, slack: 0, max_states: 1000 };
    let outcome = verify(&net, &legal(), options);
    assert!(!outcome.accepted());
    assert!(!outcome.exhausted);
    assert!(matches!(
        &outcome.failures[0],
        Failure::StepNotExplained { step, record } if step == "ship" && record == "r2"
    ));
    let options = VerifyOptions { bound: 4, slack: 0, max_states: 1 };
    assert!(verify(&net, &legal(), options).exhausted);
}

#[test]
fn guards_and_constraints_compare() {
    let env = args(&[("ref", "main"), ("n", "1")]);
    assert!(eval_guard("$ref == main", &env));
    assert!(eval_guard("$ref == \"main\" && $n != 2", &env));
    assert!(!eval_guard("$ref != main", &env));
    assert!(!eval_guard("$ref == main && $n == 2", &env));
    assert!(eval_guard("nothing to compare", &env));
    let (a, b) = (effect("a", "k", "x"), effect("b", "k", "y"));
    assert!(eval_constraint("from.digest != to.digest", &a, &b));
    assert!(!eval_constraint("from.digest == to.digest", &a, &b));
}

#[test]
fn observations_can_be_asked() {
    let mut obs = legal();
    obs.planes.insert(
        "registry".to_string(),
        Plane { complete: true, carries: vec!["publish".to_string()] },
    );
    obs.planes.insert(
        "runner".to_string(),
        Plane { complete: false, carries: vec!["build".to_string()] },
    );
    assert!(obs.plane_carries("publish"));
    assert!(!obs.plane_carries("build"));
    obs.records.push(record("r3", "audit", None, "", effect("e3", "note", "zz")));
    assert_eq!(obs.step_records(), vec![0, 1]);
    assert_eq!(obs.record_of_effect("e2"), Some(1));
    assert_eq!(obs.record_of_effect("e9"), None);
    assert_eq!(obs.effect("e3").unwrap().kind, "note");
    assert_eq!(obs.effects().len(), 3);
    assert_eq!(obs.dangling_effects()[0].id, "e3");
    assert_eq!(obs.value_domain().to_vec(), vec!["aa", "zz"]);
}

#[test]
fn facts_restrict_an_observation() {
    let obs = legal();
    let facts = obs.facts();
    let shown: Vec<String> = facts.iter().map(|f| f.render()).collect();
    assert_eq!(facts.len(), 5);
    assert!(shown.contains(&"bot@ci performed `build`".to_string()));
    assert!(shown.contains(&"publish(digest=aa)".to_string()));
    assert!(shown.contains(&"derives_from(e2 -> e1)".to_string()));
    let mut all = FactSet::new();
    all.insert_all(&facts);
    assert_eq!(all.len(), 5);
    let same = obs.restrict(&all);
    assert_eq!(same.records.len(), 2);
    assert_eq!(same.edges.len(), 1);
    for f in &facts {
        all.remove(f);
    }
    assert_eq!(obs.restrict(&all).records.len(), 0);
}

fn rendered(obs: &Observation) -> Vec<String> {
    obs.facts().iter().map(|f| f.render()).collect()
}

#[test]
fn a_restriction_leaves_the_kept_facts_in_order() {
    let obs = legal();
    let facts = obs.facts();
    let mut all = FactSet::new();
    all.insert_all(&facts);
    assert_eq!(rendered(&obs.restrict(&all)), rendered(&obs));
    for (i, gone) in facts.iter().enumerate() {
        let mut keep = FactSet::new();
        keep.insert_all(&facts);
        keep.remove(gone);
        let left = obs.restrict(&keep);
        let cuts_edge = matches!(gone, Fact::Effect { .. });
        let expected: Vec<String> = facts
            .iter()
            .enumerate()
            .filter(|(j, f)| *j != i && !(cuts_edge && matches!(f, Fact::Edge { .. })))
            .map(|(_, f)| f.render())
            .collect();
        assert_eq!(rendered(&left), expected);
        assert!(left.validate().is_ok());
        assert_eq!(left.run_id, obs.run_id);
        assert!(left.records.iter().all(|r| r.step.is_some() || !r.effects.is_empty()));
        assert_eq!(format!("{:?}", left.restrict(&keep)), format!("{:?}", left));
        let mut both = FactSet::new();
        both.insert_all(&facts);
        both.remove(gone);
        both.remove(&facts[0]);
        let mut rest = FactSet::new();
        rest.insert_all(&facts);
        rest.remove(&facts[0]);
        assert_eq!(
            format!("{:?}", left.restrict(&rest)),
            format!("{:?}", obs.restrict(&both))
        );
    }
}

#[test]
fn maps_keep_keys_in_order_and_tables_as_inserted() {
    let mut m: StrMap<String> = args(&[("b", "1"), ("a", "2")]);
    m.insert("b".to_string(), "3".to_string());
    assert_eq!(m.len(), 2);
    assert_eq!((m.key_at(0).as_str(), m.value_at(1).as_str()), ("a", "3"));
    assert_eq!(m.get("c"), None);
    let mut t = table(&[("b", "1"), ("a", "2")]);
    t.insert("b".to_string(), "3".to_string());
    assert_eq!(t.len(), 2);
    assert_eq!((t.key_at(0).as_str(), t.value_at(0).as_str()), ("b", "3"));
    assert_eq!(t.get("a").map(String::as_str), Some("2"));
    assert!(!t.contains_key("c"));
    let mut s = StrSet::new();
    assert!(s.insert("b".to_string()));
    assert!(s.insert("a".to_string()));
    assert!(!s.insert("b".to_string()));
    assert_eq!(s.to_vec(), vec!["a", "b"]);
}

#[test]
fn text_is_cut_as_the_standard_library_cuts_it() {
    assert_eq!(trim_text(" \t\u{3000}a b\u{a0}\n"), " \t\u{3000}a b\u{a0}\n".trim());
    assert_eq!(trim_text("\u{200b}x"), "\u{200b}x");
    assert_eq!(split_text("a&&b&&", "&&"), vec!["a", "b", ""]);
    assert_eq!(cut_text("a==b==c", "=="), Some(("a".to_string(), "b==c".to_string())));
    assert_eq!(cut_text("abc", "=="), None);
    assert_eq!(strip_prefix_text("$x", "$"), Some("x".to_string()));
    assert!(text_before("a", "b") && text_before("a", "aa") && !text_before("a", "a"));
    assert!(text_before("\u{ffff}", "\u{10000}"));
}

#[test]
fn certificate_errors_are_told_apart() {
    let of = |e: CertificateError| e.render();
    assert_eq!(of(CertificateError::BadKey("x".to_string())), "signing key is unusable: x");
    assert_eq!(
        of(CertificateError::BadSignature("x".to_string())),
        "signature does not verify: x"
    );
    assert_eq!(
        of(CertificateError::Encoding("x".to_string())),
        "certificate encoding failed: x"
    );
    assert_eq!(of(CertificateError::Untrusted("k".to_string())), "issuer `k` is not trusted");
}
