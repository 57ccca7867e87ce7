//! From raw logs to an observation: the runner's jobs, the registry's events and the cloud
//! audit trail, each mapped to declared steps and effects by rules.

use crate::observation::{
    all_effects, effects_upto, EffectInstance, EffectInstanceView, Observation, ObservationView,
    ObservedEdge, ObservedEdgeView, Plane, PlaneView, Record, RecordView,
};
use crate::ordered::{empty_vec, increasing, lemma_put_skips, lookup, push_to, put, Dup, StrMap};
use crate::text::{
    before, cat2, cat3, cut, cut_text, decimal, decimal_text, lemma_before_asymmetric,
    lemma_before_irreflexive, lemma_before_total, lemma_before_transitive, lemma_found_from,
    same_text, tail_piece, tail_text, text_before, Str,
};
use vstd::prelude::*;

verus! {

/// An effect and the templates of its arguments.
#[derive(Debug)]
pub struct EffectRule {
    pub kind: String,
    pub args: StrMap<String>,
}

/// What a [`EffectRule`] holds.
pub struct EffectRuleView {
    pub kind: Str,
    pub args: Seq<(Str, Str)>,
}

impl DeepView for EffectRule {
    type V = EffectRuleView;

    open spec fn deep_view(&self) -> EffectRuleView {
        EffectRuleView {
            kind: self.kind.deep_view(),
            args: self.args.deep_view(),
        }
    }
}

impl Dup for EffectRule {
    fn dup(&self) -> (r: Self) {
        EffectRule {
            kind: self.kind.dup(),
            args: self.args.dup(),
        }
    }
}

/// A declared step and the effects that it shows.
#[derive(Debug)]
pub struct StepRule {
    pub step: String,
    pub effects: Vec<EffectRule>,
}

/// What a [`StepRule`] holds.
pub struct StepRuleView {
    pub step: Str,
    pub effects: Seq<EffectRuleView>,
}

impl DeepView for StepRule {
    type V = StepRuleView;

    open spec fn deep_view(&self) -> StepRuleView {
        StepRuleView {
            step: self.step.deep_view(),
            effects: self.effects.deep_view(),
        }
    }
}

impl Dup for StepRule {
    fn dup(&self) -> (r: Self) {
        StepRule {
            step: self.step.dup(),
            effects: self.effects.dup(),
        }
    }
}

/// How jobs, registry actions and audit actions map to the declared workflow.
#[derive(Debug)]
pub struct AdapterMap {
    pub planes: StrMap<Plane>,
    pub runner_principal: String,
    pub jobs: StrMap<StepRule>,
    pub registry_actions: StrMap<EffectRule>,
    pub audit_actions: StrMap<StepRule>,
}

/// What a [`AdapterMap`] holds.
pub struct AdapterMapView {
    pub planes: Seq<(Str, PlaneView)>,
    pub runner_principal: Str,
    pub jobs: Seq<(Str, StepRuleView)>,
    pub registry_actions: Seq<(Str, EffectRuleView)>,
    pub audit_actions: Seq<(Str, StepRuleView)>,
}

impl DeepView for AdapterMap {
    type V = AdapterMapView;

    open spec fn deep_view(&self) -> AdapterMapView {
        AdapterMapView {
            planes: self.planes.deep_view(),
            runner_principal: self.runner_principal.deep_view(),
            jobs: self.jobs.deep_view(),
            registry_actions: self.registry_actions.deep_view(),
            audit_actions: self.audit_actions.deep_view(),
        }
    }
}

impl Dup for AdapterMap {
    fn dup(&self) -> (r: Self) {
        AdapterMap {
            planes: self.planes.dup(),
            runner_principal: self.runner_principal.dup(),
            jobs: self.jobs.dup(),
            registry_actions: self.registry_actions.dup(),
            audit_actions: self.audit_actions.dup(),
        }
    }
}

/// A job that the runner reports.
#[derive(Debug)]
pub struct Job {
    pub id: String,
    pub name: String,
    pub actor: String,
    pub ts: String,
    pub outputs: StrMap<String>,
    pub conclusion: String,
}

/// What a [`Job`] holds.
pub struct JobView {
    pub id: Str,
    pub name: Str,
    pub actor: Str,
    pub ts: Str,
    pub outputs: Seq<(Str, Str)>,
    pub conclusion: Str,
}

impl DeepView for Job {
    type V = JobView;

    open spec fn deep_view(&self) -> JobView {
        JobView {
            id: self.id.deep_view(),
            name: self.name.deep_view(),
            actor: self.actor.deep_view(),
            ts: self.ts.deep_view(),
            outputs: self.outputs.deep_view(),
            conclusion: self.conclusion.deep_view(),
        }
    }
}

impl Dup for Job {
    fn dup(&self) -> (r: Self) {
        Job {
            id: self.id.dup(),
            name: self.name.dup(),
            actor: self.actor.dup(),
            ts: self.ts.dup(),
            outputs: self.outputs.dup(),
            conclusion: self.conclusion.dup(),
        }
    }
}

/// What the runner reports.
#[derive(Debug)]
pub struct RunnerPlane {
    pub jobs: Vec<Job>,
}

/// What a [`RunnerPlane`] holds.
pub struct RunnerPlaneView {
    pub jobs: Seq<JobView>,
}

impl DeepView for RunnerPlane {
    type V = RunnerPlaneView;

    open spec fn deep_view(&self) -> RunnerPlaneView {
        RunnerPlaneView {
            jobs: self.jobs.deep_view(),
        }
    }
}

impl Dup for RunnerPlane {
    fn dup(&self) -> (r: Self) {
        RunnerPlane {
            jobs: self.jobs.dup(),
        }
    }
}

/// Which build an artifact claims to come from.
#[derive(Debug)]
pub struct Provenance {
    pub build_digest: String,
    pub issuer: String,
}

/// What a [`Provenance`] holds.
pub struct ProvenanceView {
    pub build_digest: Str,
    pub issuer: Str,
}

impl DeepView for Provenance {
    type V = ProvenanceView;

    open spec fn deep_view(&self) -> ProvenanceView {
        ProvenanceView {
            build_digest: self.build_digest.deep_view(),
            issuer: self.issuer.deep_view(),
        }
    }
}

impl Dup for Provenance {
    fn dup(&self) -> (r: Self) {
        Provenance {
            build_digest: self.build_digest.dup(),
            issuer: self.issuer.dup(),
        }
    }
}

/// An event that the registry reports.
#[derive(Debug)]
pub struct RegistryEvent {
    pub id: String,
    pub ts: String,
    pub actor: String,
    pub action: String,
    pub provenance: Option<Provenance>,
    pub fields: StrMap<String>,
}

/// What a [`RegistryEvent`] holds.
pub struct RegistryEventView {
    pub id: Str,
    pub ts: Str,
    pub actor: Str,
    pub action: Str,
    pub provenance: Option<ProvenanceView>,
    pub fields: Seq<(Str, Str)>,
}

impl DeepView for RegistryEvent {
    type V = RegistryEventView;

    open spec fn deep_view(&self) -> RegistryEventView {
        RegistryEventView {
            id: self.id.deep_view(),
            ts: self.ts.deep_view(),
            actor: self.actor.deep_view(),
            action: self.action.deep_view(),
            provenance: self.provenance.deep_view(),
            fields: self.fields.deep_view(),
        }
    }
}

impl Dup for RegistryEvent {
    fn dup(&self) -> (r: Self) {
        RegistryEvent {
            id: self.id.dup(),
            ts: self.ts.dup(),
            actor: self.actor.dup(),
            action: self.action.dup(),
            provenance: self.provenance.dup(),
            fields: self.fields.dup(),
        }
    }
}

/// What the registry reports.
#[derive(Debug)]
pub struct RegistryPlane {
    pub events: Vec<RegistryEvent>,
}

/// What a [`RegistryPlane`] holds.
pub struct RegistryPlaneView {
    pub events: Seq<RegistryEventView>,
}

impl DeepView for RegistryPlane {
    type V = RegistryPlaneView;

    open spec fn deep_view(&self) -> RegistryPlaneView {
        RegistryPlaneView {
            events: self.events.deep_view(),
        }
    }
}

impl Dup for RegistryPlane {
    fn dup(&self) -> (r: Self) {
        RegistryPlane {
            events: self.events.dup(),
        }
    }
}

/// An entry of the cloud audit trail.
#[derive(Debug)]
pub struct AuditEntry {
    pub id: String,
    pub ts: String,
    pub principal: String,
    pub action: String,
    pub attributes: StrMap<String>,
}

/// What a [`AuditEntry`] holds.
pub struct AuditEntryView {
    pub id: Str,
    pub ts: Str,
    pub principal: Str,
    pub action: Str,
    pub attributes: Seq<(Str, Str)>,
}

impl DeepView for AuditEntry {
    type V = AuditEntryView;

    open spec fn deep_view(&self) -> AuditEntryView {
        AuditEntryView {
            id: self.id.deep_view(),
            ts: self.ts.deep_view(),
            principal: self.principal.deep_view(),
            action: self.action.deep_view(),
            attributes: self.attributes.deep_view(),
        }
    }
}

impl Dup for AuditEntry {
    fn dup(&self) -> (r: Self) {
        AuditEntry {
            id: self.id.dup(),
            ts: self.ts.dup(),
            principal: self.principal.dup(),
            action: self.action.dup(),
            attributes: self.attributes.dup(),
        }
    }
}

/// What the cloud audit trail holds.
#[derive(Debug)]
pub struct AuditPlane {
    pub entries: Vec<AuditEntry>,
}

/// What a [`AuditPlane`] holds.
pub struct AuditPlaneView {
    pub entries: Seq<AuditEntryView>,
}

impl DeepView for AuditPlane {
    type V = AuditPlaneView;

    open spec fn deep_view(&self) -> AuditPlaneView {
        AuditPlaneView {
            entries: self.entries.deep_view(),
        }
    }
}

impl Dup for AuditPlane {
    fn dup(&self) -> (r: Self) {
        AuditPlane {
            entries: self.entries.dup(),
        }
    }
}

/// The raw logs of one run.
#[derive(Debug)]
pub struct Bundle {
    pub run_id: String,
    pub repository: String,
    pub runner: RunnerPlane,
    pub registry: RegistryPlane,
    pub cloud_audit: AuditPlane,
}

/// What a [`Bundle`] holds.
pub struct BundleView {
    pub run_id: Str,
    pub repository: Str,
    pub runner: RunnerPlaneView,
    pub registry: RegistryPlaneView,
    pub cloud_audit: AuditPlaneView,
}

impl DeepView for Bundle {
    type V = BundleView;

    open spec fn deep_view(&self) -> BundleView {
        BundleView {
            run_id: self.run_id.deep_view(),
            repository: self.repository.deep_view(),
            runner: self.runner.deep_view(),
            registry: self.registry.deep_view(),
            cloud_audit: self.cloud_audit.deep_view(),
        }
    }
}

impl Dup for Bundle {
    fn dup(&self) -> (r: Self) {
        Bundle {
            run_id: self.run_id.dup(),
            repository: self.repository.dup(),
            runner: self.runner.dup(),
            registry: self.registry.dup(),
            cloud_audit: self.cloud_audit.dup(),
        }
    }
}

/// Why raw logs could not be taken in.
#[derive(Debug)]
pub enum AdapterError {
    Io(String),
    Parse(String),
}

/// What a [`AdapterError`] holds.
pub enum AdapterErrorView {
    Io(Str),
    Parse(Str),
}

impl DeepView for AdapterError {
    type V = AdapterErrorView;

    open spec fn deep_view(&self) -> AdapterErrorView {
        match self {
            AdapterError::Io(a0) => AdapterErrorView::Io(a0.deep_view()),
            AdapterError::Parse(a0) => AdapterErrorView::Parse(a0.deep_view()),
        }
    }
}

impl Dup for AdapterError {
    fn dup(&self) -> (r: Self) {
        match self {
            AdapterError::Io(a0) => AdapterError::Io(a0.dup()),
            AdapterError::Parse(a0) => AdapterError::Parse(a0.dup()),
        }
    }
}

impl Default for AdapterMap {
    fn default() -> (r: Self)
        ensures
            r.deep_view() == (AdapterMapView {
                planes: Seq::empty(),
                runner_principal: Seq::empty(),
                jobs: Seq::empty(),
                registry_actions: Seq::empty(),
                audit_actions: Seq::empty(),
            }),
    {
        AdapterMap {
            planes: StrMap::new(),
            runner_principal: String::new(),
            jobs: StrMap::new(),
            registry_actions: StrMap::new(),
            audit_actions: StrMap::new(),
        }
    }
}

/// The principal of runner records where a map names none.
pub fn default_runner_principal() -> (r: String)
    ensures
        r@ == "${actor}"@,
{
    "${actor}".to_string()
}

/// The conclusion of a job that reports none.
pub fn default_conclusion() -> (r: String)
    ensures
        r@ == "success"@,
{
    "success".to_string()
}

/// The message of an error.
pub open spec fn adapter_error_text(e: AdapterErrorView) -> Str {
    match e {
        AdapterErrorView::Io(m) => "cannot read input: "@ + m,
        AdapterErrorView::Parse(m) => "cannot parse input: "@ + m,
    }
}

impl AdapterError {
    /// The message.
    pub fn render(&self) -> (r: String)
        ensures
            r@ == adapter_error_text(self.deep_view()),
    {
        match self {
            AdapterError::Io(m) => cat2("cannot read input: ", m.as_str()),
            AdapterError::Parse(m) => cat2("cannot parse input: ", m.as_str()),
        }
    }
}

// ---------------------------------------------------------------------------
// Templates
// ---------------------------------------------------------------------------
/// What stands for a name: its value, or a mark that nothing resolves it.
pub open spec fn value_for(context: Seq<(Str, Str)>, key: Str) -> Str {
    match lookup(context, key) {
        Some(v) => v,
        None => "<unresolved:"@ + key + ">"@,
    }
}

/// The template with each `${name}` replaced. What an unclosed `${` begins stays as it is.
pub open spec fn substituted(template: Str, context: Seq<(Str, Str)>) -> Str
    decreases template.len(),
{
    match cut(template, "${"@) {
        Some((head, tail)) => match cut(tail, "}"@) {
            Some((key, rest)) => if rest.len() < template.len() {
                head + value_for(context, key) + substituted(rest, context)
            } else {
                template
            },
            None => template,
        },
        None => template,
    }
}

proof fn lemma_cut_shorter(s: Str, p: Str)
    ensures
        cut(s, p) matches Some(c) ==> c.0.len() + p.len() + c.1.len() == s.len(),
{
    lemma_found_from(s, p, 0);
}

/// Fills in a template.
pub fn substitute(template: &str, context: &StrMap<String>) -> (r: String)
    ensures
        r@ == substituted(template@, context.deep_view()),
{
    let ghost cv = context.deep_view();
    let mut out = String::new();
    let mut rest = template.to_string();
    proof {
        reveal_strlit("${");
        reveal_strlit("}");
        assert(out@ + substituted(rest@, cv) =~= substituted(template@, cv));
    }
    loop
        invariant
            "${"@.len() == 2,
            "}"@.len() == 1,
            cv == context.deep_view(),
            out@ + substituted(rest@, cv) =~= substituted(template@, cv),
        decreases rest@.len(),
    {
        match cut_text(rest.as_str(), "${") {
            Some((head, tail)) => {
                match cut_text(tail.as_str(), "}") {
                    Some((key, more)) => {
                        proof {
                            lemma_cut_shorter(rest@, "${"@);
                            lemma_cut_shorter(tail@, "}"@);
                        }
                        let value = match context.get(key.as_str()) {
                            Some(v) => v.dup(),
                            None => cat3("<unresolved:", key.as_str(), ">"),
                        };
                        assert(value@ == value_for(cv, key@));
                        let ghost so_far = out@;
                        out = cat3(out.as_str(), head.as_str(), value.as_str());
                        assert(out@ + substituted(more@, cv) =~= so_far + substituted(rest@, cv));
                        rest = more;
                    },
                    None => {
                        return cat2(out.as_str(), rest.as_str());
                    },
                }
            },
            None => {
                return cat2(out.as_str(), rest.as_str());
            },
        }
    }
}

/// The arguments with their templates filled in.
pub open spec fn filled(args: Seq<(Str, Str)>, context: Seq<(Str, Str)>) -> Seq<(Str, Str)> {
    Seq::new(args.len(), |i: int| (args[i].0, substituted(args[i].1, context)))
}

/// The effect that a rule shows.
pub open spec fn shown(
    rule: EffectRuleView,
    context: Seq<(Str, Str)>,
    record_id: Str,
    i: int,
) -> EffectInstanceView {
    EffectInstanceView {
        id: record_id + "."@ + decimal(i as nat),
        kind: rule.kind,
        args: filled(rule.args, context),
    }
}

/// The effects that rules show, numbered within the record.
pub open spec fn all_shown(
    rules: Seq<EffectRuleView>,
    context: Seq<(Str, Str)>,
    record_id: Str,
) -> Seq<EffectInstanceView> {
    Seq::new(rules.len(), |i: int| shown(rules[i], context, record_id, i))
}

proof fn lemma_put_last<W>(m: Seq<(Str, W)>, k: Str, v: W)
    requires
        forall|j: int| 0 <= j < m.len() ==> before(#[trigger] m[j].0, k),
    ensures
        put(m, k, v) == m.push((k, v)),
{
    lemma_put_skips(m, k, v, m.len() as int);
    assert(m.take(m.len() as int) =~= m);
    assert(m.skip(m.len() as int) =~= Seq::<(Str, W)>::empty());
    assert(m + seq![(k, v)] =~= m.push((k, v)));
}

fn fill(args: &StrMap<String>, context: &StrMap<String>) -> (r: StrMap<String>)
    ensures
        r.deep_view() == filled(args.deep_view(), context.deep_view()),
{
    let ghost av = args.deep_view();
    let ghost cv = context.deep_view();
    let mut out: StrMap<String> = StrMap::new();
    args.ordered();
    let mut i: usize = 0;
    while i < args.len()
        invariant
            i <= av.len(),
            av == args.deep_view(),
            cv == context.deep_view(),
            increasing(av),
            out.deep_view() == filled(av, cv).take(i as int),
        decreases av.len() - i,
    {
        proof {
            let m = filled(av, cv).take(i as int);
            assert forall|j: int| 0 <= j < m.len() implies before(
                #[trigger] m[j].0,
                av[i as int].0,
            ) by {
                assert(m[j].0 == av[j].0);
            }
            lemma_put_last(m, av[i as int].0, substituted(av[i as int].1, cv));
        }
        let value = substitute(args.value_at(i).as_str(), context);
        out.insert(args.key_at(i).dup(), value);
        assert(out.deep_view() =~= filled(av, cv).take(i + 1));
        i = i + 1;
    }
    assert(filled(av, cv).take(i as int) =~= filled(av, cv));
    out
}

fn show(rule: &EffectRule, context: &StrMap<String>, record_id: &str, i: usize) -> (r:
    EffectInstance)
    ensures
        r.deep_view() == shown(rule.deep_view(), context.deep_view(), record_id@, i as int),
{
    let number = decimal_text(i as u64);
    EffectInstance {
        id: cat3(record_id, ".", number.as_str()),
        kind: rule.kind.dup(),
        args: fill(&rule.args, context),
    }
}

/// The effects that rules show.
pub fn render_effects(
    rules: &Vec<EffectRule>,
    context: &StrMap<String>,
    record_id: &str,
) -> (r: Vec<EffectInstance>)
    ensures
        r.deep_view() == all_shown(rules.deep_view(), context.deep_view(), record_id@),
{
    let ghost rv = rules.deep_view();
    let ghost cv = context.deep_view();
    let mut out: Vec<EffectInstance> = empty_vec();
    let mut i: usize = 0;
    while i < rules.len()
        invariant
            i <= rules.len(),
            rv == rules.deep_view(),
            cv == context.deep_view(),
            out.deep_view() == all_shown(rv, cv, record_id@).take(i as int),
        decreases rules.len() - i,
    {
        assert(rv[i as int] == rules[i as int].deep_view());
        push_to(&mut out, show(&rules[i], context, record_id, i));
        assert(out.deep_view() =~= all_shown(rv, cv, record_id@).take(i + 1));
        i = i + 1;
    }
    assert(all_shown(rv, cv, record_id@).take(i as int) =~= all_shown(rv, cv, record_id@));
    out
}

// ---------------------------------------------------------------------------
// The order of records
// ---------------------------------------------------------------------------
/// Whether one record comes before another: by time, then by id.
pub open spec fn record_before(a: RecordView, b: RecordView) -> bool {
    before(a.ts, b.ts) || (a.ts == b.ts && before(a.id, b.id))
}

/// The record put where it belongs, behind those that it is not before.
pub open spec fn insert_record(s: Seq<RecordView>, x: RecordView) -> Seq<RecordView>
    decreases s.len(),
{
    if s.len() == 0 || !record_before(x, s.last()) {
        s.push(x)
    } else {
        insert_record(s.drop_last(), x).push(s.last())
    }
}

/// The first `n` records in order. Records that neither is before the other keep their order.
pub open spec fn in_order(s: Seq<RecordView>, n: int) -> Seq<RecordView>
    decreases n,
{
    if n <= 0 {
        Seq::empty()
    } else {
        insert_record(in_order(s, n - 1), s[n - 1])
    }
}

/// Whether no record stands behind one that it is before.
pub open spec fn is_in_order(s: Seq<RecordView>) -> bool {
    forall|i: int, j: int| 0 <= i < j < s.len() ==> !record_before(#[trigger] s[j], #[trigger] s[i])
}

proof fn lemma_record_transitive(a: RecordView, b: RecordView, c: RecordView)
    requires
        record_before(a, b),
        !record_before(c, b),
    ensures
        record_before(a, c),
{
    lemma_before_total(b.ts, c.ts);
    lemma_before_total(b.id, c.id);
    if before(a.ts, b.ts) {
        if before(b.ts, c.ts) {
            lemma_before_transitive(a.ts, b.ts, c.ts);
        }
    } else {
        if b.ts == c.ts && before(b.id, c.id) {
            lemma_before_transitive(a.id, b.id, c.id);
        }
    }
}

proof fn lemma_insert_record(s: Seq<RecordView>, x: RecordView)
    requires
        is_in_order(s),
    ensures
        is_in_order(insert_record(s, x)),
        insert_record(s, x).len() == s.len() + 1,
        insert_record(s, x).to_multiset() == s.to_multiset().insert(x),
        forall|r: RecordView| #[trigger]
            insert_record(s, x).contains(r) <==> s.contains(r) || r == x,
    decreases s.len(),
{
    broadcast use vstd::seq_lib::group_to_multiset_ensures;

    let t = insert_record(s, x);
    if s.len() == 0 || !record_before(x, s.last()) {
        assert forall|i: int, j: int| 0 <= i < j < t.len() implies !record_before(
            #[trigger] t[j],
            #[trigger] t[i],
        ) by {
            if j == s.len() {
                if record_before(x, s[i]) {
                    if i < s.len() - 1 {
                        assert(!record_before(s.last(), s[i]));
                    }
                    if i == s.len() - 1 {
                    } else {
                        lemma_record_transitive(x, s[i], s.last());
                    }
                }
            }
        }
        assert forall|r: RecordView| #[trigger] t.contains(r) <==> s.contains(r) || r == x by {
            if s.contains(r) {
                assert(t[s.index_of(r)] == r);
            }
            assert(t[s.len() as int] == x);
            if t.contains(r) {
                let i = t.index_of(r);
                if i < s.len() {
                    assert(s[i] == r);
                }
            }
        }
    } else {
        let d = s.drop_last();
        let y = s.last();
        lemma_insert_record(d, x);
        let u = insert_record(d, x);
        assert(t =~= u.push(y));
        assert(d.push(y) =~= s);
        assert forall|i: int, j: int| 0 <= i < j < t.len() implies !record_before(
            #[trigger] t[j],
            #[trigger] t[i],
        ) by {
            if j == u.len() {
                assert(u.contains(u[i]));
                if u[i] == x {
                    if record_before(y, x) {
                        lemma_record_asymmetric(x, y);
                    }
                } else {
                    let k = d.index_of(u[i]);
                    assert(s[k] == u[i]);
                }
            } else {
                assert(t[j] == u[j] && t[i] == u[i]);
            }
        }
        assert forall|r: RecordView| #[trigger] t.contains(r) <==> s.contains(r) || r == x by {
            if t.contains(r) {
                let i = t.index_of(r);
                if i < u.len() {
                    assert(u[i] == r);
                    assert(u.contains(r));
                    if d.contains(r) {
                        assert(s[d.index_of(r)] == r);
                    }
                } else {
                    assert(s[s.len() - 1] == r);
                }
            }
            if s.contains(r) {
                let i = s.index_of(r);
                if i < d.len() {
                    assert(d[i] == r);
                    assert(u.contains(r));
                    assert(t[u.index_of(r)] == r);
                } else {
                    assert(t[u.len() as int] == r);
                }
            }
            if r == x {
                assert(u.contains(x));
                assert(t[u.index_of(x)] == x);
            }
        }
        assert(s.to_multiset() =~= d.to_multiset().insert(y));
        assert(t.to_multiset() =~= u.to_multiset().insert(y));
        assert(t.to_multiset() =~= s.to_multiset().insert(x));
    }
}

proof fn lemma_record_asymmetric(a: RecordView, b: RecordView)
    requires
        record_before(a, b),
    ensures
        !record_before(b, a),
{
    if before(a.ts, b.ts) {
        lemma_before_asymmetric(a.ts, b.ts);
    } else {
        lemma_before_irreflexive(a.ts);
        lemma_before_asymmetric(a.id, b.id);
    }
}

/// Putting records in order neither loses, adds nor changes one, and leaves none behind one
/// that it is before.
pub proof fn ordering_keeps_every_record(s: Seq<RecordView>, n: int)
    requires
        0 <= n <= s.len(),
    ensures
        is_in_order(in_order(s, n)),
        in_order(s, n).to_multiset() == s.take(n).to_multiset(),
        forall|r: RecordView| #[trigger] in_order(s, n).contains(r) <==> s.take(n).contains(r),
    decreases n,
{
    broadcast use vstd::seq_lib::group_to_multiset_ensures;

    if n == 0 {
        assert(s.take(0) =~= Seq::<RecordView>::empty());
        assert(in_order(s, n) =~= s.take(0));
    } else {
        ordering_keeps_every_record(s, n - 1);
        lemma_insert_record(in_order(s, n - 1), s[n - 1]);
        assert(s.take(n) =~= s.take(n - 1).push(s[n - 1]));
        assert forall|r: RecordView| #[trigger] in_order(s, n).contains(r) <==> s.take(
            n,
        ).contains(r) by {
            let a = s.take(n - 1);
            let b = s.take(n);
            if a.contains(r) {
                assert(b[a.index_of(r)] == r);
            }
            assert(b[n - 1] == s[n - 1]);
            if b.contains(r) {
                let i = b.index_of(r);
                if i < n - 1 {
                    assert(a[i] == r);
                }
            }
        }
    }
}

fn goes_before(a: &Record, b: &Record) -> (r: bool)
    ensures
        r == record_before(a.deep_view(), b.deep_view()),
{
    text_before(a.ts.as_str(), b.ts.as_str()) || (same_text(a.ts.as_str(), b.ts.as_str())
        && text_before(a.id.as_str(), b.id.as_str()))
}

proof fn lemma_insert_at(s: Seq<RecordView>, x: RecordView, i: int)
    requires
        0 <= i <= s.len(),
        i == 0 || !record_before(x, s[i - 1]),
        forall|j: int| i <= j < s.len() ==> record_before(x, #[trigger] s[j]),
    ensures
        insert_record(s, x) == s.insert(i, x),
    decreases s.len(),
{
    if i == s.len() {
        assert(s.insert(i, x) =~= s.push(x));
    } else {
        let d = s.drop_last();
        assert(record_before(x, s[s.len() - 1]));
        lemma_insert_at(d, x, i);
        assert(d.insert(i, x).push(s.last()) =~= s.insert(i, x));
    }
}

/// Puts the records in order.
pub(crate) fn sort_records(mut records: Vec<Record>) -> (r: Vec<Record>)
    ensures
        r.deep_view() == in_order(records.deep_view(), records.deep_view().len() as int),
{
    let ghost all = records.deep_view();
    let mut out: Vec<Record> = empty_vec();
    let mut rest: Vec<Record> = empty_vec();
    while records.len() > 0
        invariant
            rest.deep_view() + records.deep_view().reverse() =~= all.reverse(),
        decreases records.len(),
    {
        let ghost was = records.deep_view();
        let x = records.pop().unwrap();
        assert(was.last() == x.deep_view());
        assert(records.deep_view() =~= was.drop_last());
        assert(was.reverse() =~= seq![was.last()] + was.drop_last().reverse());
        push_to(&mut rest, x);
    }
    assert(records.deep_view().reverse() =~= Seq::<RecordView>::empty());
    assert(rest.deep_view() =~= all.reverse());
    let ghost mut n: int = 0;
    while rest.len() > 0
        invariant
            0 <= n <= all.len(),
            n + rest.len() == all.len(),
            rest.deep_view() =~= all.skip(n).reverse(),
            out.deep_view() == in_order(all, n),
        decreases rest.len(),
    {
        let ghost was = rest.deep_view();
        let x = rest.pop().unwrap();
        proof {
            assert(was.last() == x.deep_view());
            assert(was.len() == all.len() - n);
            assert(was.last() == all.skip(n)[0]);
            assert(x.deep_view() == all[n]);
            assert(rest.deep_view() =~= was.drop_last());
            assert(was.drop_last() =~= all.skip(n + 1).reverse());
        }
        let ghost ov = out.deep_view();
        let mut i: usize = out.len();
        while i > 0 && goes_before(&x, &out[i - 1])
            invariant
                i <= out.len(),
                ov == out.deep_view(),
                forall|j: int| i <= j < ov.len() ==> record_before(x.deep_view(), #[trigger] ov[j]),
            decreases i,
        {
            assert(ov[i - 1] == out[i - 1].deep_view());
            i = i - 1;
        }
        proof {
            if i > 0 {
                assert(ov[i - 1] == out[i - 1].deep_view());
            }
            lemma_insert_at(ov, x.deep_view(), i as int);
        }
        let ghost xv = x.deep_view();
        out.insert(i, x);
        assert(out.deep_view() =~= ov.insert(i as int, xv));
        proof {
            n = n + 1;
        }
    }
    out
}

// ---------------------------------------------------------------------------
// Contexts
// ---------------------------------------------------------------------------
/// The context with the first `n` entries added under a prefix.
pub open spec fn with_prefixed(
    context: Seq<(Str, Str)>,
    prefix: Str,
    more: Seq<(Str, Str)>,
    n: int,
) -> Seq<(Str, Str)>
    decreases n,
{
    if n <= 0 {
        context
    } else {
        put(with_prefixed(context, prefix, more, n - 1), prefix + more[n - 1].0, more[n - 1].1)
    }
}

/// The context with the first `n` entries added.
pub open spec fn with_all(context: Seq<(Str, Str)>, more: Seq<(Str, Str)>, n: int) -> Seq<
    (Str, Str),
>
    decreases n,
{
    if n <= 0 {
        context
    } else {
        put(with_all(context, more, n - 1), more[n - 1].0, more[n - 1].1)
    }
}

fn put_prefixed(context: &mut StrMap<String>, prefix: &str, more: &StrMap<String>)
    ensures
        final(context).deep_view() == with_prefixed(
            old(context).deep_view(),
            prefix@,
            more.deep_view(),
            more.deep_view().len() as int,
        ),
{
    let ghost start = context.deep_view();
    let ghost mv = more.deep_view();
    let mut i: usize = 0;
    while i < more.len()
        invariant
            i <= mv.len(),
            mv == more.deep_view(),
            start == old(context).deep_view(),
            context.deep_view() == with_prefixed(start, prefix@, mv, i as int),
        decreases mv.len() - i,
    {
        context.insert(cat2(prefix, more.key_at(i).as_str()), more.value_at(i).dup());
        i = i + 1;
    }
}

fn put_all(context: &mut StrMap<String>, more: &StrMap<String>)
    ensures
        final(context).deep_view() == with_all(
            old(context).deep_view(),
            more.deep_view(),
            more.deep_view().len() as int,
        ),
{
    let ghost start = context.deep_view();
    let ghost mv = more.deep_view();
    let mut i: usize = 0;
    while i < more.len()
        invariant
            i <= mv.len(),
            mv == more.deep_view(),
            start == old(context).deep_view(),
            context.deep_view() == with_all(start, mv, i as int),
        decreases mv.len() - i,
    {
        context.insert(more.key_at(i).dup(), more.value_at(i).dup());
        i = i + 1;
    }
}

/// What the templates of a job can name.
pub open spec fn job_context(repository: Str, job: JobView) -> Seq<(Str, Str)> {
    let c = put(Seq::empty(), "repository"@, repository);
    let c = put(c, "repository_name"@, tail_piece(repository, '/'));
    let c = put(c, "actor"@, job.actor);
    let c = put(c, "job"@, job.name);
    let c = put(c, "ts"@, job.ts);
    with_prefixed(c, "outputs."@, job.outputs, job.outputs.len() as int)
}

/// What the templates of an audit entry can name.
pub open spec fn entry_context(entry: AuditEntryView) -> Seq<(Str, Str)> {
    let c = put(Seq::empty(), "principal"@, entry.principal);
    let c = put(c, "action"@, entry.action);
    let c = put(c, "ts"@, entry.ts);
    with_prefixed(c, "attributes."@, entry.attributes, entry.attributes.len() as int)
}

/// What the templates of a registry event can name. Its own fields come last.
pub open spec fn event_context(event: RegistryEventView) -> Seq<(Str, Str)> {
    let c = put(Seq::empty(), "actor"@, event.actor);
    let c = put(c, "action"@, event.action);
    let c = put(c, "ts"@, event.ts);
    with_all(c, event.fields, event.fields.len() as int)
}

// ---------------------------------------------------------------------------
// Records
// ---------------------------------------------------------------------------
/// The record of a job.
pub open spec fn job_record(
    repository: Str,
    map: AdapterMapView,
    job: JobView,
    rule: StepRuleView,
) -> RecordView {
    let c = job_context(repository, job);
    RecordView {
        id: job.id,
        plane: "runner"@,
        principal: substituted(map.runner_principal, c),
        step: Some(rule.step),
        ts: job.ts,
        effects: all_shown(rule.effects, c, job.id),
    }
}

/// The records of the first `n` jobs: those that succeeded and that a rule names.
pub open spec fn job_records(bundle: BundleView, map: AdapterMapView, n: int) -> Seq<RecordView>
    decreases n,
{
    if n <= 0 {
        Seq::empty()
    } else {
        let job = bundle.runner.jobs[n - 1];
        let rest = job_records(bundle, map, n - 1);
        match lookup(map.jobs, job.name) {
            Some(rule) => if job.conclusion == "success"@ {
                rest.push(job_record(bundle.repository, map, job, rule))
            } else {
                rest
            },
            None => rest,
        }
    }
}

/// The record of an audit entry.
pub open spec fn entry_record(entry: AuditEntryView, rule: StepRuleView) -> RecordView {
    RecordView {
        id: entry.id,
        plane: "audit"@,
        principal: entry.principal,
        step: Some(rule.step),
        ts: entry.ts,
        effects: all_shown(rule.effects, entry_context(entry), entry.id),
    }
}

/// The records of the first `n` audit entries: those whose action a rule names.
pub open spec fn entry_records(bundle: BundleView, map: AdapterMapView, n: int) -> Seq<RecordView>
    decreases n,
{
    if n <= 0 {
        Seq::empty()
    } else {
        let entry = bundle.cloud_audit.entries[n - 1];
        let rest = entry_records(bundle, map, n - 1);
        match lookup(map.audit_actions, entry.action) {
            Some(rule) => rest.push(entry_record(entry, rule)),
            None => rest,
        }
    }
}

/// The record of a registry event. It claims no step.
pub open spec fn event_record(event: RegistryEventView, rule: EffectRuleView) -> RecordView {
    RecordView {
        id: event.id,
        plane: "registry"@,
        principal: event.actor,
        step: None,
        ts: event.ts,
        effects: all_shown(seq![rule], event_context(event), event.id),
    }
}

/// Whether an effect creates the artifact with this digest.
pub open spec fn creates(e: EffectInstanceView, digest: Str) -> bool {
    e.kind == "artifact_create"@ && lookup(e.args, "digest"@) == Some(digest)
}

/// The first effect at or after position `i` that creates the artifact with this digest.
pub open spec fn creator_from(
    es: Seq<EffectInstanceView>,
    digest: Str,
    i: int,
) -> Option<EffectInstanceView>
    decreases es.len() - i,
{
    if i < 0 || i >= es.len() {
        None
    } else if creates(es[i], digest) {
        Some(es[i])
    } else {
        creator_from(es, digest, i + 1)
    }
}

/// The edge that a claim of provenance gives, if some record shows the build that it names.
pub open spec fn provenance_edge(rs: Seq<RecordView>, from: Str, digest: Str) -> Seq<
    ObservedEdgeView,
> {
    match creator_from(all_effects(rs), digest, 0) {
        Some(e) => seq![ObservedEdgeView { ty: "derives_from"@, from, to: e.id }],
        None => Seq::empty(),
    }
}

/// The records before those of the registry: the runner's, then the audit trail's.
pub open spec fn early_records(bundle: BundleView, map: AdapterMapView) -> Seq<RecordView> {
    job_records(bundle, map, bundle.runner.jobs.len() as int) + entry_records(
        bundle,
        map,
        bundle.cloud_audit.entries.len() as int,
    )
}

/// All records up to the first `n` registry events.
pub open spec fn records_upto(bundle: BundleView, map: AdapterMapView, n: int) -> Seq<RecordView>
    decreases n,
{
    if n <= 0 {
        early_records(bundle, map)
    } else {
        let event = bundle.registry.events[n - 1];
        let rest = records_upto(bundle, map, n - 1);
        match lookup(map.registry_actions, event.action) {
            Some(rule) => rest.push(event_record(event, rule)),
            None => rest,
        }
    }
}

/// The edges that the first `n` registry events give.
pub open spec fn edges_upto(bundle: BundleView, map: AdapterMapView, n: int) -> Seq<
    ObservedEdgeView,
>
    decreases n,
{
    if n <= 0 {
        Seq::empty()
    } else {
        let event = bundle.registry.events[n - 1];
        let rest = edges_upto(bundle, map, n - 1);
        match (lookup(map.registry_actions, event.action), event.provenance) {
            (Some(rule), Some(p)) => rest + provenance_edge(
                records_upto(bundle, map, n - 1),
                event_record(event, rule).effects[0].id,
                p.build_digest,
            ),
            _ => rest,
        }
    }
}

/// The observation that raw logs give.
pub open spec fn normalized(bundle: BundleView, map: AdapterMapView) -> ObservationView {
    let n = bundle.registry.events.len() as int;
    let rs = records_upto(bundle, map, n);
    ObservationView {
        run_id: bundle.run_id,
        planes: map.planes,
        records: in_order(rs, rs.len() as int),
        edges: edges_upto(bundle, map, n),
    }
}

fn record_job(repository: &str, map: &AdapterMap, job: &Job, rule: &StepRule) -> (r: Record)
    ensures
        r.deep_view() == job_record(
            repository@,
            map.deep_view(),
            job.deep_view(),
            rule.deep_view(),
        ),
{
    let mut context: StrMap<String> = StrMap::new();
    context.insert("repository".to_string(), repository.to_string());
    context.insert("repository_name".to_string(), tail_text(repository, '/'));
    context.insert("actor".to_string(), job.actor.dup());
    context.insert("job".to_string(), job.name.dup());
    context.insert("ts".to_string(), job.ts.dup());
    put_prefixed(&mut context, "outputs.", &job.outputs);
    Record {
        id: job.id.dup(),
        plane: "runner".to_string(),
        principal: substitute(map.runner_principal.as_str(), &context),
        step: Some(rule.step.dup()),
        ts: job.ts.dup(),
        effects: render_effects(&rule.effects, &context, job.id.as_str()),
    }
}

fn record_entry(entry: &AuditEntry, rule: &StepRule) -> (r: Record)
    ensures
        r.deep_view() == entry_record(entry.deep_view(), rule.deep_view()),
{
    let mut context: StrMap<String> = StrMap::new();
    context.insert("principal".to_string(), entry.principal.dup());
    context.insert("action".to_string(), entry.action.dup());
    context.insert("ts".to_string(), entry.ts.dup());
    put_prefixed(&mut context, "attributes.", &entry.attributes);
    Record {
        id: entry.id.dup(),
        plane: "audit".to_string(),
        principal: entry.principal.dup(),
        step: Some(rule.step.dup()),
        ts: entry.ts.dup(),
        effects: render_effects(&rule.effects, &context, entry.id.as_str()),
    }
}

fn record_event(event: &RegistryEvent, rule: &EffectRule) -> (r: Record)
    ensures
        r.deep_view() == event_record(event.deep_view(), rule.deep_view()),
{
    let mut context: StrMap<String> = StrMap::new();
    context.insert("actor".to_string(), event.actor.dup());
    context.insert("action".to_string(), event.action.dup());
    context.insert("ts".to_string(), event.ts.dup());
    put_all(&mut context, &event.fields);
    let mut effects: Vec<EffectInstance> = empty_vec();
    push_to(&mut effects, show(rule, &context, event.id.as_str(), 0));
    assert(effects.deep_view() =~= all_shown(
        seq![rule.deep_view()],
        context.deep_view(),
        event.id@,
    ));
    Record {
        id: event.id.dup(),
        plane: "registry".to_string(),
        principal: event.actor.dup(),
        step: None,
        ts: event.ts.dup(),
        effects,
    }
}

proof fn lemma_creator_skips(
    a: Seq<EffectInstanceView>,
    b: Seq<EffectInstanceView>,
    digest: Str,
    i: int,
)
    requires
        0 <= i <= a.len(),
    ensures
        creator_from(a, digest, i) matches Some(e) ==> creator_from(a + b, digest, i) == Some(e),
        creator_from(a, digest, i) is None ==> creator_from(a + b, digest, i) == creator_from(
            b,
            digest,
            0,
        ),
    decreases a.len() - i,
{
    let c = a + b;
    if i < a.len() {
        assert(c[i] == a[i]);
        if !creates(a[i], digest) {
            lemma_creator_skips(a, b, digest, i + 1);
        }
    } else {
        lemma_creator_shift(a, b, digest, 0);
    }
}

proof fn lemma_creator_shift(
    a: Seq<EffectInstanceView>,
    b: Seq<EffectInstanceView>,
    digest: Str,
    i: int,
)
    requires
        0 <= i <= b.len(),
    ensures
        creator_from(a + b, digest, a.len() + i) == creator_from(b, digest, i),
    decreases b.len() - i,
{
    if i < b.len() {
        assert((a + b)[a.len() + i] == b[i]);
        lemma_creator_shift(a, b, digest, i + 1);
    }
}

/// The id of the effect that creates the artifact with this digest.
pub(crate) fn find_creator(records: &Vec<Record>, digest: &str) -> (r: Option<String>)
    ensures
        match (creator_from(all_effects(records.deep_view()), digest@, 0), r) {
            (Some(e), Some(id)) => id@ == e.id,
            (None, None) => true,
            _ => false,
        },
{
    let ghost rs = records.deep_view();
    let mut i: usize = 0;
    while i < records.len()
        invariant
            i <= records.len(),
            rs == records.deep_view(),
            creator_from(effects_upto(rs, i as int), digest@, 0) is None,
        decreases records.len() - i,
    {
        let es = &records[i].effects;
        let ghost ev = es.deep_view();
        assert(rs[i as int] == records[i as int].deep_view());
        assert(effects_upto(rs, i + 1) =~= effects_upto(rs, i as int) + ev);
        proof {
            lemma_creator_skips(effects_upto(rs, i as int), ev, digest@, 0);
        }
        let mut j: usize = 0;
        while j < es.len()
            invariant
                j <= es.len(),
                i < records.len(),
                rs == records.deep_view(),
                ev == es.deep_view(),
                creator_from(effects_upto(rs, i + 1), digest@, 0) == creator_from(ev, digest@, 0),
                creator_from(ev, digest@, 0) == creator_from(ev, digest@, j as int),
            decreases es.len() - j,
        {
            let e = &es[j];
            assert(ev[j as int] == e.deep_view());
            let same = match e.args.get("digest") {
                Some(d) => same_text(d.as_str(), digest),
                None => false,
            };
            if same_text(e.kind.as_str(), "artifact_create") && same {
                proof {
                    lemma_effects_more(rs, i + 1, records.len() as int, digest@);
                }
                return Some(e.id.dup());
            }
            j = j + 1;
        }
        i = i + 1;
    }
    None
}

proof fn lemma_effects_more(rs: Seq<RecordView>, n: int, m: int, digest: Str)
    requires
        0 <= n <= m <= rs.len(),
        creator_from(effects_upto(rs, n), digest, 0) is Some,
    ensures
        creator_from(effects_upto(rs, m), digest, 0) == creator_from(
            effects_upto(rs, n),
            digest,
            0,
        ),
    decreases m - n,
{
    if n < m {
        lemma_effects_more(rs, n, m - 1, digest);
        lemma_creator_skips(effects_upto(rs, m - 1), rs[m - 1].effects, digest, 0);
    }
}

/// Turns raw logs into an observation.
pub fn normalize(bundle: &Bundle, map: &AdapterMap) -> (r: Observation)
    ensures
        r.deep_view() == normalized(bundle.deep_view(), map.deep_view()),
{
    let ghost bv = bundle.deep_view();
    let ghost mv = map.deep_view();
    let mut records: Vec<Record> = empty_vec();
    let mut i: usize = 0;
    while i < bundle.runner.jobs.len()
        invariant
            i <= bundle.runner.jobs.len(),
            bv == bundle.deep_view(),
            mv == map.deep_view(),
            records.deep_view() == job_records(bv, mv, i as int),
        decreases bundle.runner.jobs.len() - i,
    {
        let job = &bundle.runner.jobs[i];
        assert(bv.runner.jobs[i as int] == job.deep_view());
        if same_text(job.conclusion.as_str(), "success") {
            match map.jobs.get(job.name.as_str()) {
                Some(rule) => push_to(
                    &mut records,
                    record_job(bundle.repository.as_str(), map, job, rule),
                ),
                None => {},
            }
        }
        i = i + 1;
    }
    assert(bv.runner.jobs.len() == bundle.runner.jobs.len());
    let ghost so_far = records.deep_view();
    let mut j: usize = 0;
    assert(so_far + entry_records(bv, mv, 0) =~= so_far);
    while j < bundle.cloud_audit.entries.len()
        invariant
            j <= bundle.cloud_audit.entries.len(),
            bv == bundle.deep_view(),
            mv == map.deep_view(),
            records.deep_view() == so_far + entry_records(bv, mv, j as int),
        decreases bundle.cloud_audit.entries.len() - j,
    {
        let entry = &bundle.cloud_audit.entries[j];
        assert(bv.cloud_audit.entries[j as int] == entry.deep_view());
        match map.audit_actions.get(entry.action.as_str()) {
            Some(rule) => push_to(&mut records, record_entry(entry, rule)),
            None => {},
        }
        assert(records.deep_view() =~= so_far + entry_records(bv, mv, j + 1));
        j = j + 1;
    }
    assert(bv.cloud_audit.entries.len() == bundle.cloud_audit.entries.len());
    assert(records.deep_view() == early_records(bv, mv));
    let mut edges: Vec<ObservedEdge> = empty_vec();
    let mut k: usize = 0;
    while k < bundle.registry.events.len()
        invariant
            k <= bundle.registry.events.len(),
            bv == bundle.deep_view(),
            mv == map.deep_view(),
            records.deep_view() == records_upto(bv, mv, k as int),
            edges.deep_view() == edges_upto(bv, mv, k as int),
        decreases bundle.registry.events.len() - k,
    {
        let event = &bundle.registry.events[k];
        assert(bv.registry.events[k as int] == event.deep_view());
        match map.registry_actions.get(event.action.as_str()) {
            Some(rule) => {
                let record = record_event(event, rule);
                let ghost ev = edges.deep_view();
                match &event.provenance {
                    Some(p) => {
                        assert(record.effects.deep_view().len() == record.effects.len());
                        assert(record.deep_view().effects[0] == record.effects[0].deep_view());
                        match find_creator(&records, p.build_digest.as_str()) {
                            Some(to) => {
                                push_to(
                                    &mut edges,
                                    ObservedEdge {
                                        ty: "derives_from".to_string(),
                                        from: record.effects[0].id.dup(),
                                        to,
                                    },
                                );
                            },
                            None => {},
                        }
                        assert(edges.deep_view() =~= ev + provenance_edge(
                            records.deep_view(),
                            record.deep_view().effects[0].id,
                            p.build_digest@,
                        ));
                    },
                    None => {},
                }
                push_to(&mut records, record);
            },
            None => {},
        }
        k = k + 1;
    }
    assert(bv.registry.events.len() == bundle.registry.events.len());
    Observation {
        run_id: bundle.run_id.dup(),
        planes: map.planes.dup(),
        records: sort_records(records),
        edges,
    }
}

// ---------------------------------------------------------------------------
// Laws
// ---------------------------------------------------------------------------
/// Whether a record is backed by a log line: a successful job, an audit entry or a registry
/// event, each of a kind that a rule names.
pub open spec fn backed(bundle: BundleView, map: AdapterMapView, r: RecordView) -> bool {
    ||| exists|i: int|
        0 <= i < bundle.runner.jobs.len() && job_backs(
            bundle,
            map,
            #[trigger] bundle.runner.jobs[i],
            r,
        )
    ||| exists|i: int|
        0 <= i < bundle.cloud_audit.entries.len() && entry_backs(
            map,
            #[trigger] bundle.cloud_audit.entries[i],
            r,
        )
    ||| exists|i: int|
        0 <= i < bundle.registry.events.len() && event_backs(
            map,
            #[trigger] bundle.registry.events[i],
            r,
        )
}

/// Whether a job gives this record.
pub open spec fn job_backs(bundle: BundleView, map: AdapterMapView, job: JobView, r: RecordView) -> bool {
    job.conclusion == "success"@ && match lookup(map.jobs, job.name) {
        Some(rule) => r == job_record(bundle.repository, map, job, rule),
        None => false,
    }
}

/// Whether an audit entry gives this record.
pub open spec fn entry_backs(map: AdapterMapView, entry: AuditEntryView, r: RecordView) -> bool {
    match lookup(map.audit_actions, entry.action) {
        Some(rule) => r == entry_record(entry, rule),
        None => false,
    }
}

/// Whether a registry event gives this record.
pub open spec fn event_backs(map: AdapterMapView, event: RegistryEventView, r: RecordView) -> bool {
    match lookup(map.registry_actions, event.action) {
        Some(rule) => r == event_record(event, rule),
        None => false,
    }
}

proof fn lemma_job_records(bundle: BundleView, map: AdapterMapView, n: int, r: RecordView)
    requires
        0 <= n <= bundle.runner.jobs.len(),
    ensures
        job_records(bundle, map, n).contains(r) <==> exists|i: int|
            0 <= i < n && job_backs(bundle, map, #[trigger] bundle.runner.jobs[i], r),
    decreases n,
{
    if n > 0 {
        lemma_job_records(bundle, map, n - 1, r);
        let job = bundle.runner.jobs[n - 1];
        let rest = job_records(bundle, map, n - 1);
        if job_records(bundle, map, n) != rest {
            lemma_push_contains(rest, job_records(bundle, map, n).last(), r);
        }
        if rest.contains(r) {
            let i = choose|i: int|
                0 <= i < n - 1 && job_backs(bundle, map, #[trigger] bundle.runner.jobs[i], r);
            assert(job_backs(bundle, map, bundle.runner.jobs[i], r));
        }
        if job_backs(bundle, map, job, r) {
            assert(job_records(bundle, map, n) == rest.push(r));
            lemma_push_contains(rest, r, r);
        }
    }
}

proof fn lemma_entry_records(bundle: BundleView, map: AdapterMapView, n: int, r: RecordView)
    requires
        0 <= n <= bundle.cloud_audit.entries.len(),
    ensures
        entry_records(bundle, map, n).contains(r) <==> exists|i: int|
            0 <= i < n && entry_backs(map, #[trigger] bundle.cloud_audit.entries[i], r),
    decreases n,
{
    if n > 0 {
        lemma_entry_records(bundle, map, n - 1, r);
        let entry = bundle.cloud_audit.entries[n - 1];
        let rest = entry_records(bundle, map, n - 1);
        if entry_records(bundle, map, n) != rest {
            lemma_push_contains(rest, entry_records(bundle, map, n).last(), r);
        }
        if rest.contains(r) {
            let i = choose|i: int|
                0 <= i < n - 1 && entry_backs(map, #[trigger] bundle.cloud_audit.entries[i], r);
            assert(entry_backs(map, bundle.cloud_audit.entries[i], r));
        }
        if entry_backs(map, entry, r) {
            assert(entry_records(bundle, map, n) == rest.push(r));
            lemma_push_contains(rest, r, r);
        }
    }
}

pub(crate) proof fn lemma_push_contains<T>(s: Seq<T>, x: T, y: T)
    ensures
        s.push(x).contains(y) <==> s.contains(y) || y == x,
{
    let t = s.push(x);
    if s.contains(y) {
        assert(t[s.index_of(y)] == y);
    }
    assert(t[s.len() as int] == x);
    if t.contains(y) {
        let i = t.index_of(y);
        if i < s.len() {
            assert(s[i] == y);
        }
    }
}

proof fn lemma_add_contains<T>(a: Seq<T>, b: Seq<T>, y: T)
    ensures
        (a + b).contains(y) <==> a.contains(y) || b.contains(y),
{
    let t = a + b;
    if a.contains(y) {
        assert(t[a.index_of(y)] == y);
    }
    if b.contains(y) {
        assert(t[a.len() + b.index_of(y)] == y);
    }
    if t.contains(y) {
        let i = t.index_of(y);
        if i < a.len() {
            assert(a[i] == y);
        } else {
            assert(b[i - a.len()] == y);
        }
    }
}

proof fn lemma_records_upto(bundle: BundleView, map: AdapterMapView, n: int, r: RecordView)
    requires
        0 <= n <= bundle.registry.events.len(),
    ensures
        records_upto(bundle, map, n).contains(r) <==> early_records(bundle, map).contains(r) || (
        exists|i: int|
            0 <= i < n && event_backs(map, #[trigger] bundle.registry.events[i], r)),
    decreases n,
{
    if n > 0 {
        lemma_records_upto(bundle, map, n - 1, r);
        let event = bundle.registry.events[n - 1];
        let rest = records_upto(bundle, map, n - 1);
        if records_upto(bundle, map, n) != rest {
            lemma_push_contains(rest, records_upto(bundle, map, n).last(), r);
        }
        if exists|i: int|
            0 <= i < n - 1 && event_backs(map, #[trigger] bundle.registry.events[i], r) {
            let i = choose|i: int|
                0 <= i < n - 1 && event_backs(map, #[trigger] bundle.registry.events[i], r);
            assert(event_backs(map, bundle.registry.events[i], r));
        }
        if event_backs(map, event, r) {
            assert(records_upto(bundle, map, n) == rest.push(r));
            lemma_push_contains(rest, r, r);
        }
    }
}

/// An observation holds exactly the records that log lines give: a job that did not succeed
/// and a line that no rule names leave none, and none is made up.
pub proof fn every_record_is_backed(bundle: BundleView, map: AdapterMapView, r: RecordView)
    ensures
        normalized(bundle, map).records.contains(r) <==> backed(bundle, map, r),
{
    let n = bundle.registry.events.len() as int;
    let rs = records_upto(bundle, map, n);
    ordering_keeps_every_record(rs, rs.len() as int);
    assert(rs.take(rs.len() as int) =~= rs);
    lemma_records_upto(bundle, map, n, r);
    lemma_job_records(bundle, map, bundle.runner.jobs.len() as int, r);
    lemma_entry_records(bundle, map, bundle.cloud_audit.entries.len() as int, r);
    lemma_add_contains(
        job_records(bundle, map, bundle.runner.jobs.len() as int),
        entry_records(bundle, map, bundle.cloud_audit.entries.len() as int),
        r,
    );
}

pub(crate) proof fn lemma_creator_found(es: Seq<EffectInstanceView>, digest: Str, i: int)
    requires
        0 <= i,
    ensures
        creator_from(es, digest, i) matches Some(e) ==> es.contains(e) && creates(e, digest),
    decreases es.len() - i,
{
    if i < es.len() && !creates(es[i], digest) {
        lemma_creator_found(es, digest, i + 1);
    }
}

/// Whether an edge is backed: an event claims to derive from a build with some digest, and an
/// effect of the observation creates the artifact with that digest.
pub open spec fn edge_backed(
    bundle: BundleView,
    map: AdapterMapView,
    e: ObservedEdgeView,
    i: int,
) -> bool {
    let event = bundle.registry.events[i];
    match (lookup(map.registry_actions, event.action), event.provenance) {
        (Some(rule), Some(p)) => {
            &&& e.ty == "derives_from"@
            &&& e.from == event.id + "."@ + decimal(0)
            &&& exists|r: RecordView, k: int|
                #![trigger r.effects[k]]
                normalized(bundle, map).records.contains(r) && 0 <= k < r.effects.len()
                    && r.effects[k].id == e.to && creates(r.effects[k], p.build_digest)
        },
        _ => false,
    }
}

pub(crate) proof fn lemma_effect_holder(rs: Seq<RecordView>, n: int, e: EffectInstanceView)
    requires
        0 <= n <= rs.len(),
        effects_upto(rs, n).contains(e),
    ensures
        exists|i: int, k: int|
            #![trigger rs[i].effects[k]]
            0 <= i < n && 0 <= k < rs[i].effects.len() && rs[i].effects[k] == e,
    decreases n,
{
    if n > 0 {
        lemma_add_contains(effects_upto(rs, n - 1), rs[n - 1].effects, e);
        if effects_upto(rs, n - 1).contains(e) {
            lemma_effect_holder(rs, n - 1, e);
        } else {
            let k = rs[n - 1].effects.index_of(e);
            assert(rs[n - 1].effects[k] == e);
        }
    }
}

proof fn lemma_records_grow(bundle: BundleView, map: AdapterMapView, a: int, b: int, r: RecordView)
    requires
        0 <= a <= b <= bundle.registry.events.len(),
        records_upto(bundle, map, a).contains(r),
    ensures
        records_upto(bundle, map, b).contains(r),
{
    lemma_records_upto(bundle, map, a, r);
    lemma_records_upto(bundle, map, b, r);
    if !early_records(bundle, map).contains(r) {
        let i = choose|i: int|
            0 <= i < a && event_backs(map, #[trigger] bundle.registry.events[i], r);
        assert(event_backs(map, bundle.registry.events[i], r));
    }
}

proof fn lemma_edges_backed(bundle: BundleView, map: AdapterMapView, n: int, e: ObservedEdgeView)
    requires
        0 <= n <= bundle.registry.events.len(),
        edges_upto(bundle, map, n).contains(e),
    ensures
        exists|i: int| 0 <= i < n && #[trigger] edge_backed(bundle, map, e, i),
    decreases n,
{
    if n > 0 {
        let rest = edges_upto(bundle, map, n - 1);
        if rest.contains(e) {
            lemma_edges_backed(bundle, map, n - 1, e);
            let i = choose|i: int| 0 <= i < n - 1 && #[trigger] edge_backed(bundle, map, e, i);
            assert(edge_backed(bundle, map, e, i));
        } else {
            let event = bundle.registry.events[n - 1];
            let rule = lookup(map.registry_actions, event.action)->0;
            let p = event.provenance->0;
            let rs = records_upto(bundle, map, n - 1);
            let from = event_record(event, rule).effects[0].id;
            let more = provenance_edge(rs, from, p.build_digest);
            lemma_add_contains(rest, more, e);
            lemma_creator_found(all_effects(rs), p.build_digest, 0);
            let made = creator_from(all_effects(rs), p.build_digest, 0)->0;
            assert(more[0] == e);
            lemma_effect_holder(rs, rs.len() as int, made);
            let (i, k) = choose|i: int, k: int|
                #![trigger rs[i].effects[k]]
                0 <= i < rs.len() && 0 <= k < rs[i].effects.len() && rs[i].effects[k] == made;
            let r = rs[i];
            assert(rs.contains(r));
            let all = bundle.registry.events.len() as int;
            lemma_records_grow(bundle, map, n - 1, all, r);
            let full = records_upto(bundle, map, all);
            ordering_keeps_every_record(full, full.len() as int);
            assert(full.take(full.len() as int) =~= full);
            assert(normalized(bundle, map).records.contains(r));
            assert(r.effects[k].id == e.to);
            assert(edge_backed(bundle, map, e, n - 1));
        }
    }
}

/// No edge is made up: each comes from a registry event that claims a build, and ends at an
/// effect of the observation that creates the artifact with the claimed digest.
pub proof fn no_edge_is_invented(bundle: BundleView, map: AdapterMapView, e: ObservedEdgeView)
    requires
        normalized(bundle, map).edges.contains(e),
    ensures
        exists|i: int|
            0 <= i < bundle.registry.events.len() && #[trigger] edge_backed(bundle, map, e, i),
{
    lemma_edges_backed(bundle, map, bundle.registry.events.len() as int, e);
}

} // verus!
