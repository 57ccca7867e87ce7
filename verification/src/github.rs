//! From the reports of a hosted runner to an observation: each successful job is one firing
//! of the transition that it is declared as.

use crate::adapters::{
    all_shown, creates, creator_from, find_creator, in_order, lemma_creator_found,
    lemma_effect_holder, lemma_push_contains, ordering_keeps_every_record, provenance_edge,
    render_effects, sort_records, substitute, substituted, AdapterMap, AdapterMapView, Provenance,
    ProvenanceView, StepRule, StepRuleView,
};
use crate::observation::{
    all_effects, Observation, ObservationView, ObservedEdge, ObservedEdgeView, Record, RecordView,
};
use crate::ordered::{
    empty_vec, lemma_put_item_contains, lookup, push_to, put, put_item, Dup, StrMap, StrSet,
};
use crate::text::{
    ascii_lower, ascii_lower_char, cat2, cat4, chars_of, decimal, decimal_text, head_piece,
    head_text, is_alphanumeric, is_alphanumeric_char, same_text, string_of, strip_char_text,
    stripped, tail_piece, tail_text, trim_text, trimmed, Str,
};
use vstd::prelude::*;

verus! {

/// Who started a run.
#[derive(Debug)]
pub struct Actor {
    pub login: String,
}

/// What a [`Actor`] holds.
pub struct ActorView {
    pub login: Str,
}

impl DeepView for Actor {
    type V = ActorView;

    open spec fn deep_view(&self) -> ActorView {
        ActorView {
            login: self.login.deep_view(),
        }
    }
}

impl Dup for Actor {
    fn dup(&self) -> (r: Self) {
        Actor {
            login: self.login.dup(),
        }
    }
}

/// Where a run took place.
#[derive(Debug)]
pub struct Repository {
    pub full_name: String,
}

/// What a [`Repository`] holds.
pub struct RepositoryView {
    pub full_name: Str,
}

impl DeepView for Repository {
    type V = RepositoryView;

    open spec fn deep_view(&self) -> RepositoryView {
        RepositoryView {
            full_name: self.full_name.deep_view(),
        }
    }
}

impl Dup for Repository {
    fn dup(&self) -> (r: Self) {
        Repository {
            full_name: self.full_name.dup(),
        }
    }
}

/// A run.
#[derive(Debug)]
pub struct Run {
    pub id: u64,
    pub name: String,
    pub head_sha: String,
    pub run_started_at: String,
    pub actor: Option<Actor>,
    pub repository: Option<Repository>,
}

/// What a [`Run`] holds.
pub struct RunView {
    pub id: u64,
    pub name: Str,
    pub head_sha: Str,
    pub run_started_at: Str,
    pub actor: Option<ActorView>,
    pub repository: Option<RepositoryView>,
}

impl DeepView for Run {
    type V = RunView;

    open spec fn deep_view(&self) -> RunView {
        RunView {
            id: self.id,
            name: self.name.deep_view(),
            head_sha: self.head_sha.deep_view(),
            run_started_at: self.run_started_at.deep_view(),
            actor: self.actor.deep_view(),
            repository: self.repository.deep_view(),
        }
    }
}

impl Dup for Run {
    fn dup(&self) -> (r: Self) {
        Run {
            id: self.id,
            name: self.name.dup(),
            head_sha: self.head_sha.dup(),
            run_started_at: self.run_started_at.dup(),
            actor: self.actor.dup(),
            repository: self.repository.dup(),
        }
    }
}

/// A step of a job.
#[derive(Debug)]
pub struct Step {
    pub name: String,
    pub number: u32,
    pub conclusion: Option<String>,
    pub started_at: String,
}

/// What a [`Step`] holds.
pub struct StepView {
    pub name: Str,
    pub number: u32,
    pub conclusion: Option<Str>,
    pub started_at: Str,
}

impl DeepView for Step {
    type V = StepView;

    open spec fn deep_view(&self) -> StepView {
        StepView {
            name: self.name.deep_view(),
            number: self.number,
            conclusion: self.conclusion.deep_view(),
            started_at: self.started_at.deep_view(),
        }
    }
}

impl Dup for Step {
    fn dup(&self) -> (r: Self) {
        Step {
            name: self.name.dup(),
            number: self.number,
            conclusion: self.conclusion.dup(),
            started_at: self.started_at.dup(),
        }
    }
}

/// A job of a run.
#[derive(Debug)]
pub struct Job {
    pub id: u64,
    pub name: String,
    pub conclusion: Option<String>,
    pub started_at: String,
    pub steps: Vec<Step>,
}

/// What a [`Job`] holds.
pub struct JobView {
    pub id: u64,
    pub name: Str,
    pub conclusion: Option<Str>,
    pub started_at: Str,
    pub steps: Seq<StepView>,
}

impl DeepView for Job {
    type V = JobView;

    open spec fn deep_view(&self) -> JobView {
        JobView {
            id: self.id,
            name: self.name.deep_view(),
            conclusion: self.conclusion.deep_view(),
            started_at: self.started_at.deep_view(),
            steps: self.steps.deep_view(),
        }
    }
}

impl Dup for Job {
    fn dup(&self) -> (r: Self) {
        Job {
            id: self.id,
            name: self.name.dup(),
            conclusion: self.conclusion.dup(),
            started_at: self.started_at.dup(),
            steps: self.steps.dup(),
        }
    }
}

/// The jobs of a run.
#[derive(Debug)]
pub struct Jobs {
    pub jobs: Vec<Job>,
}

/// What a [`Jobs`] holds.
pub struct JobsView {
    pub jobs: Seq<JobView>,
}

impl DeepView for Jobs {
    type V = JobsView;

    open spec fn deep_view(&self) -> JobsView {
        JobsView {
            jobs: self.jobs.deep_view(),
        }
    }
}

impl Dup for Jobs {
    fn dup(&self) -> (r: Self) {
        Jobs {
            jobs: self.jobs.dup(),
        }
    }
}

/// What is known of a job from elsewhere: the digest and scope of what it made or published,
/// and the build that it claims to derive from.
#[derive(Debug)]
pub struct Fact {
    pub step: String,
    pub digest: Option<String>,
    pub scope: Option<String>,
    pub provenance: Option<Provenance>,
}

/// What a [`Fact`] holds.
pub struct FactView {
    pub step: Str,
    pub digest: Option<Str>,
    pub scope: Option<Str>,
    pub provenance: Option<ProvenanceView>,
}

impl DeepView for Fact {
    type V = FactView;

    open spec fn deep_view(&self) -> FactView {
        FactView {
            step: self.step.deep_view(),
            digest: self.digest.deep_view(),
            scope: self.scope.deep_view(),
            provenance: self.provenance.deep_view(),
        }
    }
}

impl Dup for Fact {
    fn dup(&self) -> (r: Self) {
        Fact {
            step: self.step.dup(),
            digest: self.digest.dup(),
            scope: self.scope.dup(),
            provenance: self.provenance.dup(),
        }
    }
}

/// The facts of a run, if any are given.
#[derive(Debug)]
pub enum Facts {
    List(Vec<Fact>),
    Absent,
}

/// What a [`Facts`] holds.
pub enum FactsView {
    List(Seq<FactView>),
    Absent,
}

impl DeepView for Facts {
    type V = FactsView;

    open spec fn deep_view(&self) -> FactsView {
        match self {
            Facts::List(a0) => FactsView::List(a0.deep_view()),
            Facts::Absent => FactsView::Absent,
        }
    }
}

impl Dup for Facts {
    fn dup(&self) -> (r: Self) {
        match self {
            Facts::List(a0) => Facts::List(a0.dup()),
            Facts::Absent => Facts::Absent,
        }
    }
}

/// The facts that are given.
pub open spec fn facts_in(f: FactsView) -> Seq<FactView> {
    match f {
        FactsView::List(v) => v,
        FactsView::Absent => Seq::empty(),
    }
}

impl Facts {
    /// The facts that are given.
    pub fn items(&self) -> (r: Vec<Fact>)
        ensures
            r.deep_view() == facts_in(self.deep_view()),
    {
        match self {
            Facts::List(v) => v.dup(),
            Facts::Absent => empty_vec(),
        }
    }
}

// ---------------------------------------------------------------------------
// Names of jobs
// ---------------------------------------------------------------------------
/// The first `n` characters in lower case, each run of other characters than letters and
/// digits made one underscore, and whether the last was such a character.
pub open spec fn slugged(name: Str, n: int) -> (Str, bool)
    decreases n,
{
    if n <= 0 {
        (Seq::empty(), false)
    } else {
        let (out, sep) = slugged(name, n - 1);
        let c = name[n - 1];
        if is_alphanumeric(c) {
            (out.push(ascii_lower(c)), false)
        } else if sep {
            (out, true)
        } else {
            (out.push('_'), true)
        }
    }
}

/// The key that names are compared by.
pub open spec fn slug_of(name: Str) -> Str {
    stripped(slugged(name, name.len() as int).0, '_')
}

/// The key that names are compared by: lower case, with runs of other characters than letters
/// and digits made one underscore, and none at either end.
pub fn slugify(name: &str) -> (r: String)
    ensures
        r@ == slug_of(name@),
{
    let cs = chars_of(name);
    let mut out: Vec<char> = Vec::new();
    let mut sep = false;
    let mut i: usize = 0;
    while i < cs.len()
        invariant
            i <= cs.len(),
            cs@ == name@,
            (out@, sep) == slugged(name@, i as int),
        decreases cs.len() - i,
    {
        let c = cs[i];
        if is_alphanumeric_char(c) {
            out.push(ascii_lower_char(c));
            sep = false;
        } else if !sep {
            out.push('_');
            sep = true;
        }
        i = i + 1;
    }
    let text = string_of(&out);
    strip_char_text(text.as_str(), '_')
}

/// The last part of a job's name: what a called workflow's job is called there.
pub open spec fn inner_name(name: Str) -> Str {
    trimmed(tail_piece(name, '/'))
}

/// The last part of a job's name without the parameters of a matrix.
pub open spec fn base_name(name: Str) -> Str {
    trimmed(head_piece(inner_name(name), " ("@))
}

/// The first part of a job's name.
pub open spec fn outer_name(name: Str) -> Str {
    trimmed(head_piece(name, "/"@))
}

/// The first rule at or after position `i` whose name has one of two keys.
pub open spec fn rule_from(
    jobs: Seq<(Str, StepRuleView)>,
    want: Str,
    head: Str,
    i: int,
) -> Option<StepRuleView>
    decreases jobs.len() - i,
{
    if i < 0 || i >= jobs.len() {
        None
    } else if slug_of(jobs[i].0) == want || slug_of(jobs[i].0) == head {
        Some(jobs[i].1)
    } else {
        rule_from(jobs, want, head, i + 1)
    }
}

/// The rule for a job: under its whole name, its last part, that part without parameters, or
/// a name with the key of that part or of the first part.
pub open spec fn rule_for(map: AdapterMapView, name: Str) -> Option<StepRuleView> {
    match lookup(map.jobs, name) {
        Some(r) => Some(r),
        None => match lookup(map.jobs, inner_name(name)) {
            Some(r) => Some(r),
            None => match lookup(map.jobs, base_name(name)) {
                Some(r) => Some(r),
                None => rule_from(
                    map.jobs,
                    slug_of(base_name(name)),
                    slug_of(outer_name(name)),
                    0,
                ),
            },
        },
    }
}

/// Finds the rule for a job by the shapes that its name comes in: "caller / inner job" and
/// "job (parameter)".
pub fn resolve_rule<'a>(map: &'a AdapterMap, job_name: &str) -> (r: Option<&'a StepRule>)
    ensures
        match (rule_for(map.deep_view(), job_name@), r) {
            (Some(v), Some(rule)) => rule.deep_view() == v,
            (None, None) => true,
            _ => false,
        },
{
    if let Some(r) = map.jobs.get(job_name) {
        return Some(r);
    }
    let inner = tail_text(job_name, '/');
    let tail = trim_text(inner.as_str());
    if let Some(r) = map.jobs.get(tail.as_str()) {
        return Some(r);
    }
    let bare = head_text(tail.as_str(), " (");
    let base = trim_text(bare.as_str());
    if let Some(r) = map.jobs.get(base.as_str()) {
        return Some(r);
    }
    let want = slugify(base.as_str());
    let first = head_text(job_name, "/");
    let outer = trim_text(first.as_str());
    let head = slugify(outer.as_str());
    let ghost jv = map.deep_view().jobs;
    let mut i: usize = 0;
    while i < map.jobs.len()
        invariant
            i <= jv.len(),
            jv == map.deep_view().jobs,
            rule_for(map.deep_view(), job_name@) == rule_from(jv, want@, head@, 0),
            rule_from(jv, want@, head@, 0) == rule_from(jv, want@, head@, i as int),
        decreases jv.len() - i,
    {
        let key = slugify(map.jobs.key_at(i).as_str());
        if same_text(key.as_str(), want.as_str()) || same_text(key.as_str(), head.as_str()) {
            return Some(map.jobs.value_at(i));
        }
        i = i + 1;
    }
    None
}

// ---------------------------------------------------------------------------
// Records
// ---------------------------------------------------------------------------
/// Who the run says started it.
pub open spec fn actor_of(run: RunView) -> Str {
    match run.actor {
        Some(a) => a.login,
        None => "unknown"@,
    }
}

/// Where the run says it took place.
pub open spec fn repository_of(run: RunView) -> Str {
    match run.repository {
        Some(r) => r.full_name,
        None => Seq::empty(),
    }
}

/// The first fact at or after position `i` for a job: under its whole name or its last part.
pub open spec fn fact_from(facts: Seq<FactView>, name: Str, i: int) -> Option<FactView>
    decreases facts.len() - i,
{
    if i < 0 || i >= facts.len() {
        None
    } else if facts[i].step == name || facts[i].step == inner_name(name) {
        Some(facts[i])
    } else {
        fact_from(facts, name, i + 1)
    }
}

/// The context with what a fact tells added under two names.
pub open spec fn told_as(
    context: Seq<(Str, Str)>,
    short: Str,
    long: Str,
    value: Option<Str>,
) -> Seq<(Str, Str)> {
    match value {
        Some(v) => put(put(context, short, v), long, v),
        None => context,
    }
}

/// What the templates of a job can name.
pub open spec fn context_of(run: RunView, job: JobView, fact: Option<FactView>) -> Seq<(Str, Str)> {
    let c = put(Seq::empty(), "actor"@, actor_of(run));
    let c = put(c, "repository"@, repository_of(run));
    let c = put(c, "repository_name"@, tail_piece(repository_of(run), '/'));
    let c = put(c, "job"@, job.name);
    let c = put(c, "commit"@, run.head_sha);
    let c = put(c, "ts"@, job.started_at);
    match fact {
        Some(f) => told_as(
            told_as(c, "digest"@, "outputs.digest"@, f.digest),
            "scope"@,
            "outputs.scope"@,
            f.scope,
        ),
        None => c,
    }
}

/// The record of a job.
pub open spec fn record_of(
    run: RunView,
    map: AdapterMapView,
    facts: Seq<FactView>,
    job: JobView,
    rule: StepRuleView,
) -> RecordView {
    let c = context_of(run, job, fact_from(facts, job.name, 0));
    let id = "gha-"@ + decimal(job.id as nat);
    RecordView {
        id,
        plane: "runner"@,
        principal: substituted(map.runner_principal, c),
        step: Some(rule.step),
        ts: job.started_at,
        effects: all_shown(rule.effects, c, id),
    }
}

/// The build that a record's first effect is said to derive from.
pub open spec fn claim_of(facts: Seq<FactView>, job: JobView, r: RecordView) -> Seq<(Str, Str)> {
    match fact_from(facts, job.name, 0) {
        Some(f) => match f.provenance {
            Some(p) => if r.effects.len() > 0 {
                seq![(r.effects[0].id, p.build_digest)]
            } else {
                Seq::empty()
            },
            None => Seq::empty(),
        },
        None => Seq::empty(),
    }
}

/// What the jobs so far gave: their records, the steps that have one, and the claims of
/// provenance.
pub struct GatherView {
    pub records: Seq<RecordView>,
    pub seen: Seq<Str>,
    pub claims: Seq<(Str, Str)>,
}

/// The rule by which a job counts: it succeeded, a rule names it, and its step has no record
/// yet.
pub open spec fn counts_as(map: AdapterMapView, job: JobView, seen: Seq<Str>) -> Option<
    StepRuleView,
> {
    if job.conclusion == Some("success"@) {
        match rule_for(map, job.name) {
            Some(rule) => if seen.contains(rule.step) {
                None
            } else {
                Some(rule)
            },
            None => None,
        }
    } else {
        None
    }
}

/// What the first `n` jobs give.
pub open spec fn gathered(
    run: RunView,
    jobs: Seq<JobView>,
    facts: Seq<FactView>,
    map: AdapterMapView,
    n: int,
) -> GatherView
    decreases n,
{
    if n <= 0 {
        GatherView { records: Seq::empty(), seen: Seq::empty(), claims: Seq::empty() }
    } else {
        let g = gathered(run, jobs, facts, map, n - 1);
        let job = jobs[n - 1];
        match counts_as(map, job, g.seen) {
            Some(rule) => {
                let r = record_of(run, map, facts, job, rule);
                GatherView {
                    records: g.records.push(r),
                    seen: put_item(g.seen, rule.step),
                    claims: g.claims + claim_of(facts, job, r),
                }
            },
            None => g,
        }
    }
}

/// The edges that the first `n` claims give.
pub open spec fn claimed_edges(rs: Seq<RecordView>, claims: Seq<(Str, Str)>, n: int) -> Seq<
    ObservedEdgeView,
>
    decreases n,
{
    if n <= 0 {
        Seq::empty()
    } else {
        claimed_edges(rs, claims, n - 1) + provenance_edge(rs, claims[n - 1].0, claims[n - 1].1)
    }
}

/// The observation that a run gives.
pub open spec fn normalized_run(
    run: RunView,
    jobs: JobsView,
    facts: Seq<FactView>,
    map: AdapterMapView,
) -> ObservationView {
    let g = gathered(run, jobs.jobs, facts, map, jobs.jobs.len() as int);
    ObservationView {
        run_id: "gha-"@ + run.name + "-"@ + decimal(run.id as nat),
        planes: map.planes,
        records: in_order(g.records, g.records.len() as int),
        edges: claimed_edges(g.records, g.claims, g.claims.len() as int),
    }
}

fn find_fact<'a>(facts: &'a Vec<Fact>, name: &str) -> (r: Option<&'a Fact>)
    ensures
        match (fact_from(facts.deep_view(), name@, 0), r) {
            (Some(v), Some(f)) => f.deep_view() == v,
            (None, None) => true,
            _ => false,
        },
{
    let ghost fv = facts.deep_view();
    let inner = tail_text(name, '/');
    let tail = trim_text(inner.as_str());
    let mut i: usize = 0;
    while i < facts.len()
        invariant
            i <= facts.len(),
            fv == facts.deep_view(),
            tail@ == inner_name(name@),
            fact_from(fv, name@, 0) == fact_from(fv, name@, i as int),
        decreases facts.len() - i,
    {
        assert(fv[i as int] == facts[i as int].deep_view());
        if same_text(facts[i].step.as_str(), name) || same_text(
            facts[i].step.as_str(),
            tail.as_str(),
        ) {
            return Some(&facts[i]);
        }
        i = i + 1;
    }
    None
}

fn tell_as(context: &mut StrMap<String>, short: &str, long: &str, value: &Option<String>)
    ensures
        final(context).deep_view() == told_as(
            old(context).deep_view(),
            short@,
            long@,
            value.deep_view(),
        ),
{
    match value {
        Some(v) => {
            context.insert(short.to_string(), v.dup());
            context.insert(long.to_string(), v.dup());
        },
        None => {},
    }
}

fn record_job(run: &Run, map: &AdapterMap, fact: Option<&Fact>, job: &Job, rule: &StepRule, Ghost(
    facts,
): Ghost<Seq<FactView>>) -> (r: Record)
    requires
        match (fact_from(facts, job.deep_view().name, 0), fact) {
            (Some(v), Some(f)) => f.deep_view() == v,
            (None, None) => true,
            _ => false,
        },
    ensures
        r.deep_view() == record_of(
            run.deep_view(),
            map.deep_view(),
            facts,
            job.deep_view(),
            rule.deep_view(),
        ),
{
    let actor = match &run.actor {
        Some(a) => a.login.dup(),
        None => "unknown".to_string(),
    };
    let repository = match &run.repository {
        Some(r) => r.full_name.dup(),
        None => String::new(),
    };
    assert(actor@ == actor_of(run.deep_view()));
    assert(repository@ == repository_of(run.deep_view()));
    let short = tail_text(repository.as_str(), '/');
    let mut context: StrMap<String> = StrMap::new();
    context.insert("actor".to_string(), actor);
    context.insert("repository".to_string(), repository);
    context.insert("repository_name".to_string(), short);
    context.insert("job".to_string(), job.name.dup());
    context.insert("commit".to_string(), run.head_sha.dup());
    context.insert("ts".to_string(), job.started_at.dup());
    match fact {
        Some(f) => {
            tell_as(&mut context, "digest", "outputs.digest", &f.digest);
            tell_as(&mut context, "scope", "outputs.scope", &f.scope);
        },
        None => {},
    }
    let number = decimal_text(job.id);
    let id = cat2("gha-", number.as_str());
    let effects = render_effects(&rule.effects, &context, id.as_str());
    Record {
        id,
        plane: "runner".to_string(),
        principal: substitute(map.runner_principal.as_str(), &context),
        step: Some(rule.step.dup()),
        ts: job.started_at.dup(),
        effects,
    }
}

fn is_success(conclusion: &Option<String>) -> (r: bool)
    ensures
        r == (conclusion.deep_view() == Some("success"@)),
{
    match conclusion {
        Some(c) => same_text(c.as_str(), "success"),
        None => false,
    }
}

/// Turns the report of a run into an observation.
pub fn normalize(run: &Run, jobs: &Jobs, facts: &Vec<Fact>, map: &AdapterMap) -> (r: Observation)
    ensures
        r.deep_view() == normalized_run(
            run.deep_view(),
            jobs.deep_view(),
            facts.deep_view(),
            map.deep_view(),
        ),
{
    let ghost rv = run.deep_view();
    let ghost jv = jobs.deep_view().jobs;
    let ghost fv = facts.deep_view();
    let ghost mv = map.deep_view();
    let mut records: Vec<Record> = empty_vec();
    let mut seen = StrSet::new();
    let mut claims: Vec<(String, String)> = empty_vec();
    let mut i: usize = 0;
    while i < jobs.jobs.len()
        invariant
            i <= jobs.jobs.len(),
            rv == run.deep_view(),
            jv == jobs.deep_view().jobs,
            fv == facts.deep_view(),
            mv == map.deep_view(),
            records.deep_view() == gathered(rv, jv, fv, mv, i as int).records,
            seen.deep_view() == gathered(rv, jv, fv, mv, i as int).seen,
            claims.deep_view() == gathered(rv, jv, fv, mv, i as int).claims,
        decreases jobs.jobs.len() - i,
    {
        let job = &jobs.jobs[i];
        assert(jv[i as int] == job.deep_view());
        if is_success(&job.conclusion) {
            match resolve_rule(map, job.name.as_str()) {
                Some(rule) => {
                    let ghost sv = seen.deep_view();
                    if !seen.contains(rule.step.as_str()) {
                        let _ = seen.insert(rule.step.dup());
                        let fact = find_fact(facts, job.name.as_str());
                        let record = record_job(run, map, fact, job, rule, Ghost(fv));
                        let ghost cv = claims.deep_view();
                        assert(record.effects.len() == record.deep_view().effects.len());
                        match fact {
                            Some(f) => {
                                match &f.provenance {
                                    Some(p) => {
                                        if record.effects.len() > 0 {
                                            assert(record.deep_view().effects[0]
                                                == record.effects[0].deep_view());
                                            push_to(
                                                &mut claims,
                                                (record.effects[0].id.dup(), p.build_digest.dup()),
                                            );
                                        }
                                    },
                                    None => {},
                                }
                            },
                            None => {},
                        }
                        assert(claims.deep_view() =~= cv + claim_of(
                            fv,
                            job.deep_view(),
                            record.deep_view(),
                        ));
                        push_to(&mut records, record);
                    }
                },
                None => {},
            }
        }
        i = i + 1;
    }
    assert(jv.len() == jobs.jobs.len());
    let ghost rs = records.deep_view();
    let ghost cv = claims.deep_view();
    let mut edges: Vec<ObservedEdge> = empty_vec();
    let mut k: usize = 0;
    while k < claims.len()
        invariant
            k <= claims.len(),
            rs == records.deep_view(),
            cv == claims.deep_view(),
            edges.deep_view() == claimed_edges(rs, cv, k as int),
        decreases claims.len() - k,
    {
        assert(cv[k as int] == (claims[k as int].0@, claims[k as int].1@));
        let ghost so_far = edges.deep_view();
        match find_creator(&records, claims[k].1.as_str()) {
            Some(to) => {
                push_to(
                    &mut edges,
                    ObservedEdge { ty: "derives_from".to_string(), from: claims[k].0.dup(), to },
                );
            },
            None => {},
        }
        assert(edges.deep_view() =~= so_far + provenance_edge(
            rs,
            cv[k as int].0,
            cv[k as int].1,
        ));
        k = k + 1;
    }
    assert(cv.len() == claims.len());
    let number = decimal_text(run.id);
    Observation {
        run_id: cat4("gha-", run.name.as_str(), "-", number.as_str()),
        planes: map.planes.dup(),
        records: sort_records(records),
        edges,
    }
}

// ---------------------------------------------------------------------------
// Laws
// ---------------------------------------------------------------------------
/// Whether a job gives this record.
pub open spec fn job_gives(
    run: RunView,
    facts: Seq<FactView>,
    map: AdapterMapView,
    job: JobView,
    r: RecordView,
) -> bool {
    job.conclusion == Some("success"@) && match rule_for(map, job.name) {
        Some(rule) => r == record_of(run, map, facts, job, rule),
        None => false,
    }
}

proof fn lemma_gathered(
    run: RunView,
    jobs: Seq<JobView>,
    facts: Seq<FactView>,
    map: AdapterMapView,
    n: int,
)
    requires
        0 <= n <= jobs.len(),
    ensures
        ({
            let g = gathered(run, jobs, facts, map, n);
            &&& forall|r: RecordView| #[trigger]
                g.records.contains(r) ==> exists|i: int|
                    0 <= i < n && job_gives(run, facts, map, #[trigger] jobs[i], r)
            &&& forall|s: Str| #[trigger]
                g.seen.contains(s) <==> exists|k: int|
                    0 <= k < g.records.len() && (#[trigger] g.records[k]).step == Some(s)
            &&& forall|a: int, b: int|
                0 <= a < b < g.records.len() ==> (#[trigger] g.records[a]).step != (
                #[trigger] g.records[b]).step
            &&& forall|i: int|
                0 <= i < n && (#[trigger] jobs[i]).conclusion == Some("success"@) && rule_for(
                    map,
                    jobs[i].name,
                ) is Some ==> g.seen.contains(rule_for(map, jobs[i].name)->0.step)
        }),
    decreases n,
{
    if n > 0 {
        lemma_gathered(run, jobs, facts, map, n - 1);
        let g = gathered(run, jobs, facts, map, n - 1);
        let h = gathered(run, jobs, facts, map, n);
        let job = jobs[n - 1];
        match counts_as(map, job, g.seen) {
            Some(rule) => {
                let x = record_of(run, map, facts, job, rule);
                assert forall|r: RecordView| #[trigger] h.records.contains(r) implies exists|
                    i: int,
                |
                    0 <= i < n && job_gives(run, facts, map, #[trigger] jobs[i], r) by {
                    lemma_push_contains(g.records, x, r);
                    if r == x {
                        assert(job_gives(run, facts, map, jobs[n - 1], r));
                    } else {
                        let i = choose|i: int|
                            0 <= i < n - 1 && job_gives(run, facts, map, #[trigger] jobs[i], r);
                        assert(job_gives(run, facts, map, jobs[i], r));
                    }
                }
                assert forall|s: Str| #[trigger] h.seen.contains(s) <==> exists|k: int|
                    0 <= k < h.records.len() && (#[trigger] h.records[k]).step == Some(s) by {
                    lemma_put_item_contains(g.seen, rule.step, s);
                    if g.seen.contains(s) {
                        let k = choose|k: int|
                            0 <= k < g.records.len() && (#[trigger] g.records[k]).step == Some(s);
                        assert(h.records[k].step == Some(s));
                    }
                    assert(h.records[g.records.len() as int] == x);
                    if exists|k: int|
                        0 <= k < h.records.len() && (#[trigger] h.records[k]).step == Some(s) {
                        let k = choose|k: int|
                            0 <= k < h.records.len() && (#[trigger] h.records[k]).step == Some(s);
                        if k < g.records.len() {
                            assert(g.records[k].step == Some(s));
                        }
                    }
                }
                assert forall|a: int, b: int| 0 <= a < b < h.records.len() implies (
                #[trigger] h.records[a]).step != (#[trigger] h.records[b]).step by {
                    if b < g.records.len() {
                        assert(g.records[a].step != g.records[b].step);
                    } else {
                        assert(h.records[b] == x);
                        if g.records[a].step == Some(rule.step) {
                            assert(g.seen.contains(rule.step));
                        }
                    }
                }
                assert forall|i: int|
                    0 <= i < n && (#[trigger] jobs[i]).conclusion == Some("success"@) && rule_for(
                        map,
                        jobs[i].name,
                    ) is Some implies h.seen.contains(rule_for(map, jobs[i].name)->0.step) by {
                    lemma_put_item_contains(
                        g.seen,
                        rule.step,
                        rule_for(map, jobs[i].name)->0.step,
                    );
                }
            },
            None => {
                assert forall|r: RecordView| #[trigger] h.records.contains(r) implies exists|
                    i: int,
                |
                    0 <= i < n && job_gives(run, facts, map, #[trigger] jobs[i], r) by {
                    let i = choose|i: int|
                        0 <= i < n - 1 && job_gives(run, facts, map, #[trigger] jobs[i], r);
                    assert(job_gives(run, facts, map, jobs[i], r));
                }
            },
        }
    }
}

/// Every record of an observation comes from a job that succeeded and that a rule names. No
/// job that failed is observed, and none is made up.
pub proof fn every_record_comes_from_a_successful_job(
    run: RunView,
    jobs: JobsView,
    facts: Seq<FactView>,
    map: AdapterMapView,
    r: RecordView,
)
    requires
        normalized_run(run, jobs, facts, map).records.contains(r),
    ensures
        exists|i: int|
            0 <= i < jobs.jobs.len() && job_gives(run, facts, map, #[trigger] jobs.jobs[i], r),
{
    let n = jobs.jobs.len() as int;
    let g = gathered(run, jobs.jobs, facts, map, n);
    lemma_gathered(run, jobs.jobs, facts, map, n);
    ordering_keeps_every_record(g.records, g.records.len() as int);
    assert(g.records.take(g.records.len() as int) =~= g.records);
}

/// The jobs of one declared step, as a called workflow or a matrix reports them, count as one
/// firing: each declared step with a successful job has exactly one record.
pub proof fn a_declared_step_has_one_record(
    run: RunView,
    jobs: JobsView,
    facts: Seq<FactView>,
    map: AdapterMapView,
    i: int,
)
    requires
        0 <= i < jobs.jobs.len(),
        jobs.jobs[i].conclusion == Some("success"@),
        rule_for(map, jobs.jobs[i].name) is Some,
    ensures
        ({
            let rs = normalized_run(run, jobs, facts, map).records;
            let step = rule_for(map, jobs.jobs[i].name)->0.step;
            &&& exists|k: int| 0 <= k < rs.len() && (#[trigger] rs[k]).step == Some(step)
            &&& forall|a: int, b: int|
                0 <= a < rs.len() && 0 <= b < rs.len() && (#[trigger] rs[a]).step == Some(step)
                    && (#[trigger] rs[b]).step == Some(step) ==> a == b
        }),
{
    let n = jobs.jobs.len() as int;
    let g = gathered(run, jobs.jobs, facts, map, n);
    let step = rule_for(map, jobs.jobs[i].name)->0.step;
    lemma_gathered(run, jobs.jobs, facts, map, n);
    ordering_keeps_every_record(g.records, g.records.len() as int);
    assert(g.records.take(g.records.len() as int) =~= g.records);
    let rs = normalized_run(run, jobs, facts, map).records;
    assert(g.seen.contains(step));
    let k = choose|k: int| 0 <= k < g.records.len() && (#[trigger] g.records[k]).step == Some(step);
    assert(g.records.contains(g.records[k]));
    assert(rs.contains(g.records[k]));
    let at = rs.index_of(g.records[k]);
    assert(rs[at].step == Some(step));
    assert forall|a: int, b: int|
        0 <= a < rs.len() && 0 <= b < rs.len() && (#[trigger] rs[a]).step == Some(step) && (
        #[trigger] rs[b]).step == Some(step) implies a == b by {
        if a != b {
            let x = g.records[k];
            assert(rs.contains(rs[a]));
            assert(rs.contains(rs[b]));
            lemma_only(g.records, k, step);
            assert(rs[a] == x);
            assert(rs[b] == x);
            lemma_twice(rs, a, b, x);
            lemma_once(g.records, k);
        }
    }
}

proof fn lemma_only(s: Seq<RecordView>, k: int, step: Str)
    requires
        0 <= k < s.len(),
        s[k].step == Some(step),
        forall|a: int, b: int|
            0 <= a < b < s.len() ==> (#[trigger] s[a]).step != (#[trigger] s[b]).step,
    ensures
        forall|r: RecordView| #[trigger] s.contains(r) && r.step == Some(step) ==> r == s[k],
{
    assert forall|r: RecordView| #[trigger] s.contains(r) && r.step == Some(step) implies r
        == s[k] by {
        let i = s.index_of(r);
        if i < k {
            assert(s[i].step != s[k].step);
        } else if i > k {
            assert(s[k].step != s[i].step);
        }
    }
}

proof fn lemma_once(s: Seq<RecordView>, k: int)
    requires
        0 <= k < s.len(),
        forall|a: int, b: int|
            0 <= a < b < s.len() ==> (#[trigger] s[a]).step != (#[trigger] s[b]).step,
    ensures
        s.to_multiset().count(s[k]) == 1,
{
    broadcast use vstd::seq_lib::group_to_multiset_ensures;

    let rest = s.remove(k);
    assert(!rest.contains(s[k])) by {
        if rest.contains(s[k]) {
            let i = rest.index_of(s[k]);
            if i < k {
                assert(s[i] == s[k]);
                assert(s[i].step != s[k].step);
            } else {
                assert(s[i + 1] == s[k]);
                assert(s[k].step != s[i + 1].step);
            }
        }
    }
    assert(s.contains(s[k]));
    assert(s.to_multiset().contains(s[k]));
    assert(!rest.to_multiset().contains(s[k]));
    assert(s.to_multiset().remove(s[k]) =~= rest.to_multiset());
}

proof fn lemma_twice(s: Seq<RecordView>, a: int, b: int, x: RecordView)
    requires
        0 <= a < s.len(),
        0 <= b < s.len(),
        a != b,
        s[a] == x,
        s[b] == x,
    ensures
        s.to_multiset().count(x) >= 2,
{
    broadcast use vstd::seq_lib::group_to_multiset_ensures;

    let rest = s.remove(a);
    if b < a {
        assert(rest[b] == x);
    } else {
        assert(rest[b - 1] == x);
    }
    assert(rest.contains(x));
    assert(s.contains(x));
    assert(s.to_multiset().contains(x));
    assert(rest.to_multiset().contains(x));
    assert(s.to_multiset().remove(s[a]) =~= rest.to_multiset());
}

/// No edge is made up: each ends at an effect of the observation that creates an artifact, and
/// comes from a claim of provenance for the digest of that artifact.
pub proof fn no_edge_is_invented(
    run: RunView,
    jobs: JobsView,
    facts: Seq<FactView>,
    map: AdapterMapView,
    e: ObservedEdgeView,
)
    requires
        normalized_run(run, jobs, facts, map).edges.contains(e),
    ensures
        e.ty == "derives_from"@,
        exists|r: RecordView, k: int, f: int|
            #![trigger r.effects[k], facts[f]]
            normalized_run(run, jobs, facts, map).records.contains(r) && 0 <= k < r.effects.len()
                && r.effects[k].id == e.to && 0 <= f < facts.len() && facts[f].provenance is Some
                && creates(r.effects[k], facts[f].provenance->0.build_digest),
{
    let n = jobs.jobs.len() as int;
    let g = gathered(run, jobs.jobs, facts, map, n);
    let c = lemma_claimed(g.records, g.claims, g.claims.len() as int, e);
    lemma_claims(run, jobs.jobs, facts, map, n, c);
    let f = choose|f: int|
        0 <= f < facts.len() && (#[trigger] facts[f]).provenance is Some
            && facts[f].provenance->0.build_digest == g.claims[c].1;
    let digest = g.claims[c].1;
    let rs = g.records;
    lemma_creator_found(all_effects(rs), digest, 0);
    let made = creator_from(all_effects(rs), digest, 0)->0;
    assert(provenance_edge(rs, g.claims[c].0, digest)[0] == e);
    lemma_effect_holder(rs, rs.len() as int, made);
    let (i, k) = choose|i: int, k: int|
        #![trigger rs[i].effects[k]]
        0 <= i < rs.len() && 0 <= k < rs[i].effects.len() && rs[i].effects[k] == made;
    let r = rs[i];
    assert(rs.contains(r));
    ordering_keeps_every_record(rs, rs.len() as int);
    assert(rs.take(rs.len() as int) =~= rs);
    assert(r.effects[k].id == e.to);
    assert(facts[f].provenance is Some);
}

proof fn lemma_claimed(
    rs: Seq<RecordView>,
    claims: Seq<(Str, Str)>,
    n: int,
    e: ObservedEdgeView,
) -> (c: int)
    requires
        0 <= n <= claims.len(),
        claimed_edges(rs, claims, n).contains(e),
    ensures
        0 <= c < n,
        provenance_edge(rs, claims[c].0, claims[c].1) == seq![e],
    decreases n,
{
    let rest = claimed_edges(rs, claims, n - 1);
    let more = provenance_edge(rs, claims[n - 1].0, claims[n - 1].1);
    let all = claimed_edges(rs, claims, n);
    let i = all.index_of(e);
    if i < rest.len() {
        assert(rest[i] == e);
        lemma_claimed(rs, claims, n - 1, e)
    } else {
        assert(more[i - rest.len()] == e);
        assert(more =~= seq![e]);
        n - 1
    }
}

proof fn lemma_claims(
    run: RunView,
    jobs: Seq<JobView>,
    facts: Seq<FactView>,
    map: AdapterMapView,
    n: int,
    c: int,
)
    requires
        0 <= n <= jobs.len(),
        0 <= c < gathered(run, jobs, facts, map, n).claims.len(),
    ensures
        exists|f: int|
            0 <= f < facts.len() && (#[trigger] facts[f]).provenance is Some
                && facts[f].provenance->0.build_digest == gathered(
                run,
                jobs,
                facts,
                map,
                n,
            ).claims[c].1,
    decreases n,
{
    if n > 0 {
        let g = gathered(run, jobs, facts, map, n - 1);
        if c < g.claims.len() {
            lemma_claims(run, jobs, facts, map, n - 1, c);
        } else {
            lemma_fact_found(facts, jobs[n - 1].name, 0);
        }
    }
}

proof fn lemma_fact_found(facts: Seq<FactView>, name: Str, i: int)
    requires
        0 <= i,
    ensures
        fact_from(facts, name, i) matches Some(v) ==> exists|f: int|
            0 <= f < facts.len() && #[trigger] facts[f] == v,
    decreases facts.len() - i,
{
    if i < facts.len() && !(facts[i].step == name || facts[i].step == inner_name(name)) {
        lemma_fact_found(facts, name, i + 1);
    }
}

} // verus!
