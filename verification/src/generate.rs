//! A first specification for a workflow file: the job graph as a net, with the effects that
//! the names of the steps suggest. What only a human can know is left marked in the text.

use crate::ordered::{
    append_to, empty_vec, lemma_put_items_contains, push_to, put_items, Dup, StrMap, StrSet,
};
use crate::text::{
    ascii_lower, ascii_lower_char, cat2, cat3, cat4, cat5, cat7, chars_of, contains_text, found,
    is_alphanumeric, is_alphanumeric_char, join, joined, lowercase, lowercase_text, string_of, Str,
};
use vstd::prelude::*;

verus! {

/// The jobs that a job waits for.
#[derive(Debug)]
pub enum Needs {
    One(String),
    Many(Vec<String>),
    Nothing,
}

/// What a [`Needs`] holds.
pub enum NeedsView {
    One(Str),
    Many(Seq<Str>),
    Nothing,
}

impl DeepView for Needs {
    type V = NeedsView;

    open spec fn deep_view(&self) -> NeedsView {
        match self {
            Needs::One(a0) => NeedsView::One(a0.deep_view()),
            Needs::Many(a0) => NeedsView::Many(a0.deep_view()),
            Needs::Nothing => NeedsView::Nothing,
        }
    }
}

impl Dup for Needs {
    fn dup(&self) -> (r: Self) {
        match self {
            Needs::One(a0) => Needs::One(a0.dup()),
            Needs::Many(a0) => Needs::Many(a0.dup()),
            Needs::Nothing => Needs::Nothing,
        }
    }
}

/// A step of a job in a workflow file.
#[derive(Debug)]
pub struct WfStep {
    pub name: Option<String>,
    pub run: Option<String>,
    pub uses: Option<String>,
}

/// What a [`WfStep`] holds.
pub struct WfStepView {
    pub name: Option<Str>,
    pub run: Option<Str>,
    pub uses: Option<Str>,
}

impl DeepView for WfStep {
    type V = WfStepView;

    open spec fn deep_view(&self) -> WfStepView {
        WfStepView {
            name: self.name.deep_view(),
            run: self.run.deep_view(),
            uses: self.uses.deep_view(),
        }
    }
}

impl Dup for WfStep {
    fn dup(&self) -> (r: Self) {
        WfStep {
            name: self.name.dup(),
            run: self.run.dup(),
            uses: self.uses.dup(),
        }
    }
}

/// A job in a workflow file.
#[derive(Debug)]
pub struct WfJob {
    pub needs: Needs,
    pub steps: Vec<WfStep>,
}

/// What a [`WfJob`] holds.
pub struct WfJobView {
    pub needs: NeedsView,
    pub steps: Seq<WfStepView>,
}

impl DeepView for WfJob {
    type V = WfJobView;

    open spec fn deep_view(&self) -> WfJobView {
        WfJobView {
            needs: self.needs.deep_view(),
            steps: self.steps.deep_view(),
        }
    }
}

impl Dup for WfJob {
    fn dup(&self) -> (r: Self) {
        WfJob {
            needs: self.needs.dup(),
            steps: self.steps.dup(),
        }
    }
}

/// A workflow file.
#[derive(Debug)]
pub struct Workflow {
    pub name: Option<String>,
    pub jobs: StrMap<WfJob>,
}

/// What a [`Workflow`] holds.
pub struct WorkflowView {
    pub name: Option<Str>,
    pub jobs: Seq<(Str, WfJobView)>,
}

impl DeepView for Workflow {
    type V = WorkflowView;

    open spec fn deep_view(&self) -> WorkflowView {
        WorkflowView {
            name: self.name.deep_view(),
            jobs: self.jobs.deep_view(),
        }
    }
}

impl Dup for Workflow {
    fn dup(&self) -> (r: Self) {
        Workflow {
            name: self.name.dup(),
            jobs: self.jobs.dup(),
        }
    }
}

/// What a job seems to do, from the weakest sign to the strongest.
#[derive(Debug, Clone, Copy, PartialEq, Eq, Structural)]
pub enum Signal {
    Checkout,
    Test,
    Build,
    Publish,
}

impl DeepView for Signal {
    type V = Signal;

    open spec fn deep_view(&self) -> Signal {
        *self
    }
}

impl Dup for Signal {
    fn dup(&self) -> (r: Self) {
        *self
    }
}

/// The jobs that a job waits for.
pub open spec fn needed(n: NeedsView) -> Seq<Str> {
    match n {
        NeedsView::One(s) => seq![s],
        NeedsView::Many(v) => v,
        NeedsView::Nothing => Seq::empty(),
    }
}

impl Default for Needs {
    fn default() -> (r: Self)
        ensures
            r.deep_view() == NeedsView::Nothing,
    {
        Needs::Nothing
    }
}

impl Needs {
    /// The jobs that a job waits for.
    pub fn ids(&self) -> (r: Vec<String>)
        ensures
            r.deep_view() == needed(self.deep_view()),
    {
        match self {
            Needs::One(s) => {
                let mut out: Vec<String> = empty_vec();
                push_to(&mut out, s.dup());
                assert(out.deep_view() =~= seq![s@]);
                out
            },
            Needs::Many(v) => v.dup(),
            Needs::Nothing => empty_vec(),
        }
    }
}

// ---------------------------------------------------------------------------
// Names
// ---------------------------------------------------------------------------
/// A character of an id: letters and digits in lower case, and an underscore for all others.
pub open spec fn id_char(c: char) -> char {
    if is_alphanumeric(c) {
        ascii_lower(c)
    } else {
        '_'
    }
}

/// The id that a name gives.
pub open spec fn id_for(name: Str) -> Str {
    Seq::new(name.len(), |i: int| id_char(name[i]))
}

/// Turns a job's name into a transition id.
pub fn slug(name: &str) -> (r: String)
    ensures
        r@ == id_for(name@),
{
    let cs = chars_of(name);
    let mut out: Vec<char> = Vec::new();
    let mut i: usize = 0;
    while i < cs.len()
        invariant
            i <= cs.len(),
            cs@ == name@,
            out@ == id_for(name@).take(i as int),
        decreases cs.len() - i,
    {
        let c = cs[i];
        if is_alphanumeric_char(c) {
            out.push(ascii_lower_char(c));
        } else {
            out.push('_');
        }
        assert(out@ =~= id_for(name@).take(i + 1));
        i = i + 1;
    }
    assert(id_for(name@).take(i as int) =~= id_for(name@));
    string_of(&out)
}

// ---------------------------------------------------------------------------
// Effects
// ---------------------------------------------------------------------------
/// Whether a text holds a word.
pub open spec fn mentions(label: Str, word: Str) -> bool {
    found(label, word) is Some
}

/// What a step's label is a sign of.
pub open spec fn sign_in(label: Str) -> Option<Signal> {
    if mentions(label, "publish"@) || mentions(label, "release to"@) || mentions(
        label,
        "npm publish"@,
    ) || mentions(label, "docker push"@) || mentions(label, "cargo publish"@) {
        Some(Signal::Publish)
    } else if mentions(label, "build"@) || mentions(label, "compile"@) {
        Some(Signal::Build)
    } else if mentions(label, "test"@) {
        Some(Signal::Test)
    } else if mentions(label, "checkout"@) {
        Some(Signal::Checkout)
    } else {
        None
    }
}

/// How strong a sign is.
pub open spec fn strength(s: Option<Signal>) -> int {
    match s {
        None => 0,
        Some(Signal::Checkout) => 1,
        Some(Signal::Test) => 2,
        Some(Signal::Build) => 3,
        Some(Signal::Publish) => 4,
    }
}

/// The strongest sign among the first `n` labels.
pub open spec fn strongest(labels: Seq<Str>, n: int) -> Option<Signal>
    decreases n,
{
    if n <= 0 {
        None
    } else if strength(sign_in(labels[n - 1])) > strength(strongest(labels, n - 1)) {
        sign_in(labels[n - 1])
    } else {
        strongest(labels, n - 1)
    }
}

/// The effect that a sign stands for.
pub open spec fn effect_for(s: Option<Signal>) -> Option<Str> {
    match s {
        None => None,
        Some(Signal::Checkout) => Some("vcs_read"@),
        Some(Signal::Test) => Some("ci_report"@),
        Some(Signal::Build) => Some("artifact_create"@),
        Some(Signal::Publish) => Some("registry_write"@),
    }
}

/// A text that may be missing, in lower case.
pub open spec fn lowered_or_empty(s: Option<Str>) -> Str {
    lowercase(
        match s {
            Some(t) => t,
            None => Seq::empty(),
        },
    )
}

/// The label of a step: what it is called and what it uses. The shell text is left out, for it
/// often names what other jobs made.
pub open spec fn label_of(step: WfStepView) -> Str {
    lowered_or_empty(step.name) + " "@ + lowered_or_empty(step.uses)
}

/// The labels of a job's steps.
pub open spec fn labels_of(job: WfJobView) -> Seq<Str> {
    Seq::new(job.steps.len(), |i: int| label_of(job.steps[i]))
}

/// What a job seems to do: the strongest sign that one of its steps gives.
pub open spec fn sign_of(job: WfJobView) -> Option<Signal> {
    strongest(labels_of(job), labels_of(job).len() as int)
}

/// What a step's label, in lower case, is a sign of.
pub fn read_sign(label: &str) -> (r: Option<Signal>)
    ensures
        r == sign_in(label@),
{
    if contains_text(label, "publish") || contains_text(label, "release to") || contains_text(
        label,
        "npm publish",
    ) || contains_text(label, "docker push") || contains_text(label, "cargo publish") {
        Some(Signal::Publish)
    } else if contains_text(label, "build") || contains_text(label, "compile") {
        Some(Signal::Build)
    } else if contains_text(label, "test") {
        Some(Signal::Test)
    } else if contains_text(label, "checkout") {
        Some(Signal::Checkout)
    } else {
        None
    }
}

fn strength_of(s: &Option<Signal>) -> (r: u8)
    ensures
        r as int == strength(*s),
{
    match s {
        None => 0,
        Some(Signal::Checkout) => 1,
        Some(Signal::Test) => 2,
        Some(Signal::Build) => 3,
        Some(Signal::Publish) => 4,
    }
}

/// The strongest sign among labels in lower case.
pub fn read_signs(labels: &Vec<String>) -> (r: Option<Signal>)
    ensures
        r == strongest(labels.deep_view(), labels.deep_view().len() as int),
{
    let ghost lv = labels.deep_view();
    let mut best: Option<Signal> = None;
    let mut i: usize = 0;
    while i < labels.len()
        invariant
            i <= labels.len(),
            lv == labels.deep_view(),
            best == strongest(lv, i as int),
        decreases labels.len() - i,
    {
        assert(lv[i as int] == labels[i as int]@);
        let s = read_sign(labels[i].as_str());
        if strength_of(&s) > strength_of(&best) {
            best = s;
        }
        i = i + 1;
    }
    assert(labels.len() == lv.len());
    best
}

fn lower_or_empty(s: &Option<String>) -> (r: String)
    ensures
        r@ == lowered_or_empty(s.deep_view()),
{
    match s {
        Some(t) => lowercase_text(t.as_str()),
        None => {
            let none = String::new();
            lowercase_text(none.as_str())
        },
    }
}

pub(crate) fn job_sign(job: &WfJob) -> (r: Option<Signal>)
    ensures
        r == sign_of(job.deep_view()),
{
    let ghost jv = job.deep_view();
    let mut labels: Vec<String> = empty_vec();
    let mut i: usize = 0;
    while i < job.steps.len()
        invariant
            i <= job.steps.len(),
            jv == job.deep_view(),
            labels.deep_view() == labels_of(jv).take(i as int),
        decreases job.steps.len() - i,
    {
        let step = &job.steps[i];
        assert(jv.steps[i as int] == step.deep_view());
        let name = lower_or_empty(&step.name);
        let uses = lower_or_empty(&step.uses);
        push_to(&mut labels, cat3(name.as_str(), " ", uses.as_str()));
        assert(labels.deep_view() =~= labels_of(jv).take(i + 1));
        i = i + 1;
    }
    assert(labels_of(jv).take(i as int) =~= labels_of(jv));
    read_signs(&labels)
}

/// The effect that a job seems to have.
pub fn guess_effect(job: &WfJob) -> (r: Option<&'static str>)
    ensures
        match (effect_for(sign_of(job.deep_view())), r) {
            (Some(v), Some(e)) => e@ == v,
            (None, None) => true,
            _ => false,
        },
{
    match job_sign(job) {
        None => None,
        Some(Signal::Checkout) => Some("vcs_read"),
        Some(Signal::Test) => Some("ci_report"),
        Some(Signal::Build) => Some("artifact_create"),
        Some(Signal::Publish) => Some("registry_write"),
    }
}

// ---------------------------------------------------------------------------
// The text
// ---------------------------------------------------------------------------
/// How the text begins, up to the name of the workflow.
pub const HEAD: &'static str =
    "# GENERATED SKELETON. Review every TODO before trusting a verdict.\n# The job graph and identities are inferred from the workflow file.\n# A human must still add: digests, effect arguments, and the\n# `requires_relation` links that actually catch tampering.\nspec_version: 1\nworkflow: ";

/// The one principal.
pub const PRINCIPALS: &'static str =
    "\n\nprincipals:\n  gha_runner:\n    class: service_account\n    id_pattern: \"*\"        # TODO restrict to your bot identity\n\n";

/// The first place.
pub const PLACES: &'static str =
    "places:\n  - id: start\n    tokens:\n      - { type: repository, value: \"*\" }\n";

/// What a place that carries the digest says.
pub const CARRIES: &'static str = "\n    carries: [digest]";

/// What a build emits.
pub const EMIT_BUILD: &'static str =
    "    binds:\n      digest: fresh\n    emits:\n      - effect: artifact_create\n        digest: $digest\n";

/// What a publication emits.
pub const EMIT_PUBLISH: &'static str =
    "    emits:\n      - effect: registry_write\n        scope: \"registry://prod/*\"   # TODO tighten scope\n";

/// The digest of a publication and the build that it must come from.
pub const PUBLISH_LINKED: &'static str =
    "        digest: $digest\n        requires_relation:\n          - type: derives_from\n            target: artifact_create   # TODO name the producing build\n            bind: { digest: $digest }\n";

/// The digest of a publication where nothing is built.
pub const PUBLISH_ALONE: &'static str =
    "        digest: \"*\"   # no build job in this workflow to mint one\n";

/// What a test emits.
pub const EMIT_TEST: &'static str = "    emits:\n      - effect: ci_report\n";

/// The digest that a test speaks of.
pub const TEST_LINKED: &'static str = "        digest: $digest\n";

/// The digest that a test speaks of where nothing is built.
pub const TEST_ALONE: &'static str =
    "        digest: \"*\"   # no build job in this workflow to mint one\n";

/// What a checkout emits.
pub const EMIT_CHECKOUT: &'static str =
    "    emits:\n      - effect: vcs_read\n        scope: \"repo/*\"\n";

/// What is said of a job that gives no sign.
pub const EMIT_NOTHING: &'static str =
    "    # TODO declare what this job emits\n    emits: []\n";

/// The relation between publications and builds.
pub const RELATIONS: &'static str =
    "relations:\n  derives_from:\n    from: registry_write\n    to: artifact_create\n    constraint: \"from.digest == to.digest\"\n";

/// What is said where there is no such pair.
pub const NO_RELATIONS: &'static str =
    "# No build->publish pair detected, so no derives_from relation was\n# generated. This pipeline only reads and commits; anything it published\n# would be an effect with no producing transition, and rejected.\n";

/// Whether some job seems to do this.
pub open spec fn some_job(jobs: Seq<(Str, WfJobView)>, s: Signal) -> bool {
    exists|i: int| 0 <= i < jobs.len() && sign_of((#[trigger] jobs[i]).1) == Some(s)
}

/// What the place behind a job carries: the digest, where the job makes one or handles one
/// that some job makes.
pub open spec fn carried_by(sign: Option<Signal>, has_build: bool) -> Str {
    if sign == Some(Signal::Build) || (has_build && (sign == Some(Signal::Test) || sign == Some(
        Signal::Publish,
    ))) {
        CARRIES@
    } else {
        Seq::empty()
    }
}

/// The places behind the first `n` jobs.
pub open spec fn place_lines(jobs: Seq<(Str, WfJobView)>, has_build: bool, n: int) -> Str
    decreases n,
{
    if n <= 0 {
        Seq::empty()
    } else {
        place_lines(jobs, has_build, n - 1) + ("  - id: p_"@ + id_for(jobs[n - 1].0) + carried_by(
            sign_of(jobs[n - 1].1),
            has_build,
        ) + "\n"@)
    }
}

/// What the first `n` jobs wait for.
pub open spec fn needs_upto(jobs: Seq<(Str, WfJobView)>, n: int) -> Seq<Str>
    decreases n,
{
    if n <= 0 {
        Seq::empty()
    } else {
        needs_upto(jobs, n - 1) + needed(jobs[n - 1].1.needs)
    }
}

/// The places behind those of the first `n` jobs that no job waits for.
pub open spec fn final_names(jobs: Seq<(Str, WfJobView)>, n: int) -> Seq<Str>
    decreases n,
{
    if n <= 0 {
        Seq::empty()
    } else if needs_upto(jobs, jobs.len() as int).contains(jobs[n - 1].0) {
        final_names(jobs, n - 1)
    } else {
        final_names(jobs, n - 1).push("p_"@ + id_for(jobs[n - 1].0))
    }
}

/// The places behind the first `n` jobs of a list.
pub open spec fn places_behind(names: Seq<Str>, n: int) -> Seq<Str>
    decreases n,
{
    if n <= 0 {
        Seq::empty()
    } else {
        places_behind(names, n - 1).push("p_"@ + id_for(names[n - 1]))
    }
}

/// The places that a job's transition consumes from.
pub open spec fn inputs_of(job: WfJobView) -> Seq<Str> {
    let names = needed(job.needs);
    if names.len() == 0 {
        seq!["start"@]
    } else {
        places_behind(names, names.len() as int)
    }
}

/// What a job's transition emits.
pub open spec fn emit_lines(sign: Option<Signal>, has_build: bool) -> Str {
    match sign {
        Some(Signal::Build) => EMIT_BUILD@,
        Some(Signal::Publish) => EMIT_PUBLISH@ + (if has_build {
            PUBLISH_LINKED@
        } else {
            PUBLISH_ALONE@
        }),
        Some(Signal::Test) => EMIT_TEST@ + (if has_build {
            TEST_LINKED@
        } else {
            TEST_ALONE@
        }),
        Some(Signal::Checkout) => EMIT_CHECKOUT@,
        None => EMIT_NOTHING@,
    }
}

/// The transition of a job.
pub open spec fn transition_lines(name: Str, job: WfJobView, has_build: bool) -> Str {
    "  - id: "@ + id_for(name) + "\n    principal: gha_runner\n    consumes: ["@ + joined(
        inputs_of(job),
        ", "@,
    ) + "]\n    produces: [p_"@ + id_for(name) + "]\n"@ + emit_lines(sign_of(job), has_build)
        + "\n"@
}

/// The transitions of the first `n` jobs.
pub open spec fn transitions_text(jobs: Seq<(Str, WfJobView)>, has_build: bool, n: int) -> Str
    decreases n,
{
    if n <= 0 {
        Seq::empty()
    } else {
        transitions_text(jobs, has_build, n - 1) + transition_lines(
            jobs[n - 1].0,
            jobs[n - 1].1,
            has_build,
        )
    }
}

/// What the workflow is called.
pub open spec fn title_of(wf: WorkflowView) -> Str {
    match wf.name {
        Some(n) => n,
        None => "workflow"@,
    }
}

/// The text of a first specification.
pub open spec fn generated(wf: WorkflowView) -> Str {
    let n = wf.jobs.len() as int;
    let has_build = some_job(wf.jobs, Signal::Build);
    HEAD@ + id_for(title_of(wf)) + PRINCIPALS@ + PLACES@ + place_lines(wf.jobs, has_build, n)
        + "\nfinal: ["@ + joined(final_names(wf.jobs, n), ", "@) + "]\n\ntransitions:\n"@
        + transitions_text(wf.jobs, has_build, n) + (if has_build && some_job(
        wf.jobs,
        Signal::Publish,
    ) {
        RELATIONS@
    } else {
        NO_RELATIONS@
    })
}

fn any_job(wf: &Workflow, s: Signal) -> (r: bool)
    ensures
        r == some_job(wf.deep_view().jobs, s),
{
    let ghost jv = wf.deep_view().jobs;
    let mut i: usize = 0;
    while i < wf.jobs.len()
        invariant
            i <= jv.len(),
            jv == wf.deep_view().jobs,
            forall|j: int| 0 <= j < i ==> sign_of((#[trigger] jv[j]).1) != Some(s),
        decreases jv.len() - i,
    {
        match job_sign(wf.jobs.value_at(i)) {
            Some(t) => {
                if t == s {
                    assert(sign_of(jv[i as int].1) == Some(s));
                    return true;
                }
            },
            None => {},
        }
        i = i + 1;
    }
    false
}

fn write_places(wf: &Workflow, has_build: bool) -> (r: String)
    ensures
        r@ == place_lines(wf.deep_view().jobs, has_build, wf.deep_view().jobs.len() as int),
{
    let ghost jv = wf.deep_view().jobs;
    let mut out = String::new();
    let mut i: usize = 0;
    while i < wf.jobs.len()
        invariant
            i <= jv.len(),
            jv == wf.deep_view().jobs,
            out@ == place_lines(jv, has_build, i as int),
        decreases jv.len() - i,
    {
        let carries = match job_sign(wf.jobs.value_at(i)) {
            Some(Signal::Build) => CARRIES.to_string(),
            Some(Signal::Test) => if has_build {
                CARRIES.to_string()
            } else {
                String::new()
            },
            Some(Signal::Publish) => if has_build {
                CARRIES.to_string()
            } else {
                String::new()
            },
            _ => String::new(),
        };
        assert(carries@ == carried_by(sign_of(jv[i as int].1), has_build));
        let id = slug(wf.jobs.key_at(i).as_str());
        let line = cat4("  - id: p_", id.as_str(), carries.as_str(), "\n");
        out = cat2(out.as_str(), line.as_str());
        i = i + 1;
    }
    out
}

fn list_needs(wf: &Workflow) -> (r: Vec<String>)
    ensures
        r.deep_view() == needs_upto(wf.deep_view().jobs, wf.deep_view().jobs.len() as int),
{
    let ghost jv = wf.deep_view().jobs;
    let mut out: Vec<String> = empty_vec();
    let mut i: usize = 0;
    while i < wf.jobs.len()
        invariant
            i <= jv.len(),
            jv == wf.deep_view().jobs,
            out.deep_view() == needs_upto(jv, i as int),
        decreases jv.len() - i,
    {
        append_to(&mut out, wf.jobs.value_at(i).needs.ids());
        i = i + 1;
    }
    out
}

fn list_finals(wf: &Workflow) -> (r: Vec<String>)
    ensures
        r.deep_view() == final_names(wf.deep_view().jobs, wf.deep_view().jobs.len() as int),
{
    let ghost jv = wf.deep_view().jobs;
    let waited_for = list_needs(wf);
    let mut depended = StrSet::new();
    depended.insert_all(&waited_for);
    let mut out: Vec<String> = empty_vec();
    let mut i: usize = 0;
    while i < wf.jobs.len()
        invariant
            i <= jv.len(),
            jv == wf.deep_view().jobs,
            depended.deep_view() == put_items(Seq::empty(), needs_upto(jv, jv.len() as int)),
            out.deep_view() == final_names(jv, i as int),
        decreases jv.len() - i,
    {
        let name = wf.jobs.key_at(i);
        proof {
            lemma_put_items_contains(Seq::empty(), needs_upto(jv, jv.len() as int), name@);
        }
        if !depended.contains(name.as_str()) {
            let id = slug(name.as_str());
            push_to(&mut out, cat2("p_", id.as_str()));
        }
        i = i + 1;
    }
    out
}

fn list_inputs(job: &WfJob) -> (r: Vec<String>)
    ensures
        r.deep_view() == inputs_of(job.deep_view()),
{
    let names = job.needs.ids();
    let ghost nv = names.deep_view();
    assert(names.len() == nv.len());
    let mut out: Vec<String> = empty_vec();
    if names.len() == 0 {
        push_to(&mut out, "start".to_string());
        assert(out.deep_view() =~= seq!["start"@]);
        return out;
    }
    let mut i: usize = 0;
    while i < names.len()
        invariant
            i <= names.len(),
            nv == names.deep_view(),
            out.deep_view() == places_behind(nv, i as int),
        decreases names.len() - i,
    {
        assert(nv[i as int] == names[i as int]@);
        let id = slug(names[i].as_str());
        push_to(&mut out, cat2("p_", id.as_str()));
        i = i + 1;
    }
    out
}

fn write_transition(name: &str, job: &WfJob, has_build: bool) -> (r: String)
    ensures
        r@ == transition_lines(name@, job.deep_view(), has_build),
{
    let id = slug(name);
    let inputs = list_inputs(job);
    let consumes = join(&inputs, ", ");
    let emits = match job_sign(job) {
        Some(Signal::Build) => EMIT_BUILD.to_string(),
        Some(Signal::Publish) => if has_build {
            cat2(EMIT_PUBLISH, PUBLISH_LINKED)
        } else {
            cat2(EMIT_PUBLISH, PUBLISH_ALONE)
        },
        Some(Signal::Test) => if has_build {
            cat2(EMIT_TEST, TEST_LINKED)
        } else {
            cat2(EMIT_TEST, TEST_ALONE)
        },
        Some(Signal::Checkout) => EMIT_CHECKOUT.to_string(),
        None => EMIT_NOTHING.to_string(),
    };
    assert(emits@ == emit_lines(sign_of(job.deep_view()), has_build));
    let head = cat7(
        "  - id: ",
        id.as_str(),
        "\n    principal: gha_runner\n    consumes: [",
        consumes.as_str(),
        "]\n    produces: [p_",
        id.as_str(),
        "]\n",
    );
    cat3(head.as_str(), emits.as_str(), "\n")
}

fn write_transitions(wf: &Workflow, has_build: bool) -> (r: String)
    ensures
        r@ == transitions_text(wf.deep_view().jobs, has_build, wf.deep_view().jobs.len() as int),
{
    let ghost jv = wf.deep_view().jobs;
    let mut out = String::new();
    let mut i: usize = 0;
    while i < wf.jobs.len()
        invariant
            i <= jv.len(),
            jv == wf.deep_view().jobs,
            out@ == transitions_text(jv, has_build, i as int),
        decreases jv.len() - i,
    {
        let text = write_transition(wf.jobs.key_at(i).as_str(), wf.jobs.value_at(i), has_build);
        out = cat2(out.as_str(), text.as_str());
        i = i + 1;
    }
    out
}

/// Writes a first specification for a workflow file.
pub fn generate(wf: &Workflow) -> (r: String)
    ensures
        r@ == generated(wf.deep_view()),
{
    let title = match &wf.name {
        Some(n) => n.dup(),
        None => "workflow".to_string(),
    };
    assert(title@ == title_of(wf.deep_view()));
    let name = slug(title.as_str());
    let has_build = any_job(wf, Signal::Build);
    let linked = has_build && any_job(wf, Signal::Publish);
    let places = write_places(wf, has_build);
    let final_list = list_finals(wf);
    let finals = join(&final_list, ", ");
    let transitions = write_transitions(wf, has_build);
    let head = cat5(HEAD, name.as_str(), PRINCIPALS, PLACES, places.as_str());
    let middle = cat5(
        head.as_str(),
        "\nfinal: [",
        finals.as_str(),
        "]\n\ntransitions:\n",
        transitions.as_str(),
    );
    if linked {
        cat2(middle.as_str(), RELATIONS)
    } else {
        cat2(middle.as_str(), NO_RELATIONS)
    }
}

// ---------------------------------------------------------------------------
// Laws
// ---------------------------------------------------------------------------
proof fn lemma_strongest(labels: Seq<Str>, n: int, i: int)
    requires
        0 <= i < n <= labels.len(),
    ensures
        strength(sign_in(labels[i])) <= strength(strongest(labels, n)),
    decreases n,
{
    if i < n - 1 {
        lemma_strongest(labels, n - 1, i);
    }
}

proof fn lemma_strongest_is_one(labels: Seq<Str>, n: int)
    requires
        0 <= n <= labels.len(),
    ensures
        strongest(labels, n) is None || exists|i: int|
            0 <= i < n && sign_in(#[trigger] labels[i]) == strongest(labels, n),
    decreases n,
{
    if n > 0 {
        lemma_strongest_is_one(labels, n - 1);
        if strength(sign_in(labels[n - 1])) > strength(strongest(labels, n - 1)) {
            assert(sign_in(labels[n - 1]) == strongest(labels, n));
        } else if strongest(labels, n - 1) is Some {
            let i = choose|i: int|
                0 <= i < n - 1 && sign_in(#[trigger] labels[i]) == strongest(labels, n - 1);
            assert(sign_in(labels[i]) == strongest(labels, n));
        }
    }
}

/// A job counts as what the strongest sign of its steps says: one of its steps gives that
/// sign, and none gives a stronger one. A job that publishes and also checks out publishes.
pub proof fn the_strongest_sign_decides(job: WfJobView, i: int)
    requires
        0 <= i < job.steps.len(),
    ensures
        strength(sign_in(label_of(job.steps[i]))) <= strength(sign_of(job)),
        sign_of(job) is None || exists|k: int|
            0 <= k < job.steps.len() && sign_in(label_of(#[trigger] job.steps[k])) == sign_of(job),
{
    let labels = labels_of(job);
    let n = labels.len() as int;
    lemma_strongest(labels, n, i);
    lemma_strongest_is_one(labels, n);
    if sign_of(job) is Some {
        let k = choose|k: int| 0 <= k < n && sign_in(#[trigger] labels[k]) == strongest(labels, n);
        assert(sign_in(label_of(job.steps[k])) == sign_of(job));
    }
}

/// Ids are as long as the names that they come from and hold only lower-case letters, digits
/// and underscores.
pub proof fn ids_are_plain(name: Str)
    ensures
        id_for(name).len() == name.len(),
        forall|i: int|
            0 <= i < name.len() ==> {
                let c = #[trigger] id_for(name)[i];
                c == '_' || ('a' <= c && c <= 'z') || ('0' <= c && c <= '9')
            },
{
    assert forall|i: int| 0 <= i < name.len() implies {
        let c = #[trigger] id_for(name)[i];
        c == '_' || ('a' <= c && c <= 'z') || ('0' <= c && c <= '9')
    } by {
        let c = name[i];
        if is_alphanumeric(c) && 'A' <= c && c <= 'Z' {
            assert((c as u32 + 32) as char as u32 == c as u32 + 32);
        }
    }
}

} // verus!
