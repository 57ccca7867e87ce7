//! Decisions of the service: which ids may name a file, what a query asks for, what onboarding
//! a workflow registers, and which specification a live run is judged by.

use crate::adapters::{
    AdapterMap, AdapterMapView, EffectRule, EffectRuleView, StepRule, StepRuleView,
};
use crate::generate::{id_for, sign_of, slug, Signal, WfJob, WfJobView, Workflow, WorkflowView};
use crate::github::{Fact, FactView};
use crate::lint::{DiagnosticView, LintReport};
use crate::observation::{Observation, ObservationView, RecordView};
use crate::ordered::{empty_vec, push_to, put, sorted_set, Dup, StrMap, StrSet};
use crate::policy::{BotPolicy, BotPolicyView};
use crate::text::{
    cat3, chars_of, contains_text, decimal, decimal_text, found, is_alphanumeric,
    is_alphanumeric_char, occurs_at, same_text, string_between, Str,
};
use vstd::prelude::*;
use vstd::string::StringSliceAdditionalSpecFns;
use vstd::utf8::encode_utf8;

verus! {

// ---------------------------------------------------------------------------
// Ids
// ---------------------------------------------------------------------------
/// Whether a character may stand in the id of a run.
pub open spec fn is_id_char(c: char) -> bool {
    is_alphanumeric(c) || c == '-' || c == '_' || c == '.'
}

/// Whether an id may name a file: one to 128 letters, digits, hyphens, underscores and dots,
/// with no two dots in a row and not a dot alone.
pub open spec fn is_safe(id: Str) -> bool {
    &&& 0 < id.len() <= 128
    &&& id != "."@
    &&& forall|i: int| 0 <= i < id.len() ==> is_id_char(#[trigger] id[i])
    &&& found(id, ".."@) is None
}

/// The id, if it may name a file.
pub fn safe_id<'a>(id: &'a str) -> (r: Option<&'a str>)
    ensures
        match r {
            Some(s) => is_safe(id@) && s@ == id@,
            None => !is_safe(id@),
        },
{
    let cs = chars_of(id);
    if cs.len() == 0 || cs.len() > 128 {
        return None;
    }
    let mut i: usize = 0;
    while i < cs.len()
        invariant
            i <= cs.len(),
            cs@ == id@,
            forall|j: int| 0 <= j < i ==> is_id_char(#[trigger] id@[j]),
        decreases cs.len() - i,
    {
        let c = cs[i];
        if !(is_alphanumeric_char(c) || c == '-' || c == '_' || c == '.') {
            assert(!is_id_char(id@[i as int]));
            return None;
        }
        i = i + 1;
    }
    if same_text(id, ".") || contains_text(id, "..") {
        return None;
    }
    Some(id)
}

/// A safe id names nothing outside the directory that it is looked up in: it holds no
/// separator, and is neither that directory nor the one above it.
pub proof fn safe_ids_stay_in_their_directory(id: Str)
    requires
        is_safe(id),
    ensures
        !id.contains('/'),
        !id.contains('\\'),
        id != "."@,
        id != ".."@,
{
    if id.contains('/') {
        assert(is_id_char(id[id.index_of('/')]));
    }
    if id.contains('\\') {
        assert(is_id_char(id[id.index_of('\\')]));
    }
    if id == ".."@ {
        assert(id.subrange(0, id.len() as int) =~= id);
        assert(occurs_at(id, ".."@, 0));
    }
}

// ---------------------------------------------------------------------------
// Queries
// ---------------------------------------------------------------------------
/// Whether a character is a decimal digit.
pub open spec fn is_digit(c: char) -> bool {
    '0' <= c && c <= '9'
}

/// The number that decimal digits stand for.
pub open spec fn number_in(s: Str) -> nat
    decreases s.len(),
{
    if s.len() == 0 {
        0
    } else {
        number_in(s.drop_last()) * 10 + (s.last() as nat - '0' as nat) as nat
    }
}

/// The digits of a number, behind the plus sign that may stand before them.
pub open spec fn digits_in(s: Str) -> Str {
    if s.len() > 0 && s[0] == '+' {
        s.drop_first()
    } else {
        s
    }
}

/// The number that a text stands for: an optional plus sign and one or more digits, no more
/// than a counter can hold.
pub open spec fn count_in(s: Str) -> Option<nat> {
    let d = digits_in(s);
    if d.len() > 0 && (forall|i: int| 0 <= i < d.len() ==> is_digit(#[trigger] d[i])) && number_in(
        d,
    ) <= usize::MAX {
        Some(number_in(d))
    } else {
        None
    }
}

/// Reads a number.
pub fn parse_count(s: &str) -> (r: Option<usize>)
    ensures
        match r {
            Some(n) => count_in(s@) == Some(n as nat),
            None => count_in(s@) is None,
        },
{
    let cs = chars_of(s);
    let ghost d = digits_in(s@);
    let from: usize = if cs.len() > 0 && cs[0] == '+' {
        1
    } else {
        0
    };
    assert(d =~= s@.skip(from as int));
    if from == cs.len() {
        return None;
    }
    let mut n: usize = 0;
    let mut over = false;
    let mut i: usize = from;
    assert(d.take(0) =~= Seq::<char>::empty());
    while i < cs.len()
        invariant
            from <= i <= cs.len(),
            cs@ == s@,
            d == digits_in(s@),
            d =~= s@.skip(from as int),
            forall|j: int| 0 <= j < i - from ==> is_digit(#[trigger] d[j]),
            !over ==> n == number_in(d.take(i - from)),
            over ==> number_in(d.take(i - from)) > usize::MAX,
        decreases cs.len() - i,
    {
        let c = cs[i];
        assert(d[i - from] == c);
        if !('0' <= c && c <= '9') {
            return None;
        }
        let v: usize = (c as u32 - '0' as u32) as usize;
        proof {
            let t = d.take(i - from + 1);
            assert(t.drop_last() =~= d.take(i - from));
            assert(t.last() == c);
        }
        if !over {
            match n.checked_mul(10) {
                Some(m) => match m.checked_add(v) {
                    Some(k) => {
                        n = k;
                    },
                    None => {
                        over = true;
                    },
                },
                None => {
                    over = true;
                },
            }
        }
        i = i + 1;
    }
    assert(d.take(i - from) =~= d);
    if over {
        None
    } else {
        Some(n)
    }
}

/// What a query asks for, or a default where it asks for nothing that can be read.
pub open spec fn asked_for(param: Option<Str>, default: nat) -> nat {
    match param {
        Some(s) => match count_in(s) {
            Some(n) => n,
            None => default,
        },
        None => default,
    }
}

fn read_param(param: Option<&str>, default: usize) -> (r: usize)
    ensures
        r == asked_for(param.deep_view(), default as nat),
{
    match param {
        Some(s) => match parse_count(s) {
            Some(n) => n,
            None => default,
        },
        None => default,
    }
}

/// The slack that a query asks for; none by default.
pub fn slack_of(param: Option<&str>) -> (r: usize)
    ensures
        r == asked_for(param.deep_view(), 0),
{
    read_param(param, 0)
}

/// The depth that a query asks for, at most twelve; eight by default.
pub fn depth_of(param: Option<&str>) -> (r: usize)
    ensures
        r == (if asked_for(param.deep_view(), 8) < 12 {
            asked_for(param.deep_view(), 8)
        } else {
            12
        }),
{
    let n = read_param(param, 8);
    if n < 12 {
        n
    } else {
        12
    }
}

/// The budget of states that a query asks for.
pub fn budget_of(param: Option<&str>) -> (r: usize)
    ensures
        r == asked_for(param.deep_view(), 400_000),
{
    read_param(param, 400_000)
}

// ---------------------------------------------------------------------------
// Files
// ---------------------------------------------------------------------------
/// The text without all copies of a suffix at its end.
pub open spec fn without_suffixes(s: Str, suffix: Str) -> Str
    decreases s.len(),
{
    if suffix.len() > 0 && occurs_at(s, suffix, s.len() - suffix.len()) {
        without_suffixes(s.take(s.len() - suffix.len()), suffix)
    } else {
        s
    }
}

/// The name of the specification that a file holds, if its name says that it holds one.
pub open spec fn spec_name(file: Str) -> Option<Str> {
    if occurs_at(file, ".wsl.yaml"@, file.len() - ".wsl.yaml"@.len()) {
        Some(without_suffixes(file, ".wsl.yaml"@))
    } else {
        None
    }
}

fn ends_with(s: &Vec<char>, to: usize, suffix: &Vec<char>) -> (r: bool)
    requires
        to <= s.len(),
    ensures
        r == occurs_at(s@.take(to as int), suffix@, to - suffix@.len()),
{
    if to < suffix.len() {
        return false;
    }
    let from: usize = to - suffix.len();
    let ghost head = s@.take(to as int);
    let mut i: usize = 0;
    while i < suffix.len()
        invariant
            i <= suffix.len(),
            to <= s.len(),
            from + suffix.len() == to,
            head == s@.take(to as int),
            forall|j: int| 0 <= j < i ==> head[from + j] == suffix@[j],
        decreases suffix.len() - i,
    {
        if s[from + i] != suffix[i] {
            assert(head.subrange(from as int, to as int)[i as int] != suffix@[i as int]);
            return false;
        }
        i = i + 1;
    }
    assert(head.subrange(from as int, to as int) =~= suffix@);
    true
}

/// The name of the specification that a file holds.
pub fn spec_stem(file: &str) -> (r: Option<String>)
    ensures
        r.deep_view() == spec_name(file@),
{
    let cs = chars_of(file);
    let suffix = chars_of(".wsl.yaml");
    proof {
        reveal_strlit(".wsl.yaml");
    }
    assert(cs@.take(cs.len() as int) =~= file@);
    if !ends_with(&cs, cs.len(), &suffix) {
        return None;
    }
    let mut to: usize = cs.len();
    while ends_with(&cs, to, &suffix)
        invariant
            to <= cs.len(),
            cs@ == file@,
            suffix@ == ".wsl.yaml"@,
            suffix@.len() > 0,
            without_suffixes(file@.take(to as int), ".wsl.yaml"@) == without_suffixes(
                file@,
                ".wsl.yaml"@,
            ),
        decreases to,
    {
        let ghost s = file@.take(to as int);
        assert(s.take(s.len() - suffix@.len()) =~= file@.take(to - suffix@.len()));
        to = to - suffix.len();
    }
    let name = string_between(&cs, 0, to);
    assert(name@ =~= file@.take(to as int));
    Some(name)
}

// ---------------------------------------------------------------------------
// Onboarding
// ---------------------------------------------------------------------------
/// The rules for the effects that a job seems to have.
pub open spec fn rules_for(sign: Option<Signal>) -> Seq<EffectRuleView> {
    let digest = put(Seq::empty(), "digest"@, "${outputs.digest}"@);
    match sign {
        Some(Signal::Build) => seq![EffectRuleView { kind: "artifact_create"@, args: digest }],
        Some(Signal::Publish) => seq![
            EffectRuleView {
                kind: "registry_write"@,
                args: put(
                    put(Seq::empty(), "scope"@, "registry://prod/${repository_name}"@),
                    "digest"@,
                    "${outputs.digest}"@,
                ),
            },
        ],
        Some(Signal::Test) => seq![EffectRuleView { kind: "ci_report"@, args: digest }],
        Some(Signal::Checkout) => seq![
            EffectRuleView {
                kind: "vcs_read"@,
                args: put(Seq::empty(), "scope"@, "repo/${repository_name}"@),
            },
        ],
        None => Seq::empty(),
    }
}

/// The rule for a job of a workflow: its own transition, and the effects that it seems to
/// have.
pub open spec fn job_rule(name: Str, job: WfJobView) -> StepRuleView {
    StepRuleView { step: id_for(name), effects: rules_for(sign_of(job)) }
}

/// The rules for the first `n` jobs of a workflow.
pub open spec fn job_rules(jobs: Seq<(Str, WfJobView)>, n: int) -> Seq<(Str, StepRuleView)>
    decreases n,
{
    if n <= 0 {
        Seq::empty()
    } else {
        put(job_rules(jobs, n - 1), jobs[n - 1].0, job_rule(jobs[n - 1].0, jobs[n - 1].1))
    }
}

/// The map for a workflow's own jobs.
pub open spec fn map_for(base: AdapterMapView, wf: WorkflowView) -> AdapterMapView {
    AdapterMapView { jobs: job_rules(wf.jobs, wf.jobs.len() as int), ..base }
}

fn one_arg(key: &str, value: &str) -> (r: StrMap<String>)
    ensures
        r.deep_view() == put(Seq::empty(), key@, value@),
{
    let mut args: StrMap<String> = StrMap::new();
    args.insert(key.to_string(), value.to_string());
    args
}

fn write_rules(job: &WfJob) -> (r: Vec<EffectRule>)
    ensures
        r.deep_view() == rules_for(sign_of(job.deep_view())),
{
    let mut out: Vec<EffectRule> = empty_vec();
    match crate::generate::job_sign(job) {
        Some(Signal::Build) => push_to(
            &mut out,
            EffectRule {
                kind: "artifact_create".to_string(),
                args: one_arg("digest", "${outputs.digest}"),
            },
        ),
        Some(Signal::Publish) => {
            let mut args = one_arg("scope", "registry://prod/${repository_name}");
            args.insert("digest".to_string(), "${outputs.digest}".to_string());
            push_to(&mut out, EffectRule { kind: "registry_write".to_string(), args });
        },
        Some(Signal::Test) => push_to(
            &mut out,
            EffectRule {
                kind: "ci_report".to_string(),
                args: one_arg("digest", "${outputs.digest}"),
            },
        ),
        Some(Signal::Checkout) => push_to(
            &mut out,
            EffectRule {
                kind: "vcs_read".to_string(),
                args: one_arg("scope", "repo/${repository_name}"),
            },
        ),
        None => {},
    }
    assert(out.deep_view() =~= rules_for(sign_of(job.deep_view())));
    out
}

/// The map by which the runs of an onboarded workflow are read: its own job names, whatever
/// they are.
pub fn onboarding_map(base: &AdapterMap, wf: &Workflow) -> (r: AdapterMap)
    ensures
        r.deep_view() == map_for(base.deep_view(), wf.deep_view()),
{
    let ghost jv = wf.deep_view().jobs;
    let mut jobs: StrMap<StepRule> = StrMap::new();
    let mut i: usize = 0;
    while i < wf.jobs.len()
        invariant
            i <= jv.len(),
            jv == wf.deep_view().jobs,
            jobs.deep_view() == job_rules(jv, i as int),
        decreases jv.len() - i,
    {
        let name = wf.jobs.key_at(i);
        let job = wf.jobs.value_at(i);
        let rule = StepRule { step: slug(name.as_str()), effects: write_rules(job) };
        jobs.insert(name.dup(), rule);
        i = i + 1;
    }
    AdapterMap {
        planes: base.planes.dup(),
        runner_principal: base.runner_principal.dup(),
        jobs,
        registry_actions: base.registry_actions.dup(),
        audit_actions: base.audit_actions.dup(),
    }
}

/// The most specifications that the registry holds.
pub const REGISTRY_LIMIT: usize = 256;

/// What becomes of a workflow that is onboarded: whether it is registered, or why it is
/// refused.
pub open spec fn registration(name: Str, is_sound: bool, count: int, known: bool) -> Result<
    bool,
    Str,
> {
    if name.len() == 0 || encode_utf8(name).len() > 200 {
        Err("spec name must be 1..200 characters"@)
    } else if is_sound && count >= REGISTRY_LIMIT && !known {
        Err("spec registry is full"@)
    } else {
        Ok(is_sound)
    }
}

/// Decides what becomes of a workflow that is onboarded under a name. Only a sound
/// specification is registered; `count` says how many are, and `known` whether one is under
/// this name.
pub fn register(name: &str, is_sound: bool, count: usize, known: bool) -> (r: Result<
    bool,
    String,
>)
    ensures
        match r {
            Ok(b) => registration(name@, is_sound, count as int, known) == Ok::<bool, Str>(b),
            Err(m) => registration(name@, is_sound, count as int, known) == Err::<bool, Str>(m@),
        },
{
    let cs = chars_of(name);
    if cs.len() == 0 || name.as_bytes().len() > 200 {
        return Err("spec name must be 1..200 characters".to_string());
    }
    if is_sound && count >= REGISTRY_LIMIT && !known {
        return Err("spec registry is full".to_string());
    }
    Ok(is_sound)
}

/// Registering never takes the registry past its limit.
pub proof fn the_registry_stays_bounded(name: Str, is_sound: bool, count: int, known: bool)
    requires
        0 <= count <= REGISTRY_LIMIT,
    ensures
        registration(name, is_sound, count, known) == Ok::<bool, Str>(true) && !known ==> count + 1
            <= REGISTRY_LIMIT,
{
}

/// The findings of a report, each with its code.
pub open spec fn finding_lines(ds: Seq<DiagnosticView>, n: int) -> Seq<Str>
    decreases n,
{
    if n <= 0 {
        Seq::empty()
    } else {
        finding_lines(ds, n - 1).push(ds[n - 1].code + " "@ + ds[n - 1].message)
    }
}

/// The findings of a report as text.
pub fn list_findings(report: &LintReport) -> (r: Vec<String>)
    ensures
        r.deep_view() == finding_lines(
            report.deep_view().diagnostics,
            report.deep_view().diagnostics.len() as int,
        ),
{
    let ghost ds = report.deep_view().diagnostics;
    let mut out: Vec<String> = empty_vec();
    let mut i: usize = 0;
    while i < report.diagnostics.len()
        invariant
            i <= report.diagnostics.len(),
            ds == report.deep_view().diagnostics,
            out.deep_view() == finding_lines(ds, i as int),
        decreases report.diagnostics.len() - i,
    {
        let d = &report.diagnostics[i];
        assert(ds[i as int] == d.deep_view());
        push_to(&mut out, cat3(d.code, " ", d.message.as_str()));
        i = i + 1;
    }
    assert(report.diagnostics.len() == ds.len());
    out
}

// ---------------------------------------------------------------------------
// Live runs
// ---------------------------------------------------------------------------
/// A fact with the digest of one step rewritten and its provenance taken away.
pub open spec fn tampered_fact(f: FactView, step: Str, digest: Str) -> FactView {
    if f.step == step {
        FactView { digest: Some(digest), provenance: None, ..f }
    } else {
        f
    }
}

/// The facts with the digest of one step rewritten and its provenance taken away.
pub open spec fn tampered(facts: Seq<FactView>, step: Str, digest: Str) -> Seq<FactView> {
    Seq::new(facts.len(), |i: int| tampered_fact(facts[i], step, digest))
}

/// Rewrites the digest that facts tell of one step, to see what a swapped artifact looks like.
pub fn tamper(facts: &Vec<Fact>, step: &str, digest: &str) -> (r: Vec<Fact>)
    ensures
        r.deep_view() == tampered(facts.deep_view(), step@, digest@),
{
    let ghost fv = facts.deep_view();
    let mut out: Vec<Fact> = empty_vec();
    let mut i: usize = 0;
    while i < facts.len()
        invariant
            i <= facts.len(),
            fv == facts.deep_view(),
            out.deep_view() == tampered(fv, step@, digest@).take(i as int),
        decreases facts.len() - i,
    {
        let f = &facts[i];
        assert(fv[i as int] == f.deep_view());
        if same_text(f.step.as_str(), step) {
            push_to(
                &mut out,
                Fact {
                    step: f.step.dup(),
                    digest: Some(digest.to_string()),
                    scope: f.scope.dup(),
                    provenance: None,
                },
            );
        } else {
            push_to(&mut out, f.dup());
        }
        assert(out.deep_view() =~= tampered(fv, step@, digest@).take(i + 1));
        i = i + 1;
    }
    assert(tampered(fv, step@, digest@).take(i as int) =~= tampered(fv, step@, digest@));
    out
}

/// What is told of a run with no job that a specification knows.
pub open spec fn unverifiable_reason(jobs: nat) -> Str {
    "None of the "@ + decimal(jobs)
        + " job(s) in this run map to a transition in any known spec.                  Onboard this repository first, or its jobs use names the model does not declare                  (reusable workflows report jobs as \"caller / inner job\")."@
}

/// Why a run cannot be judged, if no record of it names a step: a run that was not understood
/// is not accepted.
pub fn unverifiable(obs: &Observation, jobs: usize) -> (r: Option<String>)
    ensures
        match r {
            Some(m) => (forall|i: int|
                0 <= i < obs.deep_view().records.len() ==> (
                #[trigger] obs.deep_view().records[i]).step is None) && m@ == unverifiable_reason(
                jobs as nat,
            ),
            None => exists|i: int|
                0 <= i < obs.deep_view().records.len() && (
                #[trigger] obs.deep_view().records[i]).step is Some,
        },
{
    let ghost rs = obs.deep_view().records;
    let mut i: usize = 0;
    while i < obs.records.len()
        invariant
            i <= obs.records.len(),
            rs == obs.deep_view().records,
            forall|j: int| 0 <= j < i ==> (#[trigger] rs[j]).step is None,
        decreases obs.records.len() - i,
    {
        assert(rs[i as int] == obs.records[i as int].deep_view());
        if obs.records[i].step.is_some() {
            assert(rs[i as int].step is Some);
            return None;
        }
        i = i + 1;
    }
    assert(obs.records.len() == rs.len());
    let n = decimal_text(jobs as u64);
    Some(
        cat3(
            "None of the ",
            n.as_str(),
            " job(s) in this run map to a transition in any known spec.                  Onboard this repository first, or its jobs use names the model does not declare                  (reusable workflows report jobs as \"caller / inner job\").",
        ),
    )
}

/// How many of the first `n` names are in a set.
pub open spec fn covered_upto(names: Seq<Str>, ids: Seq<Str>, n: int) -> nat
    decreases n,
{
    if n <= 0 {
        0
    } else if ids.contains(names[n - 1]) {
        covered_upto(names, ids, n - 1) + 1
    } else {
        covered_upto(names, ids, n - 1)
    }
}

/// The steps that the first `n` records name.
pub open spec fn named_upto(rs: Seq<RecordView>, n: int) -> Seq<Str>
    decreases n,
{
    if n <= 0 {
        Seq::empty()
    } else {
        match rs[n - 1].step {
            Some(s) => named_upto(rs, n - 1).push(s),
            None => named_upto(rs, n - 1),
        }
    }
}

/// The steps that an observation names, each once.
pub open spec fn named_steps(obs: ObservationView) -> Seq<Str> {
    sorted_set(named_upto(obs.records, obs.records.len() as int))
}

/// How well a specification with these transitions suits steps: ten for each step that it
/// knows, less one for each other transition that it has; nothing where it knows none.
pub open spec fn suits(steps: Seq<Str>, transitions: Seq<Str>) -> Option<int> {
    let ids = sorted_set(transitions);
    let covered = covered_upto(steps, ids, steps.len() as int) as int;
    if covered == 0 {
        None
    } else {
        Some(
            covered * 10 - (if ids.len() > covered {
                ids.len() - covered
            } else {
                0
            }),
        )
    }
}

/// The best of the first `n` candidates with its score: the first of those that suit best.
pub open spec fn best_upto(steps: Seq<Str>, candidates: Seq<Seq<Str>>, n: int) -> Option<
    (int, int),
>
    decreases n,
{
    if n <= 0 {
        None
    } else {
        let best = best_upto(steps, candidates, n - 1);
        match suits(steps, candidates[n - 1]) {
            None => best,
            Some(score) => match best {
                None => Some((n - 1, score)),
                Some((i, b)) => if score > b {
                    Some((n - 1, score))
                } else {
                    best
                },
            },
        }
    }
}

/// The first position of a name at or after `i`.
pub open spec fn position_from(names: Seq<Str>, name: Str, i: int) -> Option<int>
    decreases names.len() - i,
{
    if i < 0 || i >= names.len() {
        None
    } else if names[i] == name {
        Some(i)
    } else {
        position_from(names, name, i + 1)
    }
}

/// Which of the known specifications a run is judged by: the one that is asked for, if it is
/// known; else the one that suits best; else the one called `release`; else the first.
pub open spec fn chosen(
    names: Seq<Str>,
    transitions: Seq<Seq<Str>>,
    asked: Option<Str>,
    obs: ObservationView,
) -> int {
    let wanted = match asked {
        Some(n) => position_from(names, n, 0),
        None => None,
    };
    match wanted {
        Some(i) => i,
        None => match best_upto(named_steps(obs), transitions, transitions.len() as int) {
            Some(b) => b.0,
            None => match position_from(names, "release"@, 0) {
                Some(i) => i,
                None => 0,
            },
        },
    }
}

fn list_steps(obs: &Observation) -> (r: StrSet)
    ensures
        r.deep_view() == named_steps(obs.deep_view()),
{
    let ghost rs = obs.deep_view().records;
    let mut names: Vec<String> = empty_vec();
    let mut i: usize = 0;
    while i < obs.records.len()
        invariant
            i <= obs.records.len(),
            rs == obs.deep_view().records,
            names.deep_view() == named_upto(rs, i as int),
        decreases obs.records.len() - i,
    {
        assert(rs[i as int] == obs.records[i as int].deep_view());
        match &obs.records[i].step {
            Some(s) => push_to(&mut names, s.dup()),
            None => {},
        }
        i = i + 1;
    }
    assert(obs.records.len() == rs.len());
    let mut out = StrSet::new();
    out.insert_all(&names);
    out
}

proof fn lemma_covered(names: Seq<Str>, ids: Seq<Str>, n: int)
    requires
        0 <= n,
    ensures
        covered_upto(names, ids, n) <= n,
    decreases n,
{
    if n > 0 {
        lemma_covered(names, ids, n - 1);
    }
}

fn rate(steps: &StrSet, transitions: &Vec<String>) -> (r: Option<i128>)
    ensures
        match (suits(steps.deep_view(), transitions.deep_view()), r) {
            (Some(v), Some(s)) => s == v,
            (None, None) => true,
            _ => false,
        },
{
    let ghost sv = steps.deep_view();
    let mut ids = StrSet::new();
    ids.insert_all(transitions);
    let ghost iv = ids.deep_view();
    let many: usize = steps.len();
    let mut covered: usize = 0;
    let mut i: usize = 0;
    while i < many
        invariant
            i <= sv.len(),
            many == sv.len(),
            sv == steps.deep_view(),
            iv == ids.deep_view(),
            covered == covered_upto(sv, iv, i as int),
        decreases sv.len() - i,
    {
        proof {
            lemma_covered(sv, iv, i as int);
        }
        if ids.contains(steps.item_at(i).as_str()) {
            covered = covered + 1;
        }
        i = i + 1;
    }
    if covered == 0 {
        return None;
    }
    let extra: usize = if ids.len() > covered {
        ids.len() - covered
    } else {
        0
    };
    Some(covered as i128 * 10 - extra as i128)
}

fn find_name(names: &Vec<String>, name: &str) -> (r: Option<usize>)
    ensures
        match (position_from(names.deep_view(), name@, 0), r) {
            (Some(v), Some(i)) => i == v && i < names.len(),
            (None, None) => true,
            _ => false,
        },
{
    let ghost nv = names.deep_view();
    let mut i: usize = 0;
    while i < names.len()
        invariant
            i <= names.len(),
            nv == names.deep_view(),
            position_from(nv, name@, 0) == position_from(nv, name@, i as int),
        decreases names.len() - i,
    {
        assert(nv[i as int] == names[i as int]@);
        if same_text(names[i].as_str(), name) {
            return Some(i);
        }
        i = i + 1;
    }
    None
}

/// Chooses the specification that a run is judged by. `names` and `transitions` list the known
/// specifications, in any order, with the ids of their transitions.
pub fn choose_spec(
    names: &Vec<String>,
    transitions: &Vec<Vec<String>>,
    asked: Option<&str>,
    obs: &Observation,
) -> (r: usize)
    requires
        names.len() > 0,
        names.len() == transitions.len(),
    ensures
        r == chosen(
            names.deep_view(),
            transitions.deep_view(),
            asked.deep_view(),
            obs.deep_view(),
        ),
        r < names.len(),
{
    match asked {
        Some(n) => match find_name(names, n) {
            Some(i) => {
                return i;
            },
            None => {},
        },
        None => {},
    }
    let steps = list_steps(obs);
    let ghost sv = steps.deep_view();
    let ghost tv = transitions.deep_view();
    let mut best: Option<(usize, i128)> = None;
    let mut i: usize = 0;
    while i < transitions.len()
        invariant
            i <= transitions.len(),
            sv == steps.deep_view(),
            tv == transitions.deep_view(),
            match (best_upto(sv, tv, i as int), best) {
                (Some(v), Some(b)) => b.0 == v.0 && b.1 == v.1 && b.0 < i,
                (None, None) => true,
                _ => false,
            },
        decreases transitions.len() - i,
    {
        assert(tv[i as int] == transitions[i as int].deep_view());
        match rate(&steps, &transitions[i]) {
            Some(score) => {
                match best {
                    Some(b) => {
                        if score > b.1 {
                            best = Some((i, score));
                        }
                    },
                    None => {
                        best = Some((i, score));
                    },
                }
            },
            None => {},
        }
        i = i + 1;
    }
    assert(tv.len() == transitions.len());
    match best {
        Some(b) => b.0,
        None => match find_name(names, "release") {
            Some(i) => i,
            None => 0,
        },
    }
}

proof fn lemma_best(steps: Seq<Str>, candidates: Seq<Seq<Str>>, n: int, i: int)
    requires
        0 <= i < n <= candidates.len(),
    ensures
        suits(steps, candidates[i]) matches Some(score) ==> match best_upto(
            steps,
            candidates,
            n,
        ) {
            Some(b) => score <= b.1,
            None => false,
        },
    decreases n,
{
    if i < n - 1 {
        lemma_best(steps, candidates, n - 1, i);
    }
}

proof fn lemma_best_is_one(steps: Seq<Str>, candidates: Seq<Seq<Str>>, n: int)
    requires
        0 <= n <= candidates.len(),
    ensures
        best_upto(steps, candidates, n) matches Some(b) ==> 0 <= b.0 < n && suits(
            steps,
            candidates[b.0],
        ) == Some(b.1),
    decreases n,
{
    if n > 0 {
        lemma_best_is_one(steps, candidates, n - 1);
    }
}

/// Where no known specification is asked for, and some suits the run, the chosen one suits it,
/// and none suits it better.
pub proof fn the_chosen_specification_suits_best(
    names: Seq<Str>,
    transitions: Seq<Seq<Str>>,
    obs: ObservationView,
    i: int,
)
    requires
        0 <= i < transitions.len(),
        suits(named_steps(obs), transitions[i]) is Some,
    ensures
        ({
            let c = chosen(names, transitions, None, obs);
            &&& 0 <= c < transitions.len()
            &&& suits(named_steps(obs), transitions[c]) is Some
            &&& suits(named_steps(obs), transitions[i])->0 <= suits(
                named_steps(obs),
                transitions[c],
            )->0
        }),
{
    let n = transitions.len() as int;
    lemma_best(named_steps(obs), transitions, n, i);
    lemma_best_is_one(named_steps(obs), transitions, n);
}

// ---------------------------------------------------------------------------
// The permission policy
// ---------------------------------------------------------------------------
/// The policy where none is configured.
pub open spec fn fallback_view() -> BotPolicyView {
    BotPolicyView {
        identity: Seq::empty(),
        description: Seq::empty(),
        credential: crate::policy::CredentialView {
            kind: Seq::empty(),
            id: Seq::empty(),
            issued: Seq::empty(),
            last_rotated: None,
        },
        allowed_actions: seq![
            "vcs_read"@,
            "artifact_create"@,
            "ci_report"@,
            "secret_read"@,
            "registry_write"@,
        ],
        allowed_scopes: seq!["repo/*"@, "secrets://prod/*"@, "registry://prod/*"@],
        allowed_steps: Seq::empty(),
    }
}

/// The policy where none is configured: no identity, and the ordinary actions and scopes of a
/// release.
pub fn fallback_policy() -> (r: BotPolicy)
    ensures
        r.deep_view() == fallback_view(),
{
    let mut p = BotPolicy::default();
    let mut actions: Vec<String> = empty_vec();
    push_to(&mut actions, "vcs_read".to_string());
    push_to(&mut actions, "artifact_create".to_string());
    push_to(&mut actions, "ci_report".to_string());
    push_to(&mut actions, "secret_read".to_string());
    push_to(&mut actions, "registry_write".to_string());
    let mut scopes: Vec<String> = empty_vec();
    push_to(&mut scopes, "repo/*".to_string());
    push_to(&mut scopes, "secrets://prod/*".to_string());
    push_to(&mut scopes, "registry://prod/*".to_string());
    p.allowed_actions = actions;
    p.allowed_scopes = scopes;
    assert(p.deep_view().allowed_actions =~= fallback_view().allowed_actions);
    assert(p.deep_view().allowed_scopes =~= fallback_view().allowed_scopes);
    p
}

// ---------------------------------------------------------------------------
// Scenarios
// ---------------------------------------------------------------------------
/// Whether a pair of runs shows the contrast between the two checks: the first accepted and the
/// second rejected. There is no answer where one of the two could not be judged.
pub fn shows_contrast(legit: Option<bool>, stolen: Option<bool>) -> (r: Option<bool>)
    ensures
        r is None <==> legit is None || stolen is None,
        r matches Some(shown) ==> shown == (legit == Some(true) && stolen == Some(false)),
{
    match (legit, stolen) {
        (Some(a), Some(b)) => Some(a && !b),
        _ => None,
    }
}

} // verus!
