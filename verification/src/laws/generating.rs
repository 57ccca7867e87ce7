//! What a skeleton says of the workflow that it is generated from.
use crate::generate::{
    effect_for, emit_lines, final_names, generated, id_for, inputs_of, label_of, labels_of, mentions,
    needs_upto, place_lines, places_behind, sign_in, sign_of, some_job, strength, strongest,
    transition_lines, transitions_text, NeedsView, Signal, WfJobView, WfStepView, WorkflowView,
};
use crate::laws::texts::{a_text_is_found_where_it_first_stands, stands_at};
use crate::search::{lemma_concat_contains, lemma_push_contains};
use crate::text::{ascii_lower, is_alphanumeric, joined, lowercase, Str};
use vstd::prelude::*;

verus! {

// ---------------------------------------------------------------------------
// Signs
// ---------------------------------------------------------------------------
/// Whether a word stands in a text.
pub open spec fn stands_in(text: Str, word: Str) -> bool {
    exists|i: int| #[trigger] stands_at(text, word, i)
}

/// Whether a word stands in the name of a step or in the action that it uses, in lower case.
pub open spec fn step_says(step: WfStepView, word: Str) -> bool {
    stands_in(
        lowercase(
            match step.name {
                Some(t) => t,
                None => Seq::empty(),
            },
        ) + " "@ + lowercase(
            match step.uses {
                Some(t) => t,
                None => Seq::empty(),
            },
        ),
        word,
    )
}

/// Whether some step of a job says a word.
pub open spec fn job_says(job: WfJobView, word: Str) -> bool {
    exists|k: int| 0 <= k < job.steps.len() && step_says(#[trigger] job.steps[k], word)
}

/// Whether a job says that it publishes.
pub open spec fn says_publish(job: WfJobView) -> bool {
    job_says(job, "publish"@) || job_says(job, "release to"@) || job_says(job, "docker push"@)
}

/// Whether a job says that it builds, and not that it publishes.
pub open spec fn says_build(job: WfJobView) -> bool {
    !says_publish(job) && (job_says(job, "build"@) || job_says(job, "compile"@))
}

/// Whether a job says that it tests, and nothing stronger.
pub open spec fn says_test(job: WfJobView) -> bool {
    !says_publish(job) && !says_build(job) && job_says(job, "test"@)
}

/// Whether a job says that it checks out, and nothing stronger.
pub open spec fn says_checkout(job: WfJobView) -> bool {
    !says_publish(job) && !says_build(job) && !says_test(job) && job_says(job, "checkout"@)
}

proof fn lemma_mentions(step: WfStepView, word: Str)
    ensures
        mentions(label_of(step), word) <==> step_says(step, word),
{
    let label = label_of(step);
    a_text_is_found_where_it_first_stands(label, word);
    if mentions(label, word) {
        assert(stands_at(label, word, crate::text::found(label, word)->0));
    }
}

proof fn lemma_says_longer(step: WfStepView, short: Str, long: Str, at: int)
    requires
        step_says(step, long),
        stands_at(long, short, at),
    ensures
        step_says(step, short),
{
    let label = label_of(step);
    let i = choose|i: int| #[trigger] stands_at(label, long, i);
    assert(stands_at(label, short, i + at)) by {
        assert forall|k: int| 0 <= k < short.len() implies label[i + at + k]
            == #[trigger] short[k] by {
            assert(long[at + k] == short[k]);
            assert(label[i + (at + k)] == long[at + k]);
        }
    }
}

proof fn lemma_sign_in(step: WfStepView)
    ensures
        ({
            let publishes = step_says(step, "publish"@) || step_says(step, "release to"@)
                || step_says(step, "docker push"@);
            let builds = step_says(step, "build"@) || step_says(step, "compile"@);
            let tests = step_says(step, "test"@);
            let checks = step_says(step, "checkout"@);
            strength(sign_in(label_of(step))) == (if publishes {
                4int
            } else if builds {
                3
            } else if tests {
                2
            } else if checks {
                1
            } else {
                0
            })
        }),
{
    lemma_mentions(step, "publish"@);
    lemma_mentions(step, "release to"@);
    lemma_mentions(step, "npm publish"@);
    lemma_mentions(step, "docker push"@);
    lemma_mentions(step, "cargo publish"@);
    lemma_mentions(step, "build"@);
    lemma_mentions(step, "compile"@);
    lemma_mentions(step, "test"@);
    lemma_mentions(step, "checkout"@);
    reveal_strlit("publish");
    reveal_strlit("npm publish");
    reveal_strlit("cargo publish");
    if step_says(step, "npm publish"@) {
        assert(stands_at("npm publish"@, "publish"@, 4));
        lemma_says_longer(step, "publish"@, "npm publish"@, 4);
    }
    if step_says(step, "cargo publish"@) {
        assert(stands_at("cargo publish"@, "publish"@, 6));
        lemma_says_longer(step, "publish"@, "cargo publish"@, 6);
    }
}

proof fn lemma_strongest(labels: Seq<Str>, n: int, level: int)
    requires
        0 <= n <= labels.len(),
        level > 0,
    ensures
        strength(strongest(labels, n)) >= level <==> exists|k: int|
            0 <= k < n && strength(sign_in(#[trigger] labels[k])) >= level,
    decreases n,
{
    if n > 0 {
        lemma_strongest(labels, n - 1, level);
        if strength(strongest(labels, n)) >= level && !(strength(strongest(labels, n - 1))
            >= level) {
            assert(strength(sign_in(labels[n - 1])) >= level);
        }
    }
}

/// What a job seems to do is the strongest thing that a word of one of its steps says:
/// publishing before building, building before testing, testing before checking out.
pub proof fn what_a_job_says_decides(job: WfJobView)
    ensures
        sign_of(job) == Some(Signal::Publish) <==> says_publish(job),
        sign_of(job) == Some(Signal::Build) <==> says_build(job),
        sign_of(job) == Some(Signal::Test) <==> says_test(job),
        sign_of(job) == Some(Signal::Checkout) <==> says_checkout(job),
{
    let labels = labels_of(job);
    let n = labels.len() as int;
    assert forall|k: int| 0 <= k < job.steps.len() implies labels[k] == label_of(
        #[trigger] job.steps[k],
    ) by {}
    lemma_level(job, 1);
    lemma_level(job, 2);
    lemma_level(job, 3);
    lemma_level(job, 4);
    assert forall|k: int| 0 <= k < job.steps.len() implies strength(
        sign_in(label_of(#[trigger] job.steps[k])),
    ) <= 4 by {}
    let top = strength(sign_of(job));
    assert(top >= 4 <==> says_publish(job)) by {
        if says_publish(job) {
            let k = choose|k: int|
                0 <= k < job.steps.len() && (step_says(#[trigger] job.steps[k], "publish"@)
                    || step_says(job.steps[k], "release to"@) || step_says(
                    job.steps[k],
                    "docker push"@,
                ));
            lemma_sign_in(job.steps[k]);
            assert(strength(sign_in(label_of(job.steps[k]))) >= 4);
        }
        if top >= 4 {
            let k = choose|k: int|
                0 <= k < job.steps.len() && strength(sign_in(label_of(#[trigger] job.steps[k])))
                    >= 4;
            lemma_sign_in(job.steps[k]);
        }
    }
    assert(top >= 3 <==> says_publish(job) || says_build(job)) by {
        if job_says(job, "build"@) || job_says(job, "compile"@) {
            let k = choose|k: int|
                0 <= k < job.steps.len() && (step_says(#[trigger] job.steps[k], "build"@)
                    || step_says(job.steps[k], "compile"@));
            lemma_sign_in(job.steps[k]);
            assert(strength(sign_in(label_of(job.steps[k]))) >= 3);
        }
        if top >= 3 {
            let k = choose|k: int|
                0 <= k < job.steps.len() && strength(sign_in(label_of(#[trigger] job.steps[k])))
                    >= 3;
            lemma_sign_in(job.steps[k]);
        }
    }
    assert(top >= 2 <==> says_publish(job) || says_build(job) || says_test(job)) by {
        if job_says(job, "test"@) {
            let k = choose|k: int|
                0 <= k < job.steps.len() && step_says(#[trigger] job.steps[k], "test"@);
            lemma_sign_in(job.steps[k]);
            assert(strength(sign_in(label_of(job.steps[k]))) >= 2);
        }
        if top >= 2 {
            let k = choose|k: int|
                0 <= k < job.steps.len() && strength(sign_in(label_of(#[trigger] job.steps[k])))
                    >= 2;
            lemma_sign_in(job.steps[k]);
        }
    }
    assert(top >= 1 <==> says_publish(job) || says_build(job) || says_test(job) || says_checkout(
        job,
    )) by {
        if job_says(job, "checkout"@) {
            let k = choose|k: int|
                0 <= k < job.steps.len() && step_says(#[trigger] job.steps[k], "checkout"@);
            lemma_sign_in(job.steps[k]);
            assert(strength(sign_in(label_of(job.steps[k]))) >= 1);
        }
        if top >= 1 {
            let k = choose|k: int|
                0 <= k < job.steps.len() && strength(sign_in(label_of(#[trigger] job.steps[k])))
                    >= 1;
            lemma_sign_in(job.steps[k]);
        }
    }
}

/// A job is taken to have the effect of what it says: writing to a registry, creating an
/// artifact, reporting, or reading the sources; and none where it says nothing.
pub proof fn what_a_job_is_taken_to_do(job: WfJobView)
    ensures
        effect_for(sign_of(job)) == Some("registry_write"@) <==> says_publish(job),
        effect_for(sign_of(job)) == Some("artifact_create"@) <==> says_build(job),
        effect_for(sign_of(job)) == Some("ci_report"@) <==> says_test(job),
        effect_for(sign_of(job)) == Some("vcs_read"@) <==> says_checkout(job),
        effect_for(sign_of(job)) is None <==> !says_publish(job) && !says_build(job)
            && !says_test(job) && !says_checkout(job),
{
    what_a_job_says_decides(job);
    reveal_strlit("registry_write");
    reveal_strlit("artifact_create");
    reveal_strlit("ci_report");
    reveal_strlit("vcs_read");
    assert("registry_write"@[0] == 'r' && "artifact_create"@[0] == 'a' && "ci_report"@[0] == 'c'
        && "vcs_read"@[0] == 'v');
}

proof fn lemma_level(job: WfJobView, level: int)
    requires
        level > 0,
    ensures
        strength(sign_of(job)) >= level <==> exists|k: int|
            0 <= k < job.steps.len() && strength(sign_in(label_of(#[trigger] job.steps[k])))
                >= level,
{
    let labels = labels_of(job);
    lemma_strongest(labels, labels.len() as int, level);
    assert forall|k: int| 0 <= k < job.steps.len() implies labels[k] == label_of(
        #[trigger] job.steps[k],
    ) by {}
    if exists|k: int| 0 <= k < labels.len() && strength(sign_in(#[trigger] labels[k])) >= level {
        let k = choose|k: int|
            0 <= k < labels.len() && strength(sign_in(#[trigger] labels[k])) >= level;
        assert(strength(sign_in(label_of(job.steps[k]))) >= level);
    }
    if exists|k: int|
        0 <= k < job.steps.len() && strength(sign_in(label_of(#[trigger] job.steps[k]))) >= level {
        let k = choose|k: int|
            0 <= k < job.steps.len() && strength(sign_in(label_of(#[trigger] job.steps[k])))
                >= level;
        assert(strength(sign_in(labels[k])) >= level);
    }
}

// ---------------------------------------------------------------------------
// Ids
// ---------------------------------------------------------------------------
/// An id has a character for each of its name's: letters in lower case, digits as they are, and
/// an underscore for anything else.
pub proof fn an_id_follows_its_name(name: Str, i: int)
    requires
        0 <= i < name.len(),
    ensures
        id_for(name).len() == name.len(),
        'A' <= name[i] && name[i] <= 'Z' ==> id_for(name)[i] as int == name[i] as int + 32,
        ('a' <= name[i] && name[i] <= 'z') || ('0' <= name[i] && name[i] <= '9')
            ==> id_for(name)[i] == name[i],
        !('A' <= name[i] && name[i] <= 'Z') && !('a' <= name[i] && name[i] <= 'z') && !('0'
            <= name[i] && name[i] <= '9') ==> id_for(name)[i] == '_',
{
    let c = name[i];
    if 'A' <= c && c <= 'Z' {
        assert((c as u8 + 32) as char as int == c as int + 32);
    }
}

// ---------------------------------------------------------------------------
// The text
// ---------------------------------------------------------------------------
/// Texts one behind the other.
pub open spec fn in_a_row(parts: Seq<Str>) -> Str
    decreases parts.len(),
{
    if parts.len() == 0 {
        Seq::empty()
    } else {
        in_a_row(parts.drop_last()) + parts.last()
    }
}

/// Whether a job must be done before some other one.
pub open spec fn is_waited_for(jobs: Seq<(Str, WfJobView)>, name: Str) -> bool {
    exists|j: int| 0 <= j < jobs.len() && waits_for((#[trigger] jobs[j]).1, name)
}

/// Whether a job waits for one of this name.
pub open spec fn waits_for(job: WfJobView, name: Str) -> bool {
    match job.needs {
        NeedsView::One(s) => s == name,
        NeedsView::Many(v) => v.contains(name),
        NeedsView::Nothing => false,
    }
}

/// Whether some job says that it builds.
pub open spec fn some_build(jobs: Seq<(Str, WfJobView)>) -> bool {
    exists|i: int| 0 <= i < jobs.len() && says_build((#[trigger] jobs[i]).1)
}

/// Whether some job says that it publishes.
pub open spec fn some_publication(jobs: Seq<(Str, WfJobView)>) -> bool {
    exists|i: int| 0 <= i < jobs.len() && says_publish((#[trigger] jobs[i]).1)
}

/// What the place behind a job is declared as: it carries the digest behind a build, and behind
/// a test or a publication where something is built.
pub open spec fn place_entry(name: Str, job: WfJobView, built: bool) -> Str {
    "  - id: p_"@ + id_for(name) + (if says_build(job) || (built && (says_test(job)
        || says_publish(job))) {
        "\n    carries: [digest]"@
    } else {
        Seq::empty()
    }) + "\n"@
}

/// What a job is said to emit.
pub open spec fn emit_entry(job: WfJobView, built: bool) -> Str {
    if says_publish(job) {
        "    emits:\n      - effect: registry_write\n        scope: \"registry://prod/*\"   # TODO tighten scope\n"@
            + (if built {
            "        digest: $digest\n        requires_relation:\n          - type: derives_from\n            target: artifact_create   # TODO name the producing build\n            bind: { digest: $digest }\n"@
        } else {
            "        digest: \"*\"   # no build job in this workflow to mint one\n"@
        })
    } else if says_build(job) {
        "    binds:\n      digest: fresh\n    emits:\n      - effect: artifact_create\n        digest: $digest\n"@
    } else if says_test(job) {
        "    emits:\n      - effect: ci_report\n"@ + (if built {
            "        digest: $digest\n"@
        } else {
            "        digest: \"*\"   # no build job in this workflow to mint one\n"@
        })
    } else if says_checkout(job) {
        "    emits:\n      - effect: vcs_read\n        scope: \"repo/*\"\n"@
    } else {
        "    # TODO declare what this job emits\n    emits: []\n"@
    }
}

/// Whether these are the places that a job takes from: those behind the jobs that it waits for,
/// or the first place where it waits for none.
pub open spec fn takes_from(job: WfJobView, inputs: Seq<Str>) -> bool {
    match job.needs {
        NeedsView::One(s) => inputs == seq!["p_"@ + id_for(s)],
        NeedsView::Many(v) => if v.len() == 0 {
            inputs == seq!["start"@]
        } else {
            inputs.len() == v.len() && forall|i: int|
                0 <= i < v.len() ==> #[trigger] inputs[i] == "p_"@ + id_for(v[i])
        },
        NeedsView::Nothing => inputs == seq!["start"@],
    }
}

/// Whether a text is what a job's transition is declared as.
pub open spec fn is_transition_entry(
    name: Str,
    job: WfJobView,
    built: bool,
    text: Str,
) -> bool {
    exists|inputs: Seq<Str>| #[trigger]
        takes_from(job, inputs) && text == "  - id: "@ + id_for(name)
            + "\n    principal: gha_runner\n    consumes: ["@ + joined(inputs, ", "@)
            + "]\n    produces: [p_"@ + id_for(name) + "]\n"@ + emit_entry(job, built) + "\n"@
}

proof fn lemma_behind(names: Seq<Str>, n: int)
    requires
        0 <= n <= names.len(),
    ensures
        places_behind(names, n).len() == n,
        forall|i: int|
            0 <= i < n ==> #[trigger] places_behind(names, n)[i] == "p_"@ + id_for(names[i]),
    decreases n,
{
    if n > 0 {
        lemma_behind(names, n - 1);
    }
}

proof fn lemma_inputs(job: WfJobView)
    ensures
        takes_from(job, inputs_of(job)),
{
    match job.needs {
        NeedsView::One(s) => {
            lemma_behind(seq![s], 1);
            assert(places_behind(seq![s], 1)[0] == "p_"@ + id_for(seq![s][0]));
            assert(inputs_of(job) =~= seq!["p_"@ + id_for(s)]);
        },
        NeedsView::Many(v) => {
            lemma_behind(v, v.len() as int);
        },
        NeedsView::Nothing => {},
    }
}

proof fn lemma_transition(name: Str, job: WfJobView, built: bool)
    ensures
        is_transition_entry(name, job, built, transition_lines(name, job, built)),
{
    lemma_inputs(job);
    what_a_job_says_decides(job);
    assert(emit_lines(sign_of(job), built) == emit_entry(job, built));
    assert(takes_from(job, inputs_of(job)));
}

proof fn lemma_some(jobs: Seq<(Str, WfJobView)>)
    ensures
        some_job(jobs, Signal::Build) <==> some_build(jobs),
        some_job(jobs, Signal::Publish) <==> some_publication(jobs),
{
    assert forall|i: int| 0 <= i < jobs.len() implies (sign_of((#[trigger] jobs[i]).1) == Some(
        Signal::Build,
    ) <==> says_build(jobs[i].1)) && (sign_of(jobs[i].1) == Some(Signal::Publish) <==> says_publish(
        jobs[i].1,
    )) by {
        what_a_job_says_decides(jobs[i].1);
    }
}

proof fn lemma_places(jobs: Seq<(Str, WfJobView)>, built: bool, n: int)
    requires
        0 <= n <= jobs.len(),
    ensures
        place_lines(jobs, built, n) == in_a_row(
            Seq::new(n as nat, |i: int| place_entry(jobs[i].0, jobs[i].1, built)),
        ),
    decreases n,
{
    let parts = Seq::new(n as nat, |i: int| place_entry(jobs[i].0, jobs[i].1, built));
    if n > 0 {
        lemma_places(jobs, built, n - 1);
        assert(parts.drop_last() =~= Seq::new(
            (n - 1) as nat,
            |i: int| place_entry(jobs[i].0, jobs[i].1, built),
        ));
        what_a_job_says_decides(jobs[n - 1].1);
        assert(parts.last() == place_entry(jobs[n - 1].0, jobs[n - 1].1, built));
    }
}

proof fn lemma_transitions(jobs: Seq<(Str, WfJobView)>, built: bool, n: int)
    requires
        0 <= n <= jobs.len(),
    ensures
        transitions_text(jobs, built, n) == in_a_row(
            Seq::new(n as nat, |i: int| transition_lines(jobs[i].0, jobs[i].1, built)),
        ),
    decreases n,
{
    let parts = Seq::new(n as nat, |i: int| transition_lines(jobs[i].0, jobs[i].1, built));
    if n > 0 {
        lemma_transitions(jobs, built, n - 1);
        assert(parts.drop_last() =~= Seq::new(
            (n - 1) as nat,
            |i: int| transition_lines(jobs[i].0, jobs[i].1, built),
        ));
    }
}

proof fn lemma_needs(jobs: Seq<(Str, WfJobView)>, n: int, name: Str)
    requires
        0 <= n <= jobs.len(),
    ensures
        needs_upto(jobs, n).contains(name) <==> exists|j: int|
            0 <= j < n && waits_for((#[trigger] jobs[j]).1, name),
    decreases n,
{
    if n > 0 {
        lemma_needs(jobs, n - 1, name);
        let job = jobs[n - 1].1;
        let more = crate::generate::needed(job.needs);
        lemma_concat_contains(needs_upto(jobs, n - 1), more, name);
        assert(more.contains(name) == waits_for(job, name)) by {
            match job.needs {
                NeedsView::One(s) => {
                    assert(more[0] == s);
                },
                NeedsView::Many(v) => {},
                NeedsView::Nothing => {},
            }
        }
    }
}

proof fn lemma_finals(jobs: Seq<(Str, WfJobView)>, n: int, p: Str)
    requires
        0 <= n <= jobs.len(),
    ensures
        final_names(jobs, n).contains(p) <==> exists|i: int|
            0 <= i < n && p == "p_"@ + id_for((#[trigger] jobs[i]).0) && !is_waited_for(
                jobs,
                jobs[i].0,
            ),
    decreases n,
{
    if n > 0 {
        lemma_finals(jobs, n - 1, p);
        lemma_needs(jobs, jobs.len() as int, jobs[n - 1].0);
        lemma_push_contains(final_names(jobs, n - 1), "p_"@ + id_for(jobs[n - 1].0), p);
    }
}

/// Whether these are the final places: those behind the jobs that no other job waits for.
pub open spec fn ends_in(jobs: Seq<(Str, WfJobView)>, finals: Seq<Str>) -> bool {
    forall|p: Str| #[trigger]
        finals.contains(p) <==> exists|i: int|
            0 <= i < jobs.len() && p == "p_"@ + id_for((#[trigger] jobs[i]).0) && !is_waited_for(
                jobs,
                jobs[i].0,
            )
}

/// A skeleton declares a place and a transition for each job, in order. A transition takes from
/// the places behind the jobs that its job waits for, and emits what the words of the job's
/// steps say: a job that says that it builds mints a digest and creates an artifact of it, one
/// that says that it publishes writes to a registry, and so on. The places behind the jobs that
/// nobody waits for are final. Publications are tied to builds where there are both.
pub proof fn what_a_skeleton_says(wf: WorkflowView)
    ensures
        exists|places: Seq<Str>, transitions: Seq<Str>, finals: Seq<Str>|
            #![trigger in_a_row(places), in_a_row(transitions), ends_in(wf.jobs, finals)]
            places.len() == wf.jobs.len() && transitions.len() == wf.jobs.len() && ends_in(
                wf.jobs,
                finals,
            ) && (forall|i: int|
                0 <= i < wf.jobs.len() ==> #[trigger] places[i] == place_entry(
                    wf.jobs[i].0,
                    wf.jobs[i].1,
                    some_build(wf.jobs),
                )) && (forall|i: int|
                0 <= i < wf.jobs.len() ==> is_transition_entry(
                    wf.jobs[i].0,
                    wf.jobs[i].1,
                    some_build(wf.jobs),
                    #[trigger] transitions[i],
                )) && generated(wf)
                == "# GENERATED SKELETON. Review every TODO before trusting a verdict.\n# The job graph and identities are inferred from the workflow file.\n# A human must still add: digests, effect arguments, and the\n# `requires_relation` links that actually catch tampering.\nspec_version: 1\nworkflow: "@
                + id_for(
                match wf.name {
                    Some(n) => n,
                    None => "workflow"@,
                },
            )
                + "\n\nprincipals:\n  gha_runner:\n    class: service_account\n    id_pattern: \"*\"        # TODO restrict to your bot identity\n\n"@
                + "places:\n  - id: start\n    tokens:\n      - { type: repository, value: \"*\" }\n"@
                + in_a_row(places) + "\nfinal: ["@ + joined(finals, ", "@)
                + "]\n\ntransitions:\n"@ + in_a_row(transitions) + (if some_build(wf.jobs)
                && some_publication(wf.jobs) {
                "relations:\n  derives_from:\n    from: registry_write\n    to: artifact_create\n    constraint: \"from.digest == to.digest\"\n"@
            } else {
                "# No build->publish pair detected, so no derives_from relation was\n# generated. This pipeline only reads and commits; anything it published\n# would be an effect with no producing transition, and rejected.\n"@
            }),
{
    let jobs = wf.jobs;
    let n = jobs.len() as int;
    let built = some_build(jobs);
    lemma_some(jobs);
    lemma_places(jobs, built, n);
    lemma_transitions(jobs, built, n);
    let places = Seq::new(n as nat, |i: int| place_entry(jobs[i].0, jobs[i].1, built));
    let transitions = Seq::new(n as nat, |i: int| transition_lines(jobs[i].0, jobs[i].1, built));
    let finals = final_names(jobs, n);
    assert forall|i: int| 0 <= i < n implies is_transition_entry(
        jobs[i].0,
        jobs[i].1,
        built,
        #[trigger] transitions[i],
    ) by {
        lemma_transition(jobs[i].0, jobs[i].1, built);
    }
    assert(ends_in(jobs, finals)) by {
        assert forall|p: Str| #[trigger]
            finals.contains(p) <==> exists|i: int|
                0 <= i < jobs.len() && p == "p_"@ + id_for((#[trigger] jobs[i]).0)
                    && !is_waited_for(jobs, jobs[i].0) by {
            lemma_finals(jobs, n, p);
        }
    }
    assert(in_a_row(places) == place_lines(jobs, built, n));
    assert(in_a_row(transitions) == transitions_text(jobs, built, n));
}

} // verus!
