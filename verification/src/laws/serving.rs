//! What the service makes of what it is asked.
use crate::adapters::{AdapterMapView, EffectRuleView, StepRuleView};
use crate::generate::{id_for, sign_of, WfJobView, WorkflowView};
use crate::github::FactView;
use crate::laws::generating::{
    says_build, says_checkout, says_publish, says_test, what_a_job_says_decides,
};
use crate::laws::texts::{
    a_number_is_written_in_decimal, a_text_is_found_where_it_first_stands, stands_at,
};
use crate::lint::DiagnosticView;
use crate::observation::{ObservationView, RecordView};
use crate::ordered::{
    a_lookup_gives_back_what_was_put, lemma_put_items_contains, lookup, put, sorted_set,
};
use crate::search::lemma_push_contains;
use crate::service::{
    asked_for, best_upto, chosen, count_in, covered_upto, digits_in, finding_lines, is_digit,
    is_safe, job_rule, job_rules, map_for, named_steps, named_upto, number_in, position_from,
    registration, rules_for, spec_name, suits, tampered, without_suffixes,
};
use crate::text::{decimal, digit, occurs_at, Str};
use vstd::prelude::*;
use vstd::utf8::encode_utf8;

verus! {

// ---------------------------------------------------------------------------
// Ids and numbers
// ---------------------------------------------------------------------------
/// An id is safe exactly where it has one to 128 characters, each a letter, a digit, a dash, an
/// underscore or a dot, is not a dot alone, and has no two dots in a row.
pub proof fn when_an_id_is_safe(id: Str)
    ensures
        is_safe(id) <==> {
            &&& 0 < id.len() <= 128
            &&& id != seq!['.']
            &&& forall|i: int|
                0 <= i < id.len() ==> ({
                    let c = #[trigger] id[i];
                    ('a' <= c && c <= 'z') || ('A' <= c && c <= 'Z') || ('0' <= c && c <= '9') || c
                        == '-' || c == '_' || c == '.'
                })
            &&& forall|i: int, j: int|
                0 <= i && j == i + 1 && j < id.len() ==> !(#[trigger] id[i] == '.'
                    && #[trigger] id[j] == '.')
        },
{
    reveal_strlit(".");
    reveal_strlit("..");
    assert("."@ =~= seq!['.']);
    a_text_is_found_where_it_first_stands(id, ".."@);
    assert((crate::text::found(id, ".."@) is None) == (forall|i: int, j: int|
        0 <= i && j == i + 1 && j < id.len() ==> !(#[trigger] id[i] == '.' && #[trigger] id[j]
            == '.'))) by {
        if crate::text::found(id, ".."@) is None {
            assert forall|i: int, j: int| 0 <= i && j == i + 1 && j < id.len() implies !(
            #[trigger] id[i] == '.' && #[trigger] id[j] == '.') by {
                if id[i] == '.' && id[j] == '.' {
                    assert(stands_at(id, ".."@, i)) by {
                        assert forall|k: int| 0 <= k < ".."@.len() implies id[i + k]
                            == #[trigger] ".."@[k] by {
                            assert(k == 0 || k == 1);
                        }
                    }
                }
            }
        } else {
            let i = crate::text::found(id, ".."@)->0;
            assert(stands_at(id, ".."@, i));
            assert(id[i + 0] == ".."@[0]);
            assert(id[i + 1] == ".."@[1]);
            assert(id[i] == '.' && id[i + 1] == '.');
        }
    }
}

proof fn lemma_decimal_digits(n: nat)
    ensures
        decimal(n).len() > 0,
        forall|i: int| 0 <= i < decimal(n).len() ==> is_digit(#[trigger] decimal(n)[i]),
        number_in(decimal(n)) == n,
    decreases n,
{
    if n < 10 {
        a_number_is_written_in_decimal(0, n);
        let s = decimal(n);
        assert(s == seq![digit(n)]);
        assert(s.drop_last() =~= Seq::<char>::empty());
        assert(number_in(s.drop_last()) == 0);
    } else {
        let q = n / 10;
        let r = n % 10;
        lemma_decimal_digits(q);
        a_number_is_written_in_decimal(q, r);
        let s = decimal(n);
        assert(s == decimal(q).push(digit(r)));
        assert(s.drop_last() =~= decimal(q));
        assert forall|i: int| 0 <= i < s.len() implies is_digit(#[trigger] s[i]) by {
            if i < decimal(q).len() {
                assert(s[i] == decimal(q)[i]);
            }
        }
    }
}

/// A number that is asked for is read from its decimal digits, with or without a plus sign
/// before them; anything else, or a number that is too large, counts as not asked for.
pub proof fn a_count_is_read_from_its_digits(n: nat, s: Str, default: nat)
    ensures
        n <= usize::MAX ==> count_in(decimal(n)) == Some(n) && asked_for(Some(decimal(n)), default)
            == n,
        n <= usize::MAX ==> count_in(seq!['+'] + decimal(n)) == Some(n),
        n > usize::MAX ==> count_in(decimal(n)) is None && asked_for(Some(decimal(n)), default)
            == default,
        s.len() == 0 ==> count_in(s) is None,
        (exists|i: int|
            0 <= i < s.len() && (i > 0 || s[i] != '+') && !('0' <= #[trigger] s[i] && s[i] <= '9'))
            ==> count_in(s) is None && asked_for(Some(s), default) == default,
        asked_for(None, default) == default,
{
    lemma_decimal_digits(n);
    assert(decimal(n)[0] != '+');
    assert((seq!['+'] + decimal(n)).drop_first() =~= decimal(n));
    if exists|i: int|
        0 <= i < s.len() && (i > 0 || s[i] != '+') && !('0' <= #[trigger] s[i] && s[i] <= '9') {
        let i = choose|i: int|
            0 <= i < s.len() && (i > 0 || s[i] != '+') && !('0' <= #[trigger] s[i] && s[i] <= '9');
        let d = digits_in(s);
        if s[0] == '+' {
            assert(d[i - 1] == s[i]);
            assert(!is_digit(d[i - 1]));
        } else {
            assert(!is_digit(d[i]));
        }
    }
}

/// A file is a specification where its name ends as one, and is then called by what comes
/// before that.
pub proof fn a_specification_is_named_after_its_file(name: Str, file: Str)
    ensures
        !stands_at(name, ".wsl.yaml"@, name.len() - ".wsl.yaml"@.len()) ==> spec_name(
            name + ".wsl.yaml"@,
        ) == Some(name),
        spec_name(file) is Some <==> stands_at(
            file,
            ".wsl.yaml"@,
            file.len() - ".wsl.yaml"@.len(),
        ),
{
    let end = ".wsl.yaml"@;
    reveal_strlit(".wsl.yaml");
    let full = name + end;
    lemma_ends(file, end, file.len() - end.len());
    lemma_ends(full, end, full.len() - end.len());
    lemma_ends(name, end, name.len() - end.len());
    assert(stands_at(full, end, name.len() as int));
    assert(full.take(name.len() as int) =~= name);
    assert(full.len() - end.len() == name.len());
    assert(occurs_at(full, end, full.len() - end.len()));
    if !stands_at(name, end, name.len() - end.len()) {
        assert(without_suffixes(name, end) == name);
        assert(without_suffixes(full, end) == without_suffixes(
            full.take(full.len() - end.len()),
            end,
        ));
    }
}

proof fn lemma_ends(s: Str, p: Str, i: int)
    ensures
        occurs_at(s, p, i) <==> stands_at(s, p, i),
{
    if occurs_at(s, p, i) {
        assert forall|k: int| 0 <= k < p.len() implies s[i + k] == #[trigger] p[k] by {
            assert(s.subrange(i, i + p.len())[k] == s[i + k]);
        }
    }
    if stands_at(s, p, i) {
        assert(s.subrange(i, i + p.len()) =~= p);
    }
}

// ---------------------------------------------------------------------------
// Onboarding
// ---------------------------------------------------------------------------
/// Whether these are the effects that a job is taken to have, by what its steps say.
pub open spec fn is_taken_to_do(job: WfJobView, effects: Seq<EffectRuleView>) -> bool {
    if says_publish(job) {
        effects.len() == 1 && effects[0].kind == "registry_write"@ && asks(
            effects[0].args,
            Some("registry://prod/${repository_name}"@),
            Some("${outputs.digest}"@),
        )
    } else if says_build(job) {
        effects.len() == 1 && effects[0].kind == "artifact_create"@ && asks(
            effects[0].args,
            None,
            Some("${outputs.digest}"@),
        )
    } else if says_test(job) {
        effects.len() == 1 && effects[0].kind == "ci_report"@ && asks(
            effects[0].args,
            None,
            Some("${outputs.digest}"@),
        )
    } else if says_checkout(job) {
        effects.len() == 1 && effects[0].kind == "vcs_read"@ && asks(
            effects[0].args,
            Some("repo/${repository_name}"@),
            None,
        )
    } else {
        effects.len() == 0
    }
}

/// Whether arguments ask for this scope and this digest, and for nothing else.
pub open spec fn asks(args: Seq<(Str, Str)>, scope: Option<Str>, digest: Option<Str>) -> bool {
    &&& lookup(args, "scope"@) == scope
    &&& lookup(args, "digest"@) == digest
    &&& forall|k: Str| (#[trigger] lookup(args, k)) is Some ==> k == "scope"@ || k == "digest"@
}

proof fn lemma_rules(job: WfJobView)
    ensures
        is_taken_to_do(job, rules_for(sign_of(job))),
{
    reveal_strlit("scope");
    reveal_strlit("digest");
    assert("scope"@.len() == 5 && "digest"@.len() == 6);
    what_a_job_says_decides(job);
    let none = Seq::<(Str, Str)>::empty();
    let d = put(none, "digest"@, "${outputs.digest}"@);
    let r = put(none, "scope"@, "repo/${repository_name}"@);
    let p = put(none, "scope"@, "registry://prod/${repository_name}"@);
    let both = put(p, "digest"@, "${outputs.digest}"@);
    assert forall|k: Str|
        (#[trigger] lookup(d, k)) == (if k == "digest"@ {
            Some("${outputs.digest}"@)
        } else {
            None
        }) by {
        a_lookup_gives_back_what_was_put(none, "digest"@, "${outputs.digest}"@, k);
    }
    assert forall|k: Str|
        (#[trigger] lookup(r, k)) == (if k == "scope"@ {
            Some("repo/${repository_name}"@)
        } else {
            None
        }) by {
        a_lookup_gives_back_what_was_put(none, "scope"@, "repo/${repository_name}"@, k);
    }
    assert forall|k: Str|
        (#[trigger] lookup(both, k)) == (if k == "digest"@ {
            Some("${outputs.digest}"@)
        } else if k == "scope"@ {
            Some("registry://prod/${repository_name}"@)
        } else {
            None
        }) by {
        a_lookup_gives_back_what_was_put(
            none,
            "scope"@,
            "registry://prod/${repository_name}"@,
            k,
        );
        a_lookup_gives_back_what_was_put(p, "digest"@, "${outputs.digest}"@, k);
    }
}

proof fn lemma_job_rules(jobs: Seq<(Str, WfJobView)>, n: int, name: Str)
    requires
        0 <= n <= jobs.len(),
    ensures
        lookup(job_rules(jobs, n), name) matches Some(rule) ==> exists|i: int|
            0 <= i < n && (#[trigger] jobs[i]).0 == name && rule == job_rule(name, jobs[i].1)
                && forall|j: int| i < j < n ==> (#[trigger] jobs[j]).0 != name,
        lookup(job_rules(jobs, n), name) is None ==> forall|i: int|
            0 <= i < n ==> (#[trigger] jobs[i]).0 != name,
    decreases n,
{
    if n > 0 {
        lemma_job_rules(jobs, n - 1, name);
        a_lookup_gives_back_what_was_put(
            job_rules(jobs, n - 1),
            jobs[n - 1].0,
            job_rule(jobs[n - 1].0, jobs[n - 1].1),
            name,
        );
        if jobs[n - 1].0 == name {
            assert(jobs[n - 1].0 == name);
        }
    }
}

/// Onboarding a workflow maps each of its jobs, and no other, to the step of its name with the
/// effects that its words say; all else in the map stays.
pub proof fn what_onboarding_maps(base: AdapterMapView, wf: WorkflowView, name: Str)
    ensures
        lookup(map_for(base, wf).jobs, name) matches Some(rule) ==> exists|i: int|
            0 <= i < wf.jobs.len() && (#[trigger] wf.jobs[i]).0 == name && rule.step == id_for(name)
                && is_taken_to_do(wf.jobs[i].1, rule.effects) && forall|j: int|
                i < j < wf.jobs.len() ==> (#[trigger] wf.jobs[j]).0 != name,
        lookup(map_for(base, wf).jobs, name) is None ==> forall|i: int|
            0 <= i < wf.jobs.len() ==> (#[trigger] wf.jobs[i]).0 != name,
        map_for(base, wf).planes == base.planes,
        map_for(base, wf).runner_principal == base.runner_principal,
        map_for(base, wf).registry_actions == base.registry_actions,
        map_for(base, wf).audit_actions == base.audit_actions,
{
    let n = wf.jobs.len() as int;
    lemma_job_rules(wf.jobs, n, name);
    if lookup(map_for(base, wf).jobs, name) is Some {
        let rule = lookup(map_for(base, wf).jobs, name)->0;
        let i = choose|i: int|
            0 <= i < n && (#[trigger] wf.jobs[i]).0 == name && rule == job_rule(
                name,
                wf.jobs[i].1,
            ) && forall|j: int| i < j < n ==> (#[trigger] wf.jobs[j]).0 != name;
        lemma_rules(wf.jobs[i].1);
        assert(wf.jobs[i].0 == name);
    }
}

// ---------------------------------------------------------------------------
// The registry
// ---------------------------------------------------------------------------
/// A specification is taken in where its name has one to 200 bytes and there is room for it;
/// there is always room for one that is known, and one that is not sound takes none.
pub proof fn when_a_specification_is_registered(
    name: Str,
    is_sound: bool,
    count: int,
    known: bool,
)
    ensures
        registration(name, is_sound, count, known) is Err <==> name.len() == 0 || encode_utf8(
            name,
        ).len() > 200 || (is_sound && !known && count >= 256),
        registration(name, is_sound, count, known) matches Ok(kept) ==> kept == is_sound,
        registration(name, is_sound, count, known) matches Err(why) ==> if name.len() == 0
            || encode_utf8(name).len() > 200 {
            why == "spec name must be 1..200 characters"@
        } else {
            why == "spec registry is full"@
        },
{
}

/// The findings of a report are listed in order, each as its code and its message.
pub proof fn findings_are_listed_with_their_codes(ds: Seq<DiagnosticView>, n: int)
    requires
        0 <= n <= ds.len(),
    ensures
        finding_lines(ds, n).len() == n,
        forall|i: int|
            0 <= i < n ==> #[trigger] finding_lines(ds, n)[i] == ds[i].code + " "@ + ds[i].message,
    decreases n,
{
    if n > 0 {
        findings_are_listed_with_their_codes(ds, n - 1);
    }
}

/// Tampering gives the facts of one step another digest and takes their provenance away; all
/// else stays.
pub proof fn what_tampering_changes(facts: Seq<FactView>, step: Str, digest: Str, i: int)
    requires
        0 <= i < facts.len(),
    ensures
        tampered(facts, step, digest).len() == facts.len(),
        tampered(facts, step, digest)[i].step == facts[i].step,
        tampered(facts, step, digest)[i].scope == facts[i].scope,
        facts[i].step == step ==> tampered(facts, step, digest)[i].digest == Some(digest)
            && tampered(facts, step, digest)[i].provenance is None,
        facts[i].step != step ==> tampered(facts, step, digest)[i] == facts[i],
{
}

// ---------------------------------------------------------------------------
// Choosing a specification
// ---------------------------------------------------------------------------
proof fn lemma_named(rs: Seq<RecordView>, n: int, step: Str)
    requires
        0 <= n <= rs.len(),
    ensures
        named_upto(rs, n).contains(step) <==> exists|i: int|
            0 <= i < n && (#[trigger] rs[i]).step == Some(step),
    decreases n,
{
    if n > 0 {
        lemma_named(rs, n - 1, step);
        if rs[n - 1].step is Some {
            lemma_push_contains(named_upto(rs, n - 1), rs[n - 1].step->0, step);
        }
    }
}

/// The steps of an observation are those that some record claims.
pub proof fn the_steps_that_are_named(obs: ObservationView, step: Str)
    ensures
        named_steps(obs).contains(step) <==> exists|i: int|
            0 <= i < obs.records.len() && (#[trigger] obs.records[i]).step == Some(step),
{
    lemma_named(obs.records, obs.records.len() as int, step);
    lemma_put_items_contains(
        Seq::empty(),
        named_upto(obs.records, obs.records.len() as int),
        step,
    );
}

/// A step is covered where a transition has its name; each covered step counts once.
pub proof fn covered_steps_are_counted(names: Seq<Str>, ids: Seq<Str>, n: int)
    requires
        0 <= n <= names.len(),
    ensures
        covered_upto(names, ids, n) <= n,
        covered_upto(names, ids, n) == 0 <==> forall|i: int|
            0 <= i < n ==> !ids.contains(#[trigger] names[i]),
        covered_upto(names, ids, n) == n <==> forall|i: int|
            0 <= i < n ==> ids.contains(#[trigger] names[i]),
        n > 0 ==> covered_upto(names, ids, n) - covered_upto(names, ids, n - 1) == (if ids.contains(
            names[n - 1],
        ) {
            1int
        } else {
            0
        }),
    decreases n,
{
    if n > 0 {
        covered_steps_are_counted(names, ids, n - 1);
    }
}

/// A specification suits where one of its transitions has the name of a step. It suits the
/// better, ten for each step that it covers, and the worse, one for each transition that it has
/// beyond as many.
pub proof fn how_well_a_specification_suits(steps: Seq<Str>, transitions: Seq<Str>)
    ensures
        suits(steps, transitions) is Some <==> exists|i: int|
            0 <= i < steps.len() && transitions.contains(#[trigger] steps[i]),
        ({
            let ids = sorted_set(transitions);
            let covered = covered_upto(steps, ids, steps.len() as int) as int;
            suits(steps, transitions) matches Some(score) ==> (ids.len() >= covered ==> score == 11
                * covered - ids.len()) && (ids.len() < covered ==> score == 10 * covered)
        }),
{
    let ids = sorted_set(transitions);
    covered_steps_are_counted(steps, ids, steps.len() as int);
    assert forall|s: Str| ids.contains(s) == #[trigger] transitions.contains(s) by {
        lemma_put_items_contains(Seq::empty(), transitions, s);
    }
}

proof fn lemma_position(names: Seq<Str>, name: Str, i: int)
    requires
        0 <= i,
    ensures
        position_from(names, name, i) is None <==> forall|j: int|
            i <= j < names.len() ==> #[trigger] names[j] != name,
        position_from(names, name, i) matches Some(p) ==> i <= p < names.len() && names[p] == name
            && forall|j: int| i <= j < p ==> #[trigger] names[j] != name,
    decreases names.len() - i,
{
    if i < names.len() && names[i] != name {
        lemma_position(names, name, i + 1);
    }
}

proof fn lemma_best(steps: Seq<Str>, candidates: Seq<Seq<Str>>, n: int)
    requires
        0 <= n <= candidates.len(),
    ensures
        best_upto(steps, candidates, n) is None <==> forall|i: int|
            0 <= i < n ==> suits(steps, #[trigger] candidates[i]) is None,
        best_upto(steps, candidates, n) matches Some(b) ==> 0 <= b.0 < n && suits(
            steps,
            candidates[b.0],
        ) == Some(b.1) && (forall|i: int|
            0 <= i < n ==> (suits(steps, #[trigger] candidates[i]) matches Some(score) ==> score
                <= b.1)) && (forall|i: int|
            0 <= i < b.0 ==> (suits(steps, #[trigger] candidates[i]) matches Some(score) ==> score
                < b.1)),
    decreases n,
{
    if n > 0 {
        lemma_best(steps, candidates, n - 1);
    }
}

/// The specification that is asked for by name is taken, the first of that name. Where none is
/// asked for, or none has that name, the first of those that suit best is taken; where none
/// suits, the first that is called `release`; and else the first of all.
pub proof fn which_specification_is_chosen(
    names: Seq<Str>,
    transitions: Seq<Seq<Str>>,
    asked: Option<Str>,
    obs: ObservationView,
)
    ensures
        ({
            let c = chosen(names, transitions, asked, obs);
            let steps = named_steps(obs);
            if asked is Some && names.contains(asked->0) {
                0 <= c < names.len() && names[c] == asked->0 && forall|j: int|
                    0 <= j < c ==> #[trigger] names[j] != asked->0
            } else if exists|i: int|
                0 <= i < transitions.len() && suits(steps, #[trigger] transitions[i]) is Some {
                0 <= c < transitions.len() && suits(steps, transitions[c]) is Some && (forall|i: int|
                    0 <= i < transitions.len() ==> (suits(steps, #[trigger] transitions[i])
                        matches Some(score) ==> score <= suits(steps, transitions[c])->0)) && (
                forall|i: int|
                    0 <= i < c ==> (suits(steps, #[trigger] transitions[i]) matches Some(score)
                        ==> score < suits(steps, transitions[c])->0))
            } else if names.contains("release"@) {
                0 <= c < names.len() && names[c] == "release"@ && forall|j: int|
                    0 <= j < c ==> #[trigger] names[j] != "release"@
            } else {
                c == 0
            }
        }),
{
    lemma_best(named_steps(obs), transitions, transitions.len() as int);
    lemma_position(names, "release"@, 0);
    if asked is Some {
        lemma_position(names, asked->0, 0);
        if names.contains(asked->0) {
            let i = names.index_of(asked->0);
            assert(names[i] == asked->0);
        }
    }
    if names.contains("release"@) {
        let i = names.index_of("release"@);
        assert(names[i] == "release"@);
    }
}

} // verus!
