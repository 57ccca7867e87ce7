//! What an imported run is observed to have done.
use crate::adapters::{
    all_shown, in_order, ordering_keeps_every_record, substituted, AdapterMapView, EffectRuleView,
    StepRuleView,
};
use crate::github::{
    context_of, counts_as, fact_from, facts_in, gathered, inner_name, normalized_run, record_of, rule_for,
    rule_from, slug_of, slugged, told_as, FactView, FactsView, JobView, JobsView, RunView,
};
use crate::laws::texts::{a_cut_parts_a_text_at_its_first_mark, first_behind, stands_at};
use crate::observation::{EffectInstanceView, RecordView};
use crate::ordered::{a_lookup_gives_back_what_was_put, lemma_put_item_contains, lookup, put};
use crate::search::lemma_push_contains;
use crate::text::{
    ascii_lower, before, cut, decimal, head_piece, is_alphanumeric, stripped, tail_piece, trimmed,
    Str,
};
use vstd::prelude::*;

verus! {

// ---------------------------------------------------------------------------
// Templates
// ---------------------------------------------------------------------------
/// A template without a placeholder is taken as it is.
pub proof fn plain_text_is_taken_as_it_is(template: Str, context: Seq<(Str, Str)>)
    requires
        forall|i: int| !(#[trigger] stands_at(template, "${"@, i)),
    ensures
        substituted(template, context) == template,
{
    a_cut_parts_a_text_at_its_first_mark(Seq::empty(), "${"@, Seq::empty(), template);
}

/// A placeholder gives the value of its key, or says that there is none; what stands before it
/// is taken as it is, and what stands behind it is treated in the same way.
pub proof fn a_placeholder_gives_the_value_of_its_key(
    head: Str,
    key: Str,
    rest: Str,
    context: Seq<(Str, Str)>,
)
    requires
        forall|i: int| 0 <= i < head.len() ==> !(#[trigger] stands_at(head, "${"@, i)),
        !key.contains('}'),
    ensures
        lookup(context, key) matches Some(v) ==> substituted(
            head + "${"@ + key + "}"@ + rest,
            context,
        ) == head + v + substituted(rest, context),
        lookup(context, key) is None ==> substituted(
            head + "${"@ + key + "}"@ + rest,
            context,
        ) == head + ("<unresolved:"@ + key + ">"@) + substituted(rest, context),
{
    reveal_strlit("${");
    reveal_strlit("}");
    let tail = key + "}"@ + rest;
    let s = head + "${"@ + tail;
    assert(head + "${"@ + key + "}"@ + rest =~= s);
    assert(first_behind(head, "${"@, tail)) by {
        assert forall|k: int| 0 <= k < head.len() implies !(#[trigger] stands_at(s, "${"@, k)) by {
            if stands_at(s, "${"@, k) {
                assert(s[k + 0] == "${"@[0]);
                assert(s[k + 1] == "${"@[1]);
                if k + 1 < head.len() {
                    assert(stands_at(head, "${"@, k));
                } else {
                    assert(s[k + 1] == "${"@[0]);
                }
            }
        }
    }
    a_cut_parts_a_text_at_its_first_mark(head, "${"@, tail, Seq::empty());
    assert(first_behind(key, "}"@, rest)) by {
        assert forall|k: int| 0 <= k < key.len() implies !(#[trigger] stands_at(
            tail,
            "}"@,
            k,
        )) by {
            if stands_at(tail, "}"@, k) {
                assert(tail[k + 0] == "}"@[0]);
                assert(key[k] == '}');
                assert(key.contains('}'));
            }
        }
    }
    a_cut_parts_a_text_at_its_first_mark(key, "}"@, rest, Seq::empty());
    assert(rest.len() < s.len());
}

/// A placeholder that is never closed is taken as it is.
pub proof fn an_open_placeholder_is_taken_as_it_is(
    head: Str,
    tail: Str,
    context: Seq<(Str, Str)>,
)
    requires
        forall|i: int| 0 <= i < head.len() ==> !(#[trigger] stands_at(head, "${"@, i)),
        !tail.contains('}'),
    ensures
        substituted(head + "${"@ + tail, context) == head + "${"@ + tail,
{
    reveal_strlit("${");
    reveal_strlit("}");
    let s = head + "${"@ + tail;
    assert(first_behind(head, "${"@, tail)) by {
        assert forall|k: int| 0 <= k < head.len() implies !(#[trigger] stands_at(s, "${"@, k)) by {
            if stands_at(s, "${"@, k) {
                assert(s[k + 0] == "${"@[0]);
                assert(s[k + 1] == "${"@[1]);
                if k + 1 < head.len() {
                    assert(stands_at(head, "${"@, k));
                } else {
                    assert(s[k + 1] == "${"@[0]);
                }
            }
        }
    }
    a_cut_parts_a_text_at_its_first_mark(head, "${"@, tail, tail);
    assert forall|k: int| !(#[trigger] stands_at(tail, "}"@, k)) by {
        if stands_at(tail, "}"@, k) {
            assert(tail[k + 0] == "}"@[0]);
            assert(tail.contains('}'));
        }
    }
    a_cut_parts_a_text_at_its_first_mark(Seq::empty(), "}"@, Seq::empty(), tail);
}

/// Whether effects are those that rules say, with the values of `context` in their arguments.
pub open spec fn shows(
    rules: Seq<EffectRuleView>,
    context: Seq<(Str, Str)>,
    id: Str,
    effects: Seq<EffectInstanceView>,
) -> bool {
    &&& effects.len() == rules.len()
    &&& forall|k: int|
        0 <= k < rules.len() ==> (#[trigger] effects[k]).id == id + "."@ + decimal(k as nat)
            && effects[k].kind == rules[k].kind && effects[k].args.len() == rules[k].args.len()
    &&& forall|k: int, j: int|
        #![trigger effects[k].args[j]]
        0 <= k < rules.len() && 0 <= j < rules[k].args.len() ==> effects[k].args[j].0
            == rules[k].args[j].0 && effects[k].args[j].1 == substituted(
            rules[k].args[j].1,
            context,
        )
}

// ---------------------------------------------------------------------------
// What a job is known by
// ---------------------------------------------------------------------------
/// The fact that is told of a job: the first that names it, or the part of its name behind the
/// last slash.
pub open spec fn is_told_of(facts: Seq<FactView>, name: Str, fact: Option<FactView>) -> bool {
    match fact {
        Some(f) => exists|i: int|
            0 <= i < facts.len() && #[trigger] facts[i] == f && names_job(f, name) && forall|
                j: int,
            |
                0 <= j < i ==> !names_job(#[trigger] facts[j], name),
        None => forall|j: int| 0 <= j < facts.len() ==> !names_job(#[trigger] facts[j], name),
    }
}

/// Whether a fact names a job.
pub open spec fn names_job(f: FactView, name: Str) -> bool {
    f.step == name || f.step == trimmed(tail_piece(name, '/'))
}

proof fn lemma_fact(facts: Seq<FactView>, name: Str, i: int)
    requires
        0 <= i,
        forall|j: int| 0 <= j < i && j < facts.len() ==> !names_job(#[trigger] facts[j], name),
    ensures
        is_told_of(facts, name, fact_from(facts, name, i)),
    decreases facts.len() - i,
{
    if i < facts.len() {
        if names_job(facts[i], name) {
            assert(facts[i] == facts[i]);
        } else {
            lemma_fact(facts, name, i + 1);
        }
    }
}

/// Whether a table says of a job what is known of it, and nothing else: who started the run,
/// where, on what commit, which job, when, and the digest and the scope that a fact tells.
pub open spec fn says(
    c: Seq<(Str, Str)>,
    run: RunView,
    job: JobView,
    fact: Option<FactView>,
) -> bool {
    &&& lookup(c, "actor"@) == Some(
        match run.actor {
            Some(a) => a.login,
            None => "unknown"@,
        },
    )
    &&& lookup(c, "repository"@) == Some(
        match run.repository {
            Some(r) => r.full_name,
            None => Seq::empty(),
        },
    )
    &&& lookup(c, "repository_name"@) == Some(
        match run.repository {
            Some(r) => tail_piece(r.full_name, '/'),
            None => Seq::empty(),
        },
    )
    &&& lookup(c, "job"@) == Some(job.name)
    &&& lookup(c, "commit"@) == Some(run.head_sha)
    &&& lookup(c, "ts"@) == Some(job.started_at)
    &&& lookup(c, "digest"@) == (match fact {
        Some(f) => f.digest,
        None => None,
    })
    &&& lookup(c, "outputs.digest"@) == (match fact {
        Some(f) => f.digest,
        None => None,
    })
    &&& lookup(c, "scope"@) == (match fact {
        Some(f) => f.scope,
        None => None,
    })
    &&& lookup(c, "outputs.scope"@) == (match fact {
        Some(f) => f.scope,
        None => None,
    })
    &&& forall|k: Str|
        (#[trigger] lookup(c, k)) is Some ==> k == "actor"@ || k == "repository"@ || k
            == "repository_name"@ || k == "job"@ || k == "commit"@ || k == "ts"@ || k == "digest"@
            || k == "outputs.digest"@ || k == "scope"@ || k == "outputs.scope"@
}

proof fn lemma_names_differ()
    ensures
        ("actor"@).len() == 5 && ("actor"@)[0] == 'a',
        ("repository"@).len() == 10,
        ("repository_name"@).len() == 15,
        ("job"@).len() == 3,
        ("commit"@).len() == 6 && ("commit"@)[0] == 'c',
        ("ts"@).len() == 2,
        ("digest"@).len() == 6 && ("digest"@)[0] == 'd',
        ("outputs.digest"@).len() == 14,
        ("scope"@).len() == 5 && ("scope"@)[0] == 's',
        ("outputs.scope"@).len() == 13,
{
    reveal_strlit("actor");
    reveal_strlit("repository");
    reveal_strlit("repository_name");
    reveal_strlit("job");
    reveal_strlit("commit");
    reveal_strlit("ts");
    reveal_strlit("digest");
    reveal_strlit("outputs.digest");
    reveal_strlit("scope");
    reveal_strlit("outputs.scope");
}

proof fn lemma_told_as(c: Seq<(Str, Str)>, short: Str, long: Str, value: Option<Str>, k: Str)
    requires
        short != long,
    ensures
        lookup(told_as(c, short, long, value), k) == (if value is Some && (k == short || k
            == long) {
            value
        } else {
            lookup(c, k)
        }),
{
    if value is Some {
        a_lookup_gives_back_what_was_put(c, short, value->0, k);
        a_lookup_gives_back_what_was_put(put(c, short, value->0), long, value->0, k);
    }
}

proof fn lemma_says(run: RunView, job: JobView, fact: Option<FactView>)
    ensures
        says(context_of(run, job, fact), run, job, fact),
{
    lemma_names_differ();
    let actor = crate::github::actor_of(run);
    let repo = crate::github::repository_of(run);
    let c0 = Seq::<(Str, Str)>::empty();
    let c1 = put(c0, "actor"@, actor);
    let c2 = put(c1, "repository"@, repo);
    let c3 = put(c2, "repository_name"@, tail_piece(repo, '/'));
    let c4 = put(c3, "job"@, job.name);
    let c5 = put(c4, "commit"@, run.head_sha);
    let c6 = put(c5, "ts"@, job.started_at);
    let c = context_of(run, job, fact);
    assert(run.repository is None ==> tail_piece(repo, '/') =~= Seq::<char>::empty());
    assert forall|k: Str| lookup(c6, k) == (if k == "actor"@ {
        Some(actor)
    } else if k == "repository"@ {
        Some(repo)
    } else if k == "repository_name"@ {
        Some(tail_piece(repo, '/'))
    } else if k == "job"@ {
        Some(job.name)
    } else if k == "commit"@ {
        Some(run.head_sha)
    } else if k == "ts"@ {
        Some(job.started_at)
    } else {
        None
    }) by {
        a_lookup_gives_back_what_was_put(c0, "actor"@, actor, k);
        a_lookup_gives_back_what_was_put(c1, "repository"@, repo, k);
        a_lookup_gives_back_what_was_put(c2, "repository_name"@, tail_piece(repo, '/'), k);
        a_lookup_gives_back_what_was_put(c3, "job"@, job.name, k);
        a_lookup_gives_back_what_was_put(c4, "commit"@, run.head_sha, k);
        a_lookup_gives_back_what_was_put(c5, "ts"@, job.started_at, k);
    }
    match fact {
        Some(f) => {
            let c7 = told_as(c6, "digest"@, "outputs.digest"@, f.digest);
            assert forall|k: Str| (#[trigger] lookup(c, k)) == (if (k == "scope"@ || k
                == "outputs.scope"@) && f.scope is Some {
                f.scope
            } else if (k == "digest"@ || k == "outputs.digest"@) && f.digest is Some {
                f.digest
            } else {
                lookup(c6, k)
            }) by {
                lemma_told_as(c6, "digest"@, "outputs.digest"@, f.digest, k);
                lemma_told_as(c7, "scope"@, "outputs.scope"@, f.scope, k);
            }
        },
        None => {},
    }
}

/// The facts of a file are those that it lists, and none where it lists none.
pub proof fn facts_are_those_that_are_listed(facts: Seq<FactView>)
    ensures
        facts_in(FactsView::List(facts)) == facts,
        facts_in(FactsView::Absent).len() == 0,
{
}

// ---------------------------------------------------------------------------
// Which rule a job falls under
// ---------------------------------------------------------------------------
proof fn lemma_rule_from(jobs: Seq<(Str, StepRuleView)>, want: Str, head: Str, i: int)
    requires
        0 <= i,
    ensures
        rule_from(jobs, want, head, i) is None <==> forall|j: int|
            i <= j < jobs.len() ==> slug_of((#[trigger] jobs[j]).0) != want && slug_of(jobs[j].0)
                != head,
        rule_from(jobs, want, head, i) matches Some(r) ==> exists|j: int|
            i <= j < jobs.len() && (#[trigger] jobs[j]).1 == r && (slug_of(jobs[j].0) == want
                || slug_of(jobs[j].0) == head) && forall|k: int|
                i <= k < j ==> slug_of((#[trigger] jobs[k]).0) != want && slug_of(jobs[k].0)
                    != head,
    decreases jobs.len() - i,
{
    if i < jobs.len() {
        if slug_of(jobs[i].0) == want || slug_of(jobs[i].0) == head {
            assert(jobs[i].1 == jobs[i].1);
        } else {
            lemma_rule_from(jobs, want, head, i + 1);
            if rule_from(jobs, want, head, i) is Some {
                let r = rule_from(jobs, want, head, i)->0;
                let j = choose|j: int|
                    i + 1 <= j < jobs.len() && (#[trigger] jobs[j]).1 == r && (slug_of(jobs[j].0)
                        == want || slug_of(jobs[j].0) == head) && forall|k: int|
                        i + 1 <= k < j ==> slug_of((#[trigger] jobs[k]).0) != want && slug_of(
                            jobs[k].0,
                        ) != head;
                assert(jobs[j].1 == r);
            }
        }
    }
}

/// The rule of a job is the one under its name; else the one under the part of it behind the
/// last slash; else the one under that part up to a bracket; else the first whose name has the
/// same slug as that, or as what stands before the first slash.
pub proof fn a_job_falls_under_one_rule(map: AdapterMapView, name: Str)
    ensures
        ({
            let inner = trimmed(tail_piece(name, '/'));
            let base = trimmed(head_piece(inner, " ("@));
            let want = slug_of(base);
            let head = slug_of(trimmed(head_piece(name, "/"@)));
            if lookup(map.jobs, name) is Some {
                rule_for(map, name) == lookup(map.jobs, name)
            } else if lookup(map.jobs, inner) is Some {
                rule_for(map, name) == lookup(map.jobs, inner)
            } else if lookup(map.jobs, base) is Some {
                rule_for(map, name) == lookup(map.jobs, base)
            } else {
                &&& rule_for(map, name) is None <==> forall|j: int|
                    0 <= j < map.jobs.len() ==> slug_of((#[trigger] map.jobs[j]).0) != want
                        && slug_of(map.jobs[j].0) != head
                &&& rule_for(map, name) matches Some(r) ==> exists|j: int|
                    0 <= j < map.jobs.len() && (#[trigger] map.jobs[j]).1 == r && (slug_of(
                        map.jobs[j].0,
                    ) == want || slug_of(map.jobs[j].0) == head) && forall|k: int|
                        0 <= k < j ==> slug_of((#[trigger] map.jobs[k]).0) != want && slug_of(
                            map.jobs[k].0,
                        ) != head
            }
        }),
{
    let inner = trimmed(tail_piece(name, '/'));
    let base = trimmed(head_piece(inner, " ("@));
    lemma_rule_from(
        map.jobs,
        slug_of(base),
        slug_of(trimmed(head_piece(name, "/"@))),
        0,
    );
}

// ---------------------------------------------------------------------------
// Records
// ---------------------------------------------------------------------------
/// Whether a record says of a job what its rule says, in the words of a table of what is known
/// of the job.
pub open spec fn tells_of_job(
    run: RunView,
    map: AdapterMapView,
    facts: Seq<FactView>,
    job: JobView,
    rule: StepRuleView,
    r: RecordView,
) -> bool {
    &&& r.id == "gha-"@ + decimal(job.id as nat)
    &&& r.plane == "runner"@
    &&& r.step == Some(rule.step)
    &&& r.ts == job.started_at
    &&& exists|c: Seq<(Str, Str)>, fact: Option<FactView>| #[trigger]
        says(c, run, job, fact) && is_told_of(facts, job.name, fact) && r.principal == substituted(
            map.runner_principal,
            c,
        ) && shows(rule.effects, c, r.id, r.effects)
}

proof fn lemma_record_of(
    run: RunView,
    map: AdapterMapView,
    facts: Seq<FactView>,
    job: JobView,
    rule: StepRuleView,
)
    ensures
        tells_of_job(run, map, facts, job, rule, record_of(run, map, facts, job, rule)),
{
    let fact = fact_from(facts, job.name, 0);
    lemma_fact(facts, job.name, 0);
    lemma_says(run, job, fact);
    let c = context_of(run, job, fact);
    let r = record_of(run, map, facts, job, rule);
    assert(says(c, run, job, fact));
    assert(shows(rule.effects, c, r.id, r.effects));
}

/// Whether a job counts: it succeeded, a rule is for it, and no job before it that succeeded
/// gives the same step.
pub open spec fn counts(map: AdapterMapView, jobs: Seq<JobView>, i: int) -> bool {
    &&& jobs[i].conclusion == Some("success"@)
    &&& rule_for(map, jobs[i].name) matches Some(rule) && forall|j: int|
        0 <= j < i && (#[trigger] jobs[j]).conclusion == Some("success"@) ==> (rule_for(
            map,
            jobs[j].name,
        ) matches Some(other) ==> other.step != rule.step)
}

pub proof fn lemma_gathered_seen(
    run: RunView,
    jobs: Seq<JobView>,
    facts: Seq<FactView>,
    map: AdapterMapView,
    n: int,
    step: Str,
)
    requires
        0 <= n <= jobs.len(),
    ensures
        gathered(run, jobs, facts, map, n).seen.contains(step) <==> exists|j: int|
            0 <= j < n && (#[trigger] jobs[j]).conclusion == Some("success"@) && (rule_for(
                map,
                jobs[j].name,
            ) matches Some(rule) && rule.step == step),
    decreases n,
{
    if n > 0 {
        lemma_gathered_seen(run, jobs, facts, map, n - 1, step);
        let g = gathered(run, jobs, facts, map, n - 1);
        match counts_as(map, jobs[n - 1], g.seen) {
            Some(rule) => {
                lemma_put_item_contains(g.seen, rule.step, step);
            },
            None => {},
        }
    }
}

proof fn lemma_gathered_records(
    run: RunView,
    jobs: Seq<JobView>,
    facts: Seq<FactView>,
    map: AdapterMapView,
    n: int,
    r: RecordView,
)
    requires
        0 <= n <= jobs.len(),
    ensures
        gathered(run, jobs, facts, map, n).records.contains(r) <==> exists|i: int|
            0 <= i < n && #[trigger] counts(map, jobs, i) && r == record_of(
                run,
                map,
                facts,
                jobs[i],
                rule_for(map, jobs[i].name)->0,
            ),
    decreases n,
{
    if n > 0 {
        lemma_gathered_records(run, jobs, facts, map, n - 1, r);
        let g = gathered(run, jobs, facts, map, n - 1);
        let job = jobs[n - 1];
        if rule_for(map, job.name) is Some {
            let rule = rule_for(map, job.name)->0;
            lemma_gathered_seen(run, jobs, facts, map, n - 1, rule.step);
            lemma_push_contains(g.records, record_of(run, map, facts, job, rule), r);
        }
        assert(counts_as(map, job, g.seen) is Some <==> counts(map, jobs, n - 1));
    }
}

/// Every job that counts is observed, and each record is of such a job: it has the job's number
/// and time, the step of the rule, and the effects of the rule with what is known of the job
/// filled in: the actor, the repository and its name, the commit, the job, the time, and the
/// digest and the scope that the fact of the job tells.
pub proof fn what_is_observed_of_a_run(
    run: RunView,
    jobs: JobsView,
    facts: Seq<FactView>,
    map: AdapterMapView,
    r: RecordView,
    i: int,
)
    ensures
        normalized_run(run, jobs, facts, map).records.contains(r) ==> exists|k: int|
            0 <= k < jobs.jobs.len() && #[trigger] counts(map, jobs.jobs, k) && tells_of_job(
                run,
                map,
                facts,
                jobs.jobs[k],
                rule_for(map, jobs.jobs[k].name)->0,
                r,
            ),
        0 <= i < jobs.jobs.len() && counts(map, jobs.jobs, i) ==> exists|k: int|
            0 <= k < normalized_run(run, jobs, facts, map).records.len() && tells_of_job(
                run,
                map,
                facts,
                jobs.jobs[i],
                rule_for(map, jobs.jobs[i].name)->0,
                #[trigger] normalized_run(run, jobs, facts, map).records[k],
            ),
        normalized_run(run, jobs, facts, map).run_id == "gha-"@ + run.name + "-"@ + decimal(
            run.id as nat,
        ),
        normalized_run(run, jobs, facts, map).planes == map.planes,
{
    let n = jobs.jobs.len() as int;
    let g = gathered(run, jobs.jobs, facts, map, n);
    let rs = normalized_run(run, jobs, facts, map).records;
    ordering_keeps_every_record(g.records, g.records.len() as int);
    assert(g.records.take(g.records.len() as int) =~= g.records);
    lemma_gathered_records(run, jobs.jobs, facts, map, n, r);
    if rs.contains(r) {
        let k = choose|k: int|
            0 <= k < n && #[trigger] counts(map, jobs.jobs, k) && r == record_of(
                run,
                map,
                facts,
                jobs.jobs[k],
                rule_for(map, jobs.jobs[k].name)->0,
            );
        lemma_record_of(run, map, facts, jobs.jobs[k], rule_for(map, jobs.jobs[k].name)->0);
        assert(counts(map, jobs.jobs, k));
    }
    if 0 <= i < jobs.jobs.len() && counts(map, jobs.jobs, i) {
        let rule = rule_for(map, jobs.jobs[i].name)->0;
        let x = record_of(run, map, facts, jobs.jobs[i], rule);
        lemma_record_of(run, map, facts, jobs.jobs[i], rule);
        lemma_gathered_records(run, jobs.jobs, facts, map, n, x);
        assert(g.records.contains(x));
        assert(rs.contains(x));
        let k = rs.index_of(x);
        assert(rs[k] == x);
    }
}

/// Where the fact of a job tells a scope or a digest, an argument of an effect that asks for it
/// has that value.
pub proof fn what_a_fact_tells_is_observed(
    run: RunView,
    map: AdapterMapView,
    facts: Seq<FactView>,
    job: JobView,
    rule: StepRuleView,
    r: RecordView,
    fact: FactView,
    k: int,
    j: int,
)
    requires
        tells_of_job(run, map, facts, job, rule, r),
        is_told_of(facts, job.name, Some(fact)),
        0 <= k < rule.effects.len(),
        0 <= j < rule.effects[k].args.len(),
    ensures
        fact.scope is Some && (rule.effects[k].args[j].1 == "${scope}"@
            || rule.effects[k].args[j].1 == "${outputs.scope}"@) ==> r.effects[k].args[j].1
            == fact.scope->0,
        fact.digest is Some && (rule.effects[k].args[j].1 == "${digest}"@
            || rule.effects[k].args[j].1 == "${outputs.digest}"@) ==> r.effects[k].args[j].1
            == fact.digest->0,
{
    let (c, told) = choose|c: Seq<(Str, Str)>, told: Option<FactView>| #[trigger]
        says(c, run, job, told) && is_told_of(facts, job.name, told) && r.principal == substituted(
            map.runner_principal,
            c,
        ) && shows(rule.effects, c, r.id, r.effects);
    lemma_told_once(facts, job.name, told, Some(fact));
    assert(r.effects[k].args[j].1 == substituted(rule.effects[k].args[j].1, c));
    lemma_one_placeholder("scope"@, "${scope}"@, c);
    lemma_one_placeholder("outputs.scope"@, "${outputs.scope}"@, c);
    lemma_one_placeholder("digest"@, "${digest}"@, c);
    lemma_one_placeholder("outputs.digest"@, "${outputs.digest}"@, c);
}

proof fn lemma_told_once(
    facts: Seq<FactView>,
    name: Str,
    a: Option<FactView>,
    b: Option<FactView>,
)
    requires
        is_told_of(facts, name, a),
        is_told_of(facts, name, b),
    ensures
        a == b,
{
    if a is Some && b is Some {
        let i = choose|i: int|
            0 <= i < facts.len() && #[trigger] facts[i] == a->0 && names_job(a->0, name) && forall|
                k: int,
            |
                0 <= k < i ==> !names_job(#[trigger] facts[k], name);
        let j = choose|j: int|
            0 <= j < facts.len() && #[trigger] facts[j] == b->0 && names_job(b->0, name) && forall|
                k: int,
            |
                0 <= k < j ==> !names_job(#[trigger] facts[k], name);
        if i < j {
            assert(!names_job(facts[i], name));
        } else if j < i {
            assert(!names_job(facts[j], name));
        }
    }
}

proof fn lemma_one_placeholder(key: Str, template: Str, c: Seq<(Str, Str)>)
    requires
        key == "scope"@ && template == "${scope}"@ || key == "outputs.scope"@ && template
            == "${outputs.scope}"@ || key == "digest"@ && template == "${digest}"@ || key
            == "outputs.digest"@ && template == "${outputs.digest}"@,
    ensures
        lookup(c, key) is Some ==> substituted(template, c) == lookup(c, key)->0,
{
    reveal_strlit("scope");
    reveal_strlit("outputs.scope");
    reveal_strlit("digest");
    reveal_strlit("outputs.digest");
    reveal_strlit("${scope}");
    reveal_strlit("${outputs.scope}");
    reveal_strlit("${digest}");
    reveal_strlit("${outputs.digest}");
    reveal_strlit("${");
    reveal_strlit("}");
    let none = Seq::<char>::empty();
    assert(none + "${"@ + key + "}"@ + none =~= template);
    assert(!key.contains('}'));
    a_placeholder_gives_the_value_of_its_key(none, key, none, c);
    assert forall|i: int| !(#[trigger] stands_at(none, "${"@, i)) by {}
    plain_text_is_taken_as_it_is(none, c);
    if lookup(c, key) is Some {
        assert(none + lookup(c, key)->0 + none =~= lookup(c, key)->0);
    }
}

/// The records of a run stand in the order of their times, and of their names where the times
/// are the same.
pub proof fn records_stand_in_the_order_of_time(
    run: RunView,
    jobs: JobsView,
    facts: Seq<FactView>,
    map: AdapterMapView,
    i: int,
    j: int,
)
    requires
        0 <= i < j < normalized_run(run, jobs, facts, map).records.len(),
    ensures
        ({
            let a = normalized_run(run, jobs, facts, map).records[i];
            let b = normalized_run(run, jobs, facts, map).records[j];
            !before(b.ts, a.ts) && (a.ts == b.ts ==> !before(b.id, a.id))
        }),
{
    let g = gathered(run, jobs.jobs, facts, map, jobs.jobs.len() as int);
    let rs = normalized_run(run, jobs, facts, map).records;
    ordering_keeps_every_record(g.records, g.records.len() as int);
    assert(!crate::adapters::record_before(rs[j], rs[i]));
}

} // verus!
