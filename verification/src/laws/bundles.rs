//! What a bundle of logs is observed to hold.
use crate::adapters::{
    all_shown, creates, creator_from, early_records, edges_upto, entry_context, entry_record,
    entry_records, event_context, event_record, in_order, job_context, job_record, job_records,
    normalized, ordering_keeps_every_record, provenance_edge, records_upto, substituted, with_all,
    with_prefixed, AdapterMapView, AuditEntryView, BundleView, EffectRuleView, JobView,
    RegistryEventView, StepRuleView,
};
use crate::laws::importing::shows;
use crate::laws::observing::effects_without_a_step;
use crate::observation::{all_effects, EffectInstanceView, ObservedEdgeView, RecordView};
use crate::ordered::{a_lookup_gives_back_what_was_put, lookup, put};
use crate::search::{lemma_concat_contains, lemma_push_contains};
use crate::text::{before, decimal, tail_piece, Str};
use vstd::prelude::*;

verus! {

// ---------------------------------------------------------------------------
// What is known
// ---------------------------------------------------------------------------
/// Whether `k` is the name of entry `i` of `more` behind a prefix, and of none after it.
pub open spec fn is_last_named(
    more: Seq<(Str, Str)>,
    prefix: Str,
    k: Str,
    i: int,
    n: int,
) -> bool {
    &&& 0 <= i < n
    &&& k == prefix + more[i].0
    &&& forall|j: int| i < j < n ==> k != prefix + (#[trigger] more[j]).0
}

proof fn lemma_with_prefixed(
    context: Seq<(Str, Str)>,
    prefix: Str,
    more: Seq<(Str, Str)>,
    n: int,
    k: Str,
)
    requires
        0 <= n <= more.len(),
    ensures
        (forall|i: int| 0 <= i < n ==> k != prefix + (#[trigger] more[i]).0) ==> lookup(
            with_prefixed(context, prefix, more, n),
            k,
        ) == lookup(context, k),
        forall|i: int| #[trigger]
            is_last_named(more, prefix, k, i, n) ==> lookup(
                with_prefixed(context, prefix, more, n),
                k,
            ) == Some(more[i].1),
    decreases n,
{
    if n > 0 {
        lemma_with_prefixed(context, prefix, more, n - 1, k);
        a_lookup_gives_back_what_was_put(
            with_prefixed(context, prefix, more, n - 1),
            prefix + more[n - 1].0,
            more[n - 1].1,
            k,
        );
        assert forall|i: int| #[trigger] is_last_named(more, prefix, k, i, n) implies lookup(
            with_prefixed(context, prefix, more, n),
            k,
        ) == Some(more[i].1) by {
            if i < n - 1 {
                assert(k != prefix + more[n - 1].0);
                assert(is_last_named(more, prefix, k, i, n - 1));
            }
        }
    }
}

proof fn lemma_with_all(context: Seq<(Str, Str)>, more: Seq<(Str, Str)>, n: int, k: Str)
    requires
        0 <= n <= more.len(),
    ensures
        (forall|i: int| 0 <= i < n ==> k != (#[trigger] more[i]).0) ==> lookup(
            with_all(context, more, n),
            k,
        ) == lookup(context, k),
        forall|i: int|
            0 <= i < n && k == (#[trigger] more[i]).0 && (forall|j: int|
                i < j < n ==> k != (#[trigger] more[j]).0) ==> lookup(
                with_all(context, more, n),
                k,
            ) == Some(more[i].1),
    decreases n,
{
    if n > 0 {
        lemma_with_all(context, more, n - 1, k);
        a_lookup_gives_back_what_was_put(
            with_all(context, more, n - 1),
            more[n - 1].0,
            more[n - 1].1,
            k,
        );
        assert forall|i: int|
            0 <= i < n && k == (#[trigger] more[i]).0 && (forall|j: int|
                i < j < n ==> k != (#[trigger] more[j]).0) implies lookup(
            with_all(context, more, n),
            k,
        ) == Some(more[i].1) by {
            if i < n - 1 {
                assert(k != more[n - 1].0);
            }
        }
    }
}

/// Whether a table says of a job what is known of it, and nothing else: the repository and its
/// name, the actor, the job, the time, and each output under its name.
pub open spec fn says_of_job(c: Seq<(Str, Str)>, repository: Str, job: JobView) -> bool {
    &&& lookup(c, "repository"@) == Some(repository)
    &&& lookup(c, "repository_name"@) == Some(tail_piece(repository, '/'))
    &&& lookup(c, "actor"@) == Some(job.actor)
    &&& lookup(c, "job"@) == Some(job.name)
    &&& lookup(c, "ts"@) == Some(job.ts)
    &&& forall|k: Str, i: int| #[trigger]
        is_last_named(job.outputs, "outputs."@, k, i, job.outputs.len() as int) ==> lookup(c, k)
            == Some(job.outputs[i].1)
    &&& forall|k: Str|
        (#[trigger] lookup(c, k)) is Some ==> k == "repository"@ || k == "repository_name"@ || k
            == "actor"@ || k == "job"@ || k == "ts"@ || exists|i: int|
            0 <= i < job.outputs.len() && k == "outputs."@ + (#[trigger] job.outputs[i]).0
}

/// Whether a table says of an entry of an audit log what it holds, and nothing else.
pub open spec fn says_of_entry(c: Seq<(Str, Str)>, entry: AuditEntryView) -> bool {
    &&& lookup(c, "principal"@) == Some(entry.principal)
    &&& lookup(c, "action"@) == Some(entry.action)
    &&& lookup(c, "ts"@) == Some(entry.ts)
    &&& forall|k: Str, i: int| #[trigger]
        is_last_named(
            entry.attributes,
            "attributes."@,
            k,
            i,
            entry.attributes.len() as int,
        ) ==> lookup(c, k) == Some(entry.attributes[i].1)
    &&& forall|k: Str|
        (#[trigger] lookup(c, k)) is Some ==> k == "principal"@ || k == "action"@ || k == "ts"@
            || exists|i: int|
            0 <= i < entry.attributes.len() && k == "attributes."@ + (
            #[trigger] entry.attributes[i]).0
}

/// Whether a table says of an event of a registry what it holds, and nothing else; a field goes
/// before the event's own actor, action and time where it has the same name.
pub open spec fn says_of_event(c: Seq<(Str, Str)>, event: RegistryEventView) -> bool {
    &&& forall|i: int|
        0 <= i < event.fields.len() && (forall|j: int|
            i < j < event.fields.len() ==> (#[trigger] event.fields[j]).0 != event.fields[i].0)
            ==> lookup(c, (#[trigger] event.fields[i]).0) == Some(event.fields[i].1)
    &&& forall|k: Str|
        (forall|i: int| 0 <= i < event.fields.len() ==> (#[trigger] event.fields[i]).0 != k)
            ==> #[trigger] lookup(c, k) == (if k == "actor"@ {
            Some(event.actor)
        } else if k == "action"@ {
            Some(event.action)
        } else if k == "ts"@ {
            Some(event.ts)
        } else {
            None
        })
}

proof fn lemma_job_context(repository: Str, job: JobView)
    ensures
        says_of_job(job_context(repository, job), repository, job),
{
    reveal_strlit("repository");
    reveal_strlit("repository_name");
    reveal_strlit("actor");
    reveal_strlit("job");
    reveal_strlit("ts");
    reveal_strlit("outputs.");
    assert("repository"@.len() == 10 && "repository_name"@.len() == 15 && "actor"@.len() == 5
        && "job"@.len() == 3 && "ts"@.len() == 2);
    assert("repository"@[0] == 'r' && "repository_name"@[0] == 'r' && "actor"@[0] == 'a'
        && "job"@[0] == 'j' && "ts"@[0] == 't' && "outputs."@[0] == 'o');
    let c0 = Seq::<(Str, Str)>::empty();
    let c1 = put(c0, "repository"@, repository);
    let c2 = put(c1, "repository_name"@, tail_piece(repository, '/'));
    let c3 = put(c2, "actor"@, job.actor);
    let c4 = put(c3, "job"@, job.name);
    let c5 = put(c4, "ts"@, job.ts);
    let c = job_context(repository, job);
    let n = job.outputs.len() as int;
    assert forall|k: Str| lookup(c5, k) == (if k == "repository"@ {
        Some(repository)
    } else if k == "repository_name"@ {
        Some(tail_piece(repository, '/'))
    } else if k == "actor"@ {
        Some(job.actor)
    } else if k == "job"@ {
        Some(job.name)
    } else if k == "ts"@ {
        Some(job.ts)
    } else {
        None
    }) by {
        a_lookup_gives_back_what_was_put(c0, "repository"@, repository, k);
        a_lookup_gives_back_what_was_put(c1, "repository_name"@, tail_piece(repository, '/'), k);
        a_lookup_gives_back_what_was_put(c2, "actor"@, job.actor, k);
        a_lookup_gives_back_what_was_put(c3, "job"@, job.name, k);
        a_lookup_gives_back_what_was_put(c4, "ts"@, job.ts, k);
    }
    assert forall|k: Str|
        (k.len() == 0 || k[0] != 'o') implies #[trigger] lookup(c, k) == lookup(c5, k) by {
        lemma_with_prefixed(c5, "outputs."@, job.outputs, n, k);
        assert forall|i: int| 0 <= i < n implies k != "outputs."@ + (
        #[trigger] job.outputs[i]).0 by {
            assert(("outputs."@ + job.outputs[i].0)[0] == 'o');
        }
    }
    assert forall|k: Str, i: int| #[trigger]
        is_last_named(job.outputs, "outputs."@, k, i, n) implies lookup(c, k) == Some(
        job.outputs[i].1,
    ) by {
        lemma_with_prefixed(c5, "outputs."@, job.outputs, n, k);
    }
    assert forall|k: Str| (#[trigger] lookup(c, k)) is Some implies k == "repository"@ || k
        == "repository_name"@ || k == "actor"@ || k == "job"@ || k == "ts"@ || exists|i: int|
        0 <= i < job.outputs.len() && k == "outputs."@ + (#[trigger] job.outputs[i]).0 by {
        lemma_with_prefixed(c5, "outputs."@, job.outputs, n, k);
        if !(exists|i: int|
            0 <= i < job.outputs.len() && k == "outputs."@ + (#[trigger] job.outputs[i]).0) {
            assert(lookup(c, k) == lookup(c5, k));
        }
    }
}

proof fn lemma_entry_context(entry: AuditEntryView)
    ensures
        says_of_entry(entry_context(entry), entry),
{
    reveal_strlit("principal");
    reveal_strlit("action");
    reveal_strlit("ts");
    reveal_strlit("attributes.");
    assert("principal"@.len() == 9 && "action"@.len() == 6 && "ts"@.len() == 2
        && "attributes."@.len() == 11);
    assert("action"@[1] == 'c' && "attributes."@[1] == 't' && "attributes."@[0] == 'a');
    assert("principal"@[0] == 'p' && "ts"@[0] == 't');
    let c0 = Seq::<(Str, Str)>::empty();
    let c1 = put(c0, "principal"@, entry.principal);
    let c2 = put(c1, "action"@, entry.action);
    let c3 = put(c2, "ts"@, entry.ts);
    let c = entry_context(entry);
    let n = entry.attributes.len() as int;
    assert forall|k: Str| lookup(c3, k) == (if k == "principal"@ {
        Some(entry.principal)
    } else if k == "action"@ {
        Some(entry.action)
    } else if k == "ts"@ {
        Some(entry.ts)
    } else {
        None
    }) by {
        a_lookup_gives_back_what_was_put(c0, "principal"@, entry.principal, k);
        a_lookup_gives_back_what_was_put(c1, "action"@, entry.action, k);
        a_lookup_gives_back_what_was_put(c2, "ts"@, entry.ts, k);
    }
    assert forall|k: Str|
        k == "principal"@ || k == "action"@ || k == "ts"@ implies #[trigger] lookup(c, k) == lookup(
        c3,
        k,
    ) by {
        lemma_with_prefixed(c3, "attributes."@, entry.attributes, n, k);
        assert forall|i: int| 0 <= i < n implies k != "attributes."@ + (
        #[trigger] entry.attributes[i]).0 by {
            let full = "attributes."@ + entry.attributes[i].0;
            assert(full[0] == 'a' && full[1] == 't' && full.len() >= 11);
        }
    }
    assert forall|k: Str, i: int| #[trigger]
        is_last_named(entry.attributes, "attributes."@, k, i, n) implies lookup(c, k) == Some(
        entry.attributes[i].1,
    ) by {
        lemma_with_prefixed(c3, "attributes."@, entry.attributes, n, k);
    }
    assert forall|k: Str| (#[trigger] lookup(c, k)) is Some implies k == "principal"@ || k
        == "action"@ || k == "ts"@ || exists|i: int|
        0 <= i < entry.attributes.len() && k == "attributes."@ + (
        #[trigger] entry.attributes[i]).0 by {
        lemma_with_prefixed(c3, "attributes."@, entry.attributes, n, k);
        if !(exists|i: int|
            0 <= i < entry.attributes.len() && k == "attributes."@ + (
            #[trigger] entry.attributes[i]).0) {
            assert(lookup(c, k) == lookup(c3, k));
        }
    }
}

proof fn lemma_event_context(event: RegistryEventView)
    ensures
        says_of_event(event_context(event), event),
{
    reveal_strlit("actor");
    reveal_strlit("action");
    reveal_strlit("ts");
    assert("actor"@.len() == 5 && "action"@.len() == 6 && "ts"@.len() == 2);
    let c0 = Seq::<(Str, Str)>::empty();
    let c1 = put(c0, "actor"@, event.actor);
    let c2 = put(c1, "action"@, event.action);
    let c3 = put(c2, "ts"@, event.ts);
    let c = event_context(event);
    let n = event.fields.len() as int;
    assert forall|i: int|
        0 <= i < event.fields.len() && (forall|j: int|
            i < j < event.fields.len() ==> (#[trigger] event.fields[j]).0
                != event.fields[i].0) implies lookup(c, (#[trigger] event.fields[i]).0) == Some(
        event.fields[i].1,
    ) by {
        lemma_with_all(c3, event.fields, n, event.fields[i].0);
    }
    assert forall|k: Str|
        (forall|i: int| 0 <= i < event.fields.len() ==> (#[trigger] event.fields[i]).0
            != k) implies #[trigger] lookup(c, k) == (if k == "actor"@ {
        Some(event.actor)
    } else if k == "action"@ {
        Some(event.action)
    } else if k == "ts"@ {
        Some(event.ts)
    } else {
        None
    }) by {
        lemma_with_all(c3, event.fields, n, k);
        a_lookup_gives_back_what_was_put(c0, "actor"@, event.actor, k);
        a_lookup_gives_back_what_was_put(c1, "action"@, event.action, k);
        a_lookup_gives_back_what_was_put(c2, "ts"@, event.ts, k);
    }
}

// ---------------------------------------------------------------------------
// Records
// ---------------------------------------------------------------------------
/// Whether a record is of a job that succeeded and that a rule names.
pub open spec fn is_of_job(
    bundle: BundleView,
    map: AdapterMapView,
    job: JobView,
    r: RecordView,
) -> bool {
    job.conclusion == "success"@ && (lookup(map.jobs, job.name) matches Some(rule) && r.id == job.id
        && r.plane == "runner"@ && r.step == Some(rule.step) && r.ts == job.ts && exists|
        c: Seq<(Str, Str)>,
    | #[trigger]
        says_of_job(c, bundle.repository, job) && r.principal == substituted(
            map.runner_principal,
            c,
        ) && shows(rule.effects, c, r.id, r.effects))
}

/// Whether a record is of an entry of an audit log whose action a rule names.
pub open spec fn is_of_entry(map: AdapterMapView, entry: AuditEntryView, r: RecordView) -> bool {
    lookup(map.audit_actions, entry.action) matches Some(rule) && r.id == entry.id && r.plane
        == "audit"@ && r.principal == entry.principal && r.step == Some(rule.step) && r.ts
        == entry.ts && exists|c: Seq<(Str, Str)>| #[trigger]
        says_of_entry(c, entry) && shows(rule.effects, c, r.id, r.effects)
}

/// Whether a record is of an event of a registry whose action a rule names. It claims no step.
pub open spec fn is_of_event(map: AdapterMapView, event: RegistryEventView, r: RecordView) -> bool {
    lookup(map.registry_actions, event.action) matches Some(rule) && r.id == event.id && r.plane
        == "registry"@ && r.principal == event.actor && r.step is None && r.ts == event.ts
        && exists|c: Seq<(Str, Str)>| #[trigger]
        says_of_event(c, event) && shows(seq![rule], c, r.id, r.effects)
}

proof fn lemma_shown(rules: Seq<EffectRuleView>, c: Seq<(Str, Str)>, id: Str)
    ensures
        shows(rules, c, id, all_shown(rules, c, id)),
{
}

proof fn lemma_jobs(bundle: BundleView, map: AdapterMapView, n: int, r: RecordView)
    requires
        0 <= n <= bundle.runner.jobs.len(),
    ensures
        job_records(bundle, map, n).contains(r) <==> exists|i: int|
            0 <= i < n && (#[trigger] bundle.runner.jobs[i]).conclusion == "success"@ && (lookup(
                map.jobs,
                bundle.runner.jobs[i].name,
            ) matches Some(rule) && r == job_record(
                bundle.repository,
                map,
                bundle.runner.jobs[i],
                rule,
            )),
    decreases n,
{
    if n > 0 {
        lemma_jobs(bundle, map, n - 1, r);
        let job = bundle.runner.jobs[n - 1];
        if lookup(map.jobs, job.name) is Some {
            lemma_push_contains(
                job_records(bundle, map, n - 1),
                job_record(bundle.repository, map, job, lookup(map.jobs, job.name)->0),
                r,
            );
        }
    }
}

proof fn lemma_entries(bundle: BundleView, map: AdapterMapView, n: int, r: RecordView)
    requires
        0 <= n <= bundle.cloud_audit.entries.len(),
    ensures
        entry_records(bundle, map, n).contains(r) <==> exists|i: int|
            0 <= i < n && (lookup(
                map.audit_actions,
                (#[trigger] bundle.cloud_audit.entries[i]).action,
            ) matches Some(rule) && r == entry_record(bundle.cloud_audit.entries[i], rule)),
    decreases n,
{
    if n > 0 {
        lemma_entries(bundle, map, n - 1, r);
        let entry = bundle.cloud_audit.entries[n - 1];
        if lookup(map.audit_actions, entry.action) is Some {
            lemma_push_contains(
                entry_records(bundle, map, n - 1),
                entry_record(entry, lookup(map.audit_actions, entry.action)->0),
                r,
            );
        }
    }
}

proof fn lemma_records(bundle: BundleView, map: AdapterMapView, n: int, r: RecordView)
    requires
        0 <= n <= bundle.registry.events.len(),
    ensures
        records_upto(bundle, map, n).contains(r) <==> early_records(bundle, map).contains(r)
            || exists|i: int|
            0 <= i < n && (lookup(
                map.registry_actions,
                (#[trigger] bundle.registry.events[i]).action,
            ) matches Some(rule) && r == event_record(bundle.registry.events[i], rule)),
    decreases n,
{
    if n > 0 {
        lemma_records(bundle, map, n - 1, r);
        let event = bundle.registry.events[n - 1];
        if lookup(map.registry_actions, event.action) is Some {
            lemma_push_contains(
                records_upto(bundle, map, n - 1),
                event_record(event, lookup(map.registry_actions, event.action)->0),
                r,
            );
        }
    }
}

/// Every record is of a job that succeeded, of an audited action or of an event of the registry
/// that a rule names, and says what the rule says with what is known filled in.
pub proof fn every_record_is_of_something_logged(
    bundle: BundleView,
    map: AdapterMapView,
    r: RecordView,
)
    requires
        normalized(bundle, map).records.contains(r),
    ensures
        (exists|i: int|
            0 <= i < bundle.runner.jobs.len() && is_of_job(
                bundle,
                map,
                #[trigger] bundle.runner.jobs[i],
                r,
            )) || (exists|i: int|
            0 <= i < bundle.cloud_audit.entries.len() && is_of_entry(
                map,
                #[trigger] bundle.cloud_audit.entries[i],
                r,
            )) || (exists|i: int|
            0 <= i < bundle.registry.events.len() && is_of_event(
                map,
                #[trigger] bundle.registry.events[i],
                r,
            )),
{
    let n = bundle.registry.events.len() as int;
    let rs = records_upto(bundle, map, n);
    ordering_keeps_every_record(rs, rs.len() as int);
    assert(rs.take(rs.len() as int) =~= rs);
    lemma_records(bundle, map, n, r);
    let a = job_records(bundle, map, bundle.runner.jobs.len() as int);
    let b = entry_records(bundle, map, bundle.cloud_audit.entries.len() as int);
    lemma_concat_contains(a, b, r);
    lemma_jobs(bundle, map, bundle.runner.jobs.len() as int, r);
    lemma_entries(bundle, map, bundle.cloud_audit.entries.len() as int, r);
    if a.contains(r) {
        let i = choose|i: int|
            0 <= i < bundle.runner.jobs.len() && (#[trigger] bundle.runner.jobs[i]).conclusion
                == "success"@ && (lookup(map.jobs, bundle.runner.jobs[i].name) matches Some(rule)
                && r == job_record(bundle.repository, map, bundle.runner.jobs[i], rule));
        lemma_of_job(bundle, map, bundle.runner.jobs[i]);
        assert(is_of_job(bundle, map, bundle.runner.jobs[i], r));
    } else if b.contains(r) {
        let i = choose|i: int|
            0 <= i < bundle.cloud_audit.entries.len() && (lookup(
                map.audit_actions,
                (#[trigger] bundle.cloud_audit.entries[i]).action,
            ) matches Some(rule) && r == entry_record(bundle.cloud_audit.entries[i], rule));
        lemma_of_entry(map, bundle.cloud_audit.entries[i]);
        assert(is_of_entry(map, bundle.cloud_audit.entries[i], r));
    } else {
        let i = choose|i: int|
            0 <= i < n && (lookup(
                map.registry_actions,
                (#[trigger] bundle.registry.events[i]).action,
            ) matches Some(rule) && r == event_record(bundle.registry.events[i], rule));
        lemma_of_event(map, bundle.registry.events[i]);
        assert(is_of_event(map, bundle.registry.events[i], r));
    }
}

proof fn lemma_of_job(bundle: BundleView, map: AdapterMapView, job: JobView)
    requires
        job.conclusion == "success"@,
        lookup(map.jobs, job.name) is Some,
    ensures
        is_of_job(
            bundle,
            map,
            job,
            job_record(bundle.repository, map, job, lookup(map.jobs, job.name)->0),
        ),
{
    let rule = lookup(map.jobs, job.name)->0;
    let c = job_context(bundle.repository, job);
    lemma_job_context(bundle.repository, job);
    lemma_shown(rule.effects, c, job.id);
    assert(says_of_job(c, bundle.repository, job));
}

proof fn lemma_of_entry(map: AdapterMapView, entry: AuditEntryView)
    requires
        lookup(map.audit_actions, entry.action) is Some,
    ensures
        is_of_entry(map, entry, entry_record(entry, lookup(map.audit_actions, entry.action)->0)),
{
    let rule = lookup(map.audit_actions, entry.action)->0;
    let c = entry_context(entry);
    lemma_entry_context(entry);
    lemma_shown(rule.effects, c, entry.id);
    assert(says_of_entry(c, entry));
}

proof fn lemma_of_event(map: AdapterMapView, event: RegistryEventView)
    requires
        lookup(map.registry_actions, event.action) is Some,
    ensures
        is_of_event(
            map,
            event,
            event_record(event, lookup(map.registry_actions, event.action)->0),
        ),
{
    let rule = lookup(map.registry_actions, event.action)->0;
    let c = event_context(event);
    lemma_event_context(event);
    lemma_shown(seq![rule], c, event.id);
    assert(says_of_event(c, event));
}

/// Everything that is logged and that a rule names is observed: each job that succeeded, each
/// audited action, and each event of the registry.
pub proof fn everything_logged_is_observed(bundle: BundleView, map: AdapterMapView, i: int)
    ensures
        0 <= i < bundle.runner.jobs.len() && bundle.runner.jobs[i].conclusion == "success"@
            && lookup(map.jobs, bundle.runner.jobs[i].name) is Some ==> exists|k: int|
            0 <= k < normalized(bundle, map).records.len() && is_of_job(
                bundle,
                map,
                bundle.runner.jobs[i],
                #[trigger] normalized(bundle, map).records[k],
            ),
        0 <= i < bundle.cloud_audit.entries.len() && lookup(
            map.audit_actions,
            bundle.cloud_audit.entries[i].action,
        ) is Some ==> exists|k: int|
            0 <= k < normalized(bundle, map).records.len() && is_of_entry(
                map,
                bundle.cloud_audit.entries[i],
                #[trigger] normalized(bundle, map).records[k],
            ),
        0 <= i < bundle.registry.events.len() && lookup(
            map.registry_actions,
            bundle.registry.events[i].action,
        ) is Some ==> exists|k: int|
            0 <= k < normalized(bundle, map).records.len() && is_of_event(
                map,
                bundle.registry.events[i],
                #[trigger] normalized(bundle, map).records[k],
            ),
        normalized(bundle, map).run_id == bundle.run_id,
        normalized(bundle, map).planes == map.planes,
{
    let n = bundle.registry.events.len() as int;
    let rs = records_upto(bundle, map, n);
    let out = normalized(bundle, map).records;
    ordering_keeps_every_record(rs, rs.len() as int);
    assert(rs.take(rs.len() as int) =~= rs);
    let a = job_records(bundle, map, bundle.runner.jobs.len() as int);
    let b = entry_records(bundle, map, bundle.cloud_audit.entries.len() as int);
    if 0 <= i < bundle.runner.jobs.len() && bundle.runner.jobs[i].conclusion == "success"@
        && lookup(map.jobs, bundle.runner.jobs[i].name) is Some {
        let job = bundle.runner.jobs[i];
        let r = job_record(bundle.repository, map, job, lookup(map.jobs, job.name)->0);
        lemma_of_job(bundle, map, job);
        lemma_jobs(bundle, map, bundle.runner.jobs.len() as int, r);
        lemma_concat_contains(a, b, r);
        lemma_records(bundle, map, n, r);
        assert(out.contains(r));
        assert(out[out.index_of(r)] == r);
    }
    if 0 <= i < bundle.cloud_audit.entries.len() && lookup(
        map.audit_actions,
        bundle.cloud_audit.entries[i].action,
    ) is Some {
        let entry = bundle.cloud_audit.entries[i];
        let r = entry_record(entry, lookup(map.audit_actions, entry.action)->0);
        lemma_of_entry(map, entry);
        lemma_entries(bundle, map, bundle.cloud_audit.entries.len() as int, r);
        lemma_concat_contains(a, b, r);
        lemma_records(bundle, map, n, r);
        assert(out.contains(r));
        assert(out[out.index_of(r)] == r);
    }
    if 0 <= i < bundle.registry.events.len() && lookup(
        map.registry_actions,
        bundle.registry.events[i].action,
    ) is Some {
        let event = bundle.registry.events[i];
        let r = event_record(event, lookup(map.registry_actions, event.action)->0);
        lemma_of_event(map, event);
        lemma_records(bundle, map, n, r);
        assert(out.contains(r));
        assert(out[out.index_of(r)] == r);
    }
}

/// The records of a bundle stand in the order of their times, and of their names where the times
/// are the same.
pub proof fn logged_records_stand_in_the_order_of_time(
    bundle: BundleView,
    map: AdapterMapView,
    i: int,
    j: int,
)
    requires
        0 <= i < j < normalized(bundle, map).records.len(),
    ensures
        ({
            let a = normalized(bundle, map).records[i];
            let b = normalized(bundle, map).records[j];
            !before(b.ts, a.ts) && (a.ts == b.ts ==> !before(b.id, a.id))
        }),
{
    let rs = records_upto(bundle, map, bundle.registry.events.len() as int);
    let out = normalized(bundle, map).records;
    ordering_keeps_every_record(rs, rs.len() as int);
    assert(!crate::adapters::record_before(out[j], out[i]));
}

// ---------------------------------------------------------------------------
// Provenance
// ---------------------------------------------------------------------------
/// Whether an effect creates the artifact of a digest.
pub open spec fn creates_artifact(e: EffectInstanceView, digest: Str) -> bool {
    e.kind == "artifact_create"@ && lookup(e.args, "digest"@) == Some(digest)
}

proof fn lemma_creator(es: Seq<EffectInstanceView>, digest: Str, i: int)
    requires
        0 <= i,
    ensures
        creator_from(es, digest, i) is None <==> forall|k: int|
            i <= k < es.len() ==> !creates_artifact(#[trigger] es[k], digest),
        creator_from(es, digest, i) matches Some(e) ==> creates_artifact(e, digest) && exists|
            k: int,
        |
            i <= k < es.len() && #[trigger] es[k] == e && forall|j: int|
                i <= j < k ==> !creates_artifact(#[trigger] es[j], digest),
    decreases es.len() - i,
{
    if i < es.len() {
        if creates(es[i], digest) {
            assert(es[i] == es[i]);
        } else {
            lemma_creator(es, digest, i + 1);
            if creator_from(es, digest, i) is Some {
                let e = creator_from(es, digest, i)->0;
                let k = choose|k: int|
                    i + 1 <= k < es.len() && #[trigger] es[k] == e && forall|j: int|
                        i + 1 <= j < k ==> !creates_artifact(#[trigger] es[j], digest);
                assert(es[k] == e);
            }
        }
    }
}

/// Provenance that claims a digest gives an edge to the first effect that creates an artifact
/// of that digest, and none where nothing does.
pub proof fn provenance_leads_to_what_created_the_artifact(
    rs: Seq<RecordView>,
    from: Str,
    digest: Str,
)
    ensures
        (forall|k: int|
            0 <= k < all_effects(rs).len() ==> !creates_artifact(
                #[trigger] all_effects(rs)[k],
                digest,
            )) ==> provenance_edge(rs, from, digest).len() == 0,
        (exists|k: int|
            0 <= k < all_effects(rs).len() && creates_artifact(
                #[trigger] all_effects(rs)[k],
                digest,
            )) ==> provenance_edge(rs, from, digest).len() == 1 && provenance_edge(
            rs,
            from,
            digest,
        )[0].ty == "derives_from"@ && provenance_edge(rs, from, digest)[0].from == from && exists|
            k: int,
        |
            0 <= k < all_effects(rs).len() && (#[trigger] all_effects(rs)[k]).id == provenance_edge(
                rs,
                from,
                digest,
            )[0].to && creates_artifact(all_effects(rs)[k], digest) && forall|j: int|
                0 <= j < k ==> !creates_artifact(#[trigger] all_effects(rs)[j], digest),
{
    let es = all_effects(rs);
    lemma_creator(es, digest, 0);
    if creator_from(es, digest, 0) is Some {
        let e = creator_from(es, digest, 0)->0;
        let k = choose|k: int|
            0 <= k < es.len() && #[trigger] es[k] == e && forall|j: int|
                0 <= j < k ==> !creates_artifact(#[trigger] es[j], digest);
        assert(es[k].id == e.id);
    }
}

/// Each event that claims provenance of what was observed before it gives its edge.
pub proof fn claimed_provenance_is_observed(bundle: BundleView, map: AdapterMapView, n: int, i: int)
    requires
        0 <= i < n <= bundle.registry.events.len(),
        lookup(map.registry_actions, bundle.registry.events[i].action) is Some,
        bundle.registry.events[i].provenance is Some,
    ensures
        forall|e: ObservedEdgeView| #[trigger]
            provenance_edge(
                records_upto(bundle, map, i),
                bundle.registry.events[i].id + "."@ + decimal(0),
                bundle.registry.events[i].provenance->0.build_digest,
            ).contains(e) ==> edges_upto(bundle, map, n).contains(e),
    decreases n,
{
    let event = bundle.registry.events[n - 1];
    if i < n - 1 {
        claimed_provenance_is_observed(bundle, map, n - 1, i);
    }
    assert forall|e: ObservedEdgeView| #[trigger]
        provenance_edge(
            records_upto(bundle, map, i),
            bundle.registry.events[i].id + "."@ + decimal(0),
            bundle.registry.events[i].provenance->0.build_digest,
        ).contains(e) implies edges_upto(bundle, map, n).contains(e) by {
        match (lookup(map.registry_actions, event.action), event.provenance) {
            (Some(rule), Some(p)) => {
                assert(event_record(event, rule).effects[0].id == event.id + "."@ + decimal(0));
                lemma_concat_contains(
                    edges_upto(bundle, map, n - 1),
                    provenance_edge(
                        records_upto(bundle, map, n - 1),
                        event_record(event, rule).effects[0].id,
                        p.build_digest,
                    ),
                    e,
                );
            },
            _ => {},
        }
    }
}

} // verus!
