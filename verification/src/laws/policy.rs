//! What the permission check finds.
use crate::model::glob_matches;
use crate::observation::{
    all_effects, effects_upto, EffectInstanceView, ObservationView, RecordView,
};
use crate::ordered::lookup;
use crate::policy::{
    details_upto, effect_findings, effect_notes, effects_findings, effects_notes, exact_findings_upto,
    findings_upto, identity_allowed, identity_in, judged, judged_exactly, notes_upto,
    record_findings, record_notes, step_findings, BotPolicyView, PolicyFindingView,
};
use crate::search::lemma_concat_contains;
use crate::text::Str;
use vstd::prelude::*;

verus! {

/// The name that a record acts under: a principal without a domain belongs to the runner.
pub open spec fn acting_as(principal: Str, who: Str) -> bool {
    (principal.contains('@') ==> who == principal) && (!principal.contains('@') ==> who == principal
        + "@ci.internal"@)
}

/// Whether the step of a record is what a finding is about.
pub open spec fn finds_the_step(p: BotPolicyView, r: RecordView, f: PolicyFindingView) -> bool {
    exists|s: Str| #[trigger]
        r.step == Some(s) && p.allowed_steps.len() > 0 && !p.allowed_steps.contains(s) && f.subject
            == r.id && f.detail == "step `"@ + s + "` is not permitted for this identity"@
}

/// Whether an effect is what a finding is about: its action is not listed, or it is and its
/// scope fits none of the patterns.
pub open spec fn finds_the_effect(
    p: BotPolicyView,
    e: EffectInstanceView,
    f: PolicyFindingView,
) -> bool {
    f.subject == e.id && {
        ||| p.allowed_actions.len() > 0 && !p.allowed_actions.contains(e.kind) && f.detail
            == "action `"@ + e.kind + "` is not permitted"@
        ||| (p.allowed_actions.len() == 0 || p.allowed_actions.contains(e.kind))
            && p.allowed_scopes.len() > 0 && lookup(e.args, "scope"@) is Some && (forall|i: int|
            0 <= i < p.allowed_scopes.len() ==> !glob_matches(
                #[trigger] p.allowed_scopes[i],
                lookup(e.args, "scope"@)->0,
            )) && f.detail == "scope `"@ + lookup(e.args, "scope"@)->0
            + "` is outside the permitted scopes"@
    }
}

proof fn lemma_step_findings(p: BotPolicyView, r: RecordView, f: PolicyFindingView)
    ensures
        step_findings(p, r).contains(f) <==> finds_the_step(p, r, f),
{
    match r.step {
        Some(s) => {
            if p.allowed_steps.len() > 0 && !p.allowed_steps.contains(s) {
                assert(step_findings(p, r)[0] == (PolicyFindingView {
                    subject: r.id,
                    detail: "step `"@ + s + "` is not permitted for this identity"@,
                }));
                if finds_the_step(p, r, f) {
                    assert(step_findings(p, r)[0] == f);
                }
                if step_findings(p, r).contains(f) {
                    assert(r.step == Some(s));
                }
            }
        },
        None => {},
    }
}

proof fn lemma_effect_findings(p: BotPolicyView, e: EffectInstanceView, f: PolicyFindingView)
    ensures
        effect_findings(p, e).contains(f) <==> finds_the_effect(p, e, f),
{
    let found = effect_findings(p, e);
    if finds_the_effect(p, e, f) {
        assert(found.len() == 1);
        assert(found[0] == f);
    }
}

proof fn lemma_effects_findings(
    p: BotPolicyView,
    es: Seq<EffectInstanceView>,
    n: int,
    f: PolicyFindingView,
)
    requires
        0 <= n <= es.len(),
    ensures
        effects_findings(p, es, n).contains(f) <==> exists|k: int|
            0 <= k < n && finds_the_effect(p, #[trigger] es[k], f),
    decreases n,
{
    if n > 0 {
        lemma_effects_findings(p, es, n - 1, f);
        lemma_effect_findings(p, es[n - 1], f);
        lemma_concat_contains(effects_findings(p, es, n - 1), effect_findings(p, es[n - 1]), f);
    }
}

/// Whether a finding is about a record whose identity is not the authorised one.
pub open spec fn finds_the_identity(r: RecordView, f: PolicyFindingView) -> bool {
    exists|who: Str| #[trigger]
        acting_as(r.principal, who) && f.subject == r.id && f.detail == "`"@ + who
            + "` is not the authorised identity"@
}

proof fn lemma_record_findings(
    p: BotPolicyView,
    r: RecordView,
    known: bool,
    f: PolicyFindingView,
)
    ensures
        record_findings(p, r, known).contains(f) <==> (!known && finds_the_identity(r, f))
            || finds_the_step(p, r, f) || exists|k: int|
            0 <= k < r.effects.len() && finds_the_effect(p, #[trigger] r.effects[k], f),
{
    let who: Seq<PolicyFindingView> = if known {
        Seq::empty()
    } else {
        seq![crate::policy::identity_finding(r)]
    };
    let effects = effects_findings(p, r.effects, r.effects.len() as int);
    lemma_step_findings(p, r, f);
    lemma_effects_findings(p, r.effects, r.effects.len() as int, f);
    lemma_concat_contains(who, step_findings(p, r), f);
    lemma_concat_contains(who + step_findings(p, r), effects, f);
    assert(acting_as(r.principal, identity_in(r.principal)));
    if !known {
        assert(who[0] == crate::policy::identity_finding(r));
    }
}

proof fn lemma_findings(p: BotPolicyView, rs: Seq<RecordView>, n: int, f: PolicyFindingView)
    requires
        0 <= n <= rs.len(),
    ensures
        findings_upto(p, rs, n).contains(f) <==> exists|i: int|
            0 <= i < n && record_findings(
                p,
                #[trigger] rs[i],
                identity_allowed(p, rs[i].principal),
            ).contains(f),
        exact_findings_upto(p, rs, n).contains(f) <==> exists|i: int|
            0 <= i < n && record_findings(
                p,
                #[trigger] rs[i],
                identity_in(rs[i].principal) == p.identity,
            ).contains(f),
    decreases n,
{
    if n > 0 {
        lemma_findings(p, rs, n - 1, f);
        let last = rs[n - 1];
        let loose = record_findings(p, last, identity_allowed(p, last.principal));
        let strict = record_findings(p, last, identity_in(last.principal) == p.identity);
        lemma_concat_contains(findings_upto(p, rs, n - 1), loose, f);
        lemma_concat_contains(exact_findings_upto(p, rs, n - 1), strict, f);
    }
}

/// The permission check finds these things and no others: an identity that the policy's pattern
/// does not match, a step that a list of steps leaves out, an action that a list of actions
/// leaves out, and the scope of a listed action that no pattern of a list of scopes matches,
/// wherever in that list a pattern stands.
pub proof fn what_the_permission_check_finds(
    p: BotPolicyView,
    obs: ObservationView,
    f: PolicyFindingView,
)
    ensures
        judged(p, obs).findings.contains(f) <==> exists|i: int|
            #![trigger obs.records[i]]
            0 <= i < obs.records.len() && {
                ||| finds_the_identity(obs.records[i], f) && p.identity.len() > 0 && forall|
                    who: Str,
                | #[trigger]
                    acting_as(obs.records[i].principal, who) ==> who != p.identity && !glob_matches(
                        p.identity,
                        who,
                    )
                ||| finds_the_step(p, obs.records[i], f)
                ||| exists|k: int|
                    0 <= k < obs.records[i].effects.len() && finds_the_effect(
                        p,
                        #[trigger] obs.records[i].effects[k],
                        f,
                    )
            },
{
    let rs = obs.records;
    lemma_findings(p, rs, rs.len() as int, f);
    assert forall|i: int| 0 <= i < rs.len() implies record_findings(
        p,
        #[trigger] rs[i],
        identity_allowed(p, rs[i].principal),
    ).contains(f) == ({
        ||| finds_the_identity(rs[i], f) && p.identity.len() > 0 && forall|who: Str| #[trigger]
            acting_as(rs[i].principal, who) ==> who != p.identity && !glob_matches(p.identity, who)
        ||| finds_the_step(p, rs[i], f)
        ||| exists|k: int|
            0 <= k < rs[i].effects.len() && finds_the_effect(p, #[trigger] rs[i].effects[k], f)
    }) by {
        lemma_record_findings(p, rs[i], identity_allowed(p, rs[i].principal), f);
        assert(acting_as(rs[i].principal, identity_in(rs[i].principal)));
    }
    if judged(p, obs).findings.contains(f) {
        let i = choose|i: int|
            0 <= i < rs.len() && record_findings(
                p,
                #[trigger] rs[i],
                identity_allowed(p, rs[i].principal),
            ).contains(f);
        assert(obs.records[i] == rs[i]);
    } else {
        assert forall|i: int| 0 <= i < rs.len() implies !(record_findings(
            p,
            #[trigger] rs[i],
            identity_allowed(p, rs[i].principal),
        ).contains(f)) by {}
    }
}

/// Where the policy names one identity exactly, a record under any other name is found, however
/// the name reads as a pattern; of steps, actions and scopes the same things are found.
pub proof fn what_the_exact_permission_check_finds(
    p: BotPolicyView,
    obs: ObservationView,
    f: PolicyFindingView,
)
    ensures
        judged_exactly(p, obs).findings.contains(f) <==> exists|i: int|
            #![trigger obs.records[i]]
            0 <= i < obs.records.len() && {
                ||| finds_the_identity(obs.records[i], f) && !acting_as(
                    obs.records[i].principal,
                    p.identity,
                )
                ||| finds_the_step(p, obs.records[i], f)
                ||| exists|k: int|
                    0 <= k < obs.records[i].effects.len() && finds_the_effect(
                        p,
                        #[trigger] obs.records[i].effects[k],
                        f,
                    )
            },
{
    let rs = obs.records;
    lemma_findings(p, rs, rs.len() as int, f);
    assert forall|i: int| 0 <= i < rs.len() implies record_findings(
        p,
        #[trigger] rs[i],
        identity_in(rs[i].principal) == p.identity,
    ).contains(f) == ({
        ||| finds_the_identity(rs[i], f) && !acting_as(rs[i].principal, p.identity)
        ||| finds_the_step(p, rs[i], f)
        ||| exists|k: int|
            0 <= k < rs[i].effects.len() && finds_the_effect(p, #[trigger] rs[i].effects[k], f)
    }) by {
        lemma_record_findings(p, rs[i], identity_in(rs[i].principal) == p.identity, f);
    }
    if judged_exactly(p, obs).findings.contains(f) {
        let i = choose|i: int|
            0 <= i < rs.len() && record_findings(
                p,
                #[trigger] rs[i],
                identity_in(rs[i].principal) == p.identity,
            ).contains(f);
        assert(obs.records[i] == rs[i]);
    } else {
        assert forall|i: int| 0 <= i < rs.len() implies !(record_findings(
            p,
            #[trigger] rs[i],
            identity_in(rs[i].principal) == p.identity,
        ).contains(f)) by {}
    }
}

/// Whether a note of the service is about an effect.
pub open spec fn notes_the_effect(p: BotPolicyView, e: EffectInstanceView, note: Str) -> bool {
    ||| p.allowed_actions.len() > 0 && !p.allowed_actions.contains(e.kind) && note == "action "@
        + e.kind + " is not permitted"@
    ||| (p.allowed_actions.len() == 0 || p.allowed_actions.contains(e.kind))
        && p.allowed_scopes.len() > 0 && lookup(e.args, "scope"@) is Some && (forall|i: int|
        0 <= i < p.allowed_scopes.len() ==> !glob_matches(
            #[trigger] p.allowed_scopes[i],
            lookup(e.args, "scope"@)->0,
        )) && note == "scope "@ + lookup(e.args, "scope"@)->0 + " is outside the permitted scopes"@
}

proof fn lemma_effects_notes(p: BotPolicyView, es: Seq<EffectInstanceView>, n: int, note: Str)
    requires
        0 <= n <= es.len(),
    ensures
        effects_notes(p, es, n).contains(note) <==> exists|k: int|
            0 <= k < n && notes_the_effect(p, #[trigger] es[k], note),
    decreases n,
{
    if n > 0 {
        lemma_effects_notes(p, es, n - 1, note);
        let told = effect_notes(p, es[n - 1]);
        assert(told.contains(note) == notes_the_effect(p, es[n - 1], note)) by {
            if notes_the_effect(p, es[n - 1], note) {
                assert(told[0] == note);
            }
        }
        lemma_concat_contains(effects_notes(p, es, n - 1), told, note);
    }
}

/// Whether a note of the service is about a record: the policy's pattern does not match the
/// name, or one of the effects is not permitted.
pub open spec fn notes_the_record(p: BotPolicyView, r: RecordView, note: Str) -> bool {
    ||| p.identity.len() > 0 && exists|who: Str| #[trigger]
        acting_as(r.principal, who) && who != p.identity && !glob_matches(p.identity, who) && note
            == who + " is not the authorised identity"@
    ||| exists|k: int|
        0 <= k < r.effects.len() && notes_the_effect(p, #[trigger] r.effects[k], note)
}

/// The service tells of these things and no others. It does not look at steps.
pub proof fn what_the_service_tells(p: BotPolicyView, rs: Seq<RecordView>, n: int, note: Str)
    requires
        0 <= n <= rs.len(),
    ensures
        notes_upto(p, rs, n).contains(note) <==> exists|i: int|
            0 <= i < n && notes_the_record(p, #[trigger] rs[i], note),
    decreases n,
{
    if n > 0 {
        what_the_service_tells(p, rs, n - 1, note);
        let r = rs[n - 1];
        let effects = effects_notes(p, r.effects, r.effects.len() as int);
        lemma_effects_notes(p, r.effects, r.effects.len() as int, note);
        assert(acting_as(r.principal, identity_in(r.principal)));
        let named = identity_in(r.principal) + " is not the authorised identity"@;
        let who: Seq<Str> = if identity_allowed(p, r.principal) {
            Seq::empty()
        } else {
            seq![named]
        };
        if !identity_allowed(p, r.principal) {
            assert(who[0] == named);
        }
        lemma_concat_contains(who, effects, note);
        assert(record_notes(p, r) == who + effects);
        assert(record_notes(p, r).contains(note) == notes_the_record(p, r, note));
        lemma_concat_contains(notes_upto(p, rs, n - 1), record_notes(p, r), note);
    }
}

proof fn lemma_findings_take(p: BotPolicyView, a: Seq<RecordView>, b: Seq<RecordView>, n: int)
    requires
        0 <= n <= b.len(),
    ensures
        findings_upto(p, a + b, a.len() + n) == findings_upto(p, a, a.len() as int)
            + findings_upto(p, b, n),
        exact_findings_upto(p, a + b, a.len() + n) == exact_findings_upto(p, a, a.len() as int)
            + exact_findings_upto(p, b, n),
        effects_upto(a + b, a.len() + n).len() == effects_upto(a, a.len() as int).len()
            + effects_upto(b, n).len(),
    decreases a.len() + n,
{
    if n > 0 {
        lemma_findings_take(p, a, b, n - 1);
        assert((a + b)[a.len() + n - 1] == b[n - 1]);
        let last = b[n - 1];
        assert(findings_upto(p, a + b, a.len() + n) =~= findings_upto(p, a, a.len() as int)
            + findings_upto(p, b, n));
        assert(exact_findings_upto(p, a + b, a.len() + n) =~= exact_findings_upto(
            p,
            a,
            a.len() as int,
        ) + exact_findings_upto(p, b, n));
    } else {
        lemma_findings_head(p, a, b, a.len() as int);
        assert(findings_upto(p, b, 0) =~= Seq::empty());
        assert(exact_findings_upto(p, b, 0) =~= Seq::empty());
        assert(findings_upto(p, a, a.len() as int) + findings_upto(p, b, 0) =~= findings_upto(
            p,
            a,
            a.len() as int,
        ));
        assert(exact_findings_upto(p, a, a.len() as int) + exact_findings_upto(p, b, 0)
            =~= exact_findings_upto(p, a, a.len() as int));
    }
}

proof fn lemma_findings_head(p: BotPolicyView, a: Seq<RecordView>, b: Seq<RecordView>, n: int)
    requires
        0 <= n <= a.len(),
    ensures
        findings_upto(p, a + b, n) == findings_upto(p, a, n),
        exact_findings_upto(p, a + b, n) == exact_findings_upto(p, a, n),
        effects_upto(a + b, n) == effects_upto(a, n),
    decreases n,
{
    if n > 0 {
        lemma_findings_head(p, a, b, n - 1);
        assert((a + b)[n - 1] == a[n - 1]);
    }
}

/// What is found of two runs of records in a row is what is found of the first, and then what
/// is found of the second.
pub proof fn findings_follow_the_records(
    p: BotPolicyView,
    obs: ObservationView,
    a: Seq<RecordView>,
    b: Seq<RecordView>,
)
    requires
        obs.records == a + b,
    ensures
        judged(p, obs).findings == judged(p, ObservationView { records: a, ..obs }).findings
            + judged(p, ObservationView { records: b, ..obs }).findings,
        judged_exactly(p, obs).findings == judged_exactly(
            p,
            ObservationView { records: a, ..obs },
        ).findings + judged_exactly(p, ObservationView { records: b, ..obs }).findings,
{
    lemma_findings_take(p, a, b, b.len() as int);
}

/// A check counts each record as an identity looked at, and each effect as an action.
pub proof fn a_check_counts_what_it_looks_at(
    p: BotPolicyView,
    obs: ObservationView,
    r: RecordView,
)
    requires
        obs.records.len() < usize::MAX,
        judged(p, obs).checked_actions + r.effects.len() <= usize::MAX,
        all_effects(obs.records).len() <= usize::MAX,
    ensures
        judged(p, ObservationView { records: obs.records.push(r), ..obs }).checked_identities
            == judged(p, obs).checked_identities + 1,
        judged(p, ObservationView { records: obs.records.push(r), ..obs }).checked_actions
            == judged(p, obs).checked_actions + r.effects.len(),
        obs.records.len() == 0 ==> judged(p, obs).checked_identities == 0 && judged(
            p,
            obs,
        ).checked_actions == 0,
{
    assert(obs.records.push(r) =~= obs.records + seq![r]);
    lemma_findings_take(p, obs.records, seq![r], 1);
    assert(effects_upto(seq![r], 0).len() == 0);
    assert(effects_upto(seq![r], 1) == effects_upto(seq![r], 0) + seq![r][0].effects);
}

/// What a check tells are the details of what it found, in order.
pub proof fn a_check_tells_every_detail(fs: Seq<PolicyFindingView>)
    ensures
        details_upto(fs, fs.len() as int).len() == fs.len(),
        forall|i: int|
            0 <= i < fs.len() ==> #[trigger] details_upto(fs, fs.len() as int)[i] == fs[i].detail,
{
    lemma_details(fs, fs.len() as int);
}

proof fn lemma_details(fs: Seq<PolicyFindingView>, n: int)
    requires
        0 <= n <= fs.len(),
    ensures
        details_upto(fs, n).len() == n,
        forall|i: int| 0 <= i < n ==> #[trigger] details_upto(fs, n)[i] == fs[i].detail,
    decreases n,
{
    if n > 0 {
        lemma_details(fs, n - 1);
    }
}

} // verus!
