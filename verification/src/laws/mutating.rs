//! Which clauses are relaxed in turn, what comes of it, and what cannot hold together.
use crate::campaign::{mutations_at, pairs_upto, partners_upto, singles_upto, trial, Trial};
use crate::digest::{hex_text, sha256_of};
use crate::judge::plain_options;
use crate::lint::{linted, of_severity, sound, DiagnosticView, Severity};
use crate::load::{checked, loaded, WslErrorView};
use crate::model::{
    classified, EffectTemplateView, PatternView, PrincipalView, RelationSchemaView, SpecView,
    TransitionView,
};
use crate::mus::{
    explainable, extracted, open_planes, oracle_options, relaxed, stands, standing, standing_upto,
    MusOptions,
};
use crate::mutate::{
    all_mutants, applied, arg_mutants, effect_mutants, guard_mutants, obligation_mutants,
    principal_mutants, relation_mutants, transition_mutants, MutantView, MutationView,
};
use crate::net::{compiled, NetView};
use crate::observation::{
    all_facts, lemma_put_fact_contains, put_facts, restricted, FactView, ObservationView,
};
use crate::search::{lemma_concat_contains, lemma_push_contains};
use crate::text::Str;
use crate::verify::{verified, Verdict};
use vstd::prelude::*;
use vstd::utf8::encode_utf8;

verus! {

// ---------------------------------------------------------------------------
// Mutants
// ---------------------------------------------------------------------------
proof fn lemma_obligations(
    t: TransitionView,
    ti: int,
    e: EffectTemplateView,
    ei: int,
    n: int,
    m: MutantView,
)
    requires
        0 <= n <= e.requires_relation.len(),
    ensures
        obligation_mutants(t, ti, e, ei, n).contains(m) <==> exists|o: int|
            0 <= o < n && m == (MutantView {
                id: "drop-obligation:"@ + t.id + "/"@ + e.effect + "/"@ + (
                #[trigger] e.requires_relation[o]).ty,
                description: "transition `"@ + t.id + "` no longer requires "@
                    + e.requires_relation[o].ty + "("@ + e.effect + " -> "@
                    + e.requires_relation[o].target + ")"@,
                mutation: MutationView::DropObligation {
                    transition: ti as usize,
                    emit: ei as usize,
                    obligation: o as usize,
                },
            }),
    decreases n,
{
    if n > 0 {
        lemma_obligations(t, ti, e, ei, n - 1, m);
        let o = e.requires_relation[n - 1];
        lemma_push_contains(
            obligation_mutants(t, ti, e, ei, n - 1),
            MutantView {
                id: "drop-obligation:"@ + t.id + "/"@ + e.effect + "/"@ + o.ty,
                description: "transition `"@ + t.id + "` no longer requires "@ + o.ty + "("@
                    + e.effect + " -> "@ + o.target + ")"@,
                mutation: MutationView::DropObligation {
                    transition: ti as usize,
                    emit: ei as usize,
                    obligation: (n - 1) as usize,
                },
            },
            m,
        );
    }
}

proof fn lemma_star(raw: Str)
    ensures
        classified(raw) == PatternView::Glob("*"@) <==> raw == "*"@,
{
    reveal_strlit("*");
    if raw == "*"@ {
        assert(raw[0] == '*');
        assert(raw.contains('*'));
    }
}

proof fn lemma_args(
    t: TransitionView,
    ti: int,
    e: EffectTemplateView,
    ei: int,
    n: int,
    m: MutantView,
)
    requires
        0 <= n <= e.args.len(),
    ensures
        arg_mutants(t, ti, e, ei, n).contains(m) <==> exists|a: int|
            0 <= a < n && (#[trigger] e.args[a]).1 != "*"@ && m == (MutantView {
                id: "loosen-arg:"@ + t.id + "/"@ + e.effect + "/"@ + e.args[a].0,
                description: "`"@ + e.args[a].0 + "` on "@ + t.id + "."@ + e.effect
                    + " widened from `"@ + e.args[a].1 + "` to any value"@,
                mutation: MutationView::LoosenArg {
                    transition: ti as usize,
                    emit: ei as usize,
                    key: e.args[a].0,
                },
            }),
    decreases n,
{
    if n > 0 {
        lemma_args(t, ti, e, ei, n - 1, m);
        lemma_star(e.args[n - 1].1);
        lemma_push_contains(
            arg_mutants(t, ti, e, ei, n - 1),
            MutantView {
                id: "loosen-arg:"@ + t.id + "/"@ + e.effect + "/"@ + e.args[n - 1].0,
                description: "`"@ + e.args[n - 1].0 + "` on "@ + t.id + "."@ + e.effect
                    + " widened from `"@ + e.args[n - 1].1 + "` to any value"@,
                mutation: MutationView::LoosenArg {
                    transition: ti as usize,
                    emit: ei as usize,
                    key: e.args[n - 1].0,
                },
            },
            m,
        );
    }
}

/// Whether a mutant drops an obligation of a template, or lets one of its arguments be anything
/// that could not be before.
pub open spec fn loosens_template(
    t: TransitionView,
    ti: int,
    e: EffectTemplateView,
    ei: int,
    m: MutantView,
) -> bool {
    ||| exists|o: int|
        0 <= o < e.requires_relation.len() && m == (MutantView {
            id: "drop-obligation:"@ + t.id + "/"@ + e.effect + "/"@ + (
            #[trigger] e.requires_relation[o]).ty,
            description: "transition `"@ + t.id + "` no longer requires "@
                + e.requires_relation[o].ty + "("@ + e.effect + " -> "@
                + e.requires_relation[o].target + ")"@,
            mutation: MutationView::DropObligation {
                transition: ti as usize,
                emit: ei as usize,
                obligation: o as usize,
            },
        })
    ||| exists|a: int|
        0 <= a < e.args.len() && (#[trigger] e.args[a]).1 != "*"@ && m == (MutantView {
            id: "loosen-arg:"@ + t.id + "/"@ + e.effect + "/"@ + e.args[a].0,
            description: "`"@ + e.args[a].0 + "` on "@ + t.id + "."@ + e.effect
                + " widened from `"@ + e.args[a].1 + "` to any value"@,
            mutation: MutationView::LoosenArg {
                transition: ti as usize,
                emit: ei as usize,
                key: e.args[a].0,
            },
        })
}

proof fn lemma_effects(t: TransitionView, ti: int, n: int, m: MutantView)
    requires
        0 <= n <= t.emits.len(),
    ensures
        effect_mutants(t, ti, n).contains(m) <==> exists|e: int|
            0 <= e < n && loosens_template(t, ti, #[trigger] t.emits[e], e, m),
    decreases n,
{
    if n > 0 {
        lemma_effects(t, ti, n - 1, m);
        let e = t.emits[n - 1];
        let a = effect_mutants(t, ti, n - 1);
        let b = obligation_mutants(t, ti, e, n - 1, e.requires_relation.len() as int);
        let c = arg_mutants(t, ti, e, n - 1, e.args.len() as int);
        lemma_obligations(t, ti, e, n - 1, e.requires_relation.len() as int, m);
        lemma_args(t, ti, e, n - 1, e.args.len() as int, m);
        lemma_concat_contains(a, b, m);
        lemma_concat_contains(a + b, c, m);
    }
}

/// Whether a mutant loosens a transition: one of its templates, or its guard.
pub open spec fn loosens_transition(t: TransitionView, ti: int, m: MutantView) -> bool {
    ||| exists|e: int|
        0 <= e < t.emits.len() && loosens_template(t, ti, #[trigger] t.emits[e], e, m)
    ||| t.guard matches Some(g) && m == (MutantView {
        id: "drop-guard:"@ + t.id,
        description: "guard `"@ + g + "` removed from `"@ + t.id + "`"@,
        mutation: MutationView::DropGuard { transition: ti as usize },
    })
}

proof fn lemma_transitions(ts: Seq<TransitionView>, n: int, m: MutantView)
    requires
        0 <= n <= ts.len(),
    ensures
        transition_mutants(ts, n).contains(m) <==> exists|t: int|
            0 <= t < n && loosens_transition(#[trigger] ts[t], t, m),
    decreases n,
{
    if n > 0 {
        lemma_transitions(ts, n - 1, m);
        let t = ts[n - 1];
        let a = transition_mutants(ts, n - 1);
        let b = effect_mutants(t, n - 1, t.emits.len() as int);
        let c = guard_mutants(t, n - 1);
        lemma_effects(t, n - 1, t.emits.len() as int, m);
        lemma_concat_contains(a, b, m);
        lemma_concat_contains(a + b, c, m);
        if t.guard is Some {
            let told = MutantView {
                id: "drop-guard:"@ + t.id,
                description: "guard `"@ + t.guard->0 + "` removed from `"@ + t.id + "`"@,
                mutation: MutationView::DropGuard { transition: (n - 1) as usize },
            };
            assert(c == seq![told]);
            assert(c[0] == told);
            assert(c.contains(m) <==> m == told);
        }
    }
}

proof fn lemma_principals(ps: Seq<(Str, PrincipalView)>, n: int, m: MutantView)
    requires
        0 <= n <= ps.len(),
    ensures
        principal_mutants(ps, n).contains(m) <==> exists|i: int|
            0 <= i < n && (#[trigger] ps[i]).1.id_pattern != "*"@ && m == (MutantView {
                id: "widen-principal:"@ + ps[i].0,
                description: "principal class `"@ + ps[i].0 + "` widened from `"@
                    + ps[i].1.id_pattern + "` to any identity"@,
                mutation: MutationView::WidenPrincipal { name: ps[i].0 },
            }),
    decreases n,
{
    if n > 0 {
        lemma_principals(ps, n - 1, m);
        lemma_push_contains(
            principal_mutants(ps, n - 1),
            MutantView {
                id: "widen-principal:"@ + ps[n - 1].0,
                description: "principal class `"@ + ps[n - 1].0 + "` widened from `"@
                    + ps[n - 1].1.id_pattern + "` to any identity"@,
                mutation: MutationView::WidenPrincipal { name: ps[n - 1].0 },
            },
            m,
        );
    }
}

proof fn lemma_relations(rs: Seq<(Str, RelationSchemaView)>, n: int, m: MutantView)
    requires
        0 <= n <= rs.len(),
    ensures
        relation_mutants(rs, n).contains(m) <==> exists|i: int|
            0 <= i < n && m == (MutantView {
                id: "relax-relation:"@ + (#[trigger] rs[i]).0,
                description: "relation `"@ + rs[i].0 + "` no longer enforces `"@
                    + rs[i].1.constraint + "`"@,
                mutation: MutationView::RelaxRelation { name: rs[i].0 },
            }),
    decreases n,
{
    if n > 0 {
        lemma_relations(rs, n - 1, m);
        lemma_push_contains(
            relation_mutants(rs, n - 1),
            MutantView {
                id: "relax-relation:"@ + rs[n - 1].0,
                description: "relation `"@ + rs[n - 1].0 + "` no longer enforces `"@
                    + rs[n - 1].1.constraint + "`"@,
                mutation: MutationView::RelaxRelation { name: rs[n - 1].0 },
            },
            m,
        );
    }
}

/// There is a mutant for each clause that can be relaxed, and no other: for each obligation, for
/// each argument and each class of principals that does not admit everything already, for each
/// guard, and for the constraint of each relation.
pub proof fn which_mutants_there_are(spec: SpecView, m: MutantView)
    ensures
        all_mutants(spec).contains(m) <==> {
            ||| exists|t: int|
                0 <= t < spec.transitions.len() && loosens_transition(
                    #[trigger] spec.transitions[t],
                    t,
                    m,
                )
            ||| exists|i: int|
                0 <= i < spec.principals.len() && (#[trigger] spec.principals[i]).1.id_pattern
                    != "*"@ && m == (MutantView {
                    id: "widen-principal:"@ + spec.principals[i].0,
                    description: "principal class `"@ + spec.principals[i].0 + "` widened from `"@
                        + spec.principals[i].1.id_pattern + "` to any identity"@,
                    mutation: MutationView::WidenPrincipal { name: spec.principals[i].0 },
                })
            ||| exists|i: int|
                0 <= i < spec.relations.len() && m == (MutantView {
                    id: "relax-relation:"@ + (#[trigger] spec.relations[i]).0,
                    description: "relation `"@ + spec.relations[i].0 + "` no longer enforces `"@
                        + spec.relations[i].1.constraint + "`"@,
                    mutation: MutationView::RelaxRelation { name: spec.relations[i].0 },
                })
        },
{
    let a = transition_mutants(spec.transitions, spec.transitions.len() as int);
    let b = principal_mutants(spec.principals, spec.principals.len() as int);
    let c = relation_mutants(spec.relations, spec.relations.len() as int);
    lemma_transitions(spec.transitions, spec.transitions.len() as int, m);
    lemma_principals(spec.principals, spec.principals.len() as int, m);
    lemma_relations(spec.relations, spec.relations.len() as int, m);
    lemma_concat_contains(a, b, m);
    lemma_concat_contains(a + b, c, m);
}

// ---------------------------------------------------------------------------
// Campaigns
// ---------------------------------------------------------------------------
/// A mutated specification is tried only where it has no error; it then accepts the run or does
/// not.
pub proof fn what_a_trial_shows(
    spec: SpecView,
    ms: Seq<MutationView>,
    obs: ObservationView,
    slack: usize,
)
    ensures
        trial(spec, ms, obs, slack) == Trial::Unsound <==> exists|i: int|
            0 <= i < linted(applied(spec, ms)).diagnostics.len() && (#[trigger] linted(
                applied(spec, ms),
            ).diagnostics[i]).severity == Severity::Error,
        trial(spec, ms, obs, slack) == Trial::Accept ==> verified(
            compiled(applied(spec, ms)),
            obs,
            plain_options(obs, slack),
        ).verdict == Verdict::Accept,
        trial(spec, ms, obs, slack) == Trial::Reject ==> verified(
            compiled(applied(spec, ms)),
            obs,
            plain_options(obs, slack),
        ).verdict == Verdict::Reject,
{
}

/// Every mutant is tried alone, in order.
pub proof fn every_mutant_is_tried(
    spec: SpecView,
    obs: ObservationView,
    slack: usize,
    n: int,
    i: int,
)
    requires
        0 <= i < n <= all_mutants(spec).len(),
    ensures
        singles_upto(spec, obs, slack, n).len() == n,
        singles_upto(spec, obs, slack, n)[i] == trial(
            spec,
            seq![all_mutants(spec)[i].mutation],
            obs,
            slack,
        ),
{
    assert(mutations_at(all_mutants(spec), seq![i]) =~= seq![all_mutants(spec)[i].mutation]);
}

proof fn lemma_partners(
    spec: SpecView,
    obs: ObservationView,
    slack: usize,
    a: int,
    n: int,
    p: (usize, usize),
)
    requires
        0 <= a,
        n <= all_mutants(spec).len() <= usize::MAX,
        a < all_mutants(spec).len(),
    ensures
        partners_upto(spec, obs, slack, a, n).contains(p) <==> p.0 == a && a < p.1 < n && trial(
            spec,
            seq![all_mutants(spec)[p.0 as int].mutation, all_mutants(spec)[p.1 as int].mutation],
            obs,
            slack,
        ) == Trial::Accept,
    decreases n - a,
{
    if n > a + 1 {
        lemma_partners(spec, obs, slack, a, n - 1, p);
        let ms = all_mutants(spec);
        assert(mutations_at(ms, seq![a, n - 1]) =~= seq![ms[a].mutation, ms[n - 1].mutation]);
        lemma_push_contains(
            partners_upto(spec, obs, slack, a, n - 1),
            (a as usize, (n - 1) as usize),
            p,
        );
    }
}

/// The pairs that are told are those, and only those, of two different mutants that together
/// make the run accepted, the earlier one first.
pub proof fn which_pairs_are_told(
    spec: SpecView,
    obs: ObservationView,
    slack: usize,
    n: int,
    p: (usize, usize),
)
    requires
        0 <= n <= all_mutants(spec).len() <= usize::MAX,
    ensures
        pairs_upto(spec, obs, slack, n).contains(p) <==> p.0 < n && p.0 < p.1 < all_mutants(
            spec,
        ).len() && trial(
            spec,
            seq![all_mutants(spec)[p.0 as int].mutation, all_mutants(spec)[p.1 as int].mutation],
            obs,
            slack,
        ) == Trial::Accept,
    decreases n,
{
    if n > 0 {
        which_pairs_are_told(spec, obs, slack, n - 1, p);
        let all = all_mutants(spec).len() as int;
        lemma_partners(spec, obs, slack, n - 1, all, p);
        lemma_concat_contains(
            pairs_upto(spec, obs, slack, n - 1),
            partners_upto(spec, obs, slack, n - 1, all),
            p,
        );
    }
}

// ---------------------------------------------------------------------------
// Loading
// ---------------------------------------------------------------------------
/// The diagnostics of one severity are those that have it, in order, none lost.
pub proof fn diagnostics_are_told_apart_by_severity(
    ds: Seq<DiagnosticView>,
    sev: Severity,
    n: int,
    d: DiagnosticView,
)
    requires
        0 <= n <= ds.len(),
    ensures
        of_severity(ds, sev, n).contains(d) <==> d.severity == sev && exists|i: int|
            0 <= i < n && #[trigger] ds[i] == d,
        of_severity(ds, Severity::Error, n).len() + of_severity(ds, Severity::Warning, n).len()
            == n,
    decreases n,
{
    if n > 0 {
        diagnostics_are_told_apart_by_severity(ds, sev, n - 1, d);
        lemma_push_contains(of_severity(ds, sev, n - 1), ds[n - 1], d);
        assert(ds[n - 1].severity == Severity::Error || ds[n - 1].severity == Severity::Warning);
    }
}

/// A specification is loaded where its version is the one that is known, with the digest of its
/// text and what the checks report; it is taken where they report no error.
pub proof fn which_specifications_are_loaded(raw: Str, spec: SpecView)
    ensures
        loaded(raw, spec) is Ok <==> spec.spec_version == 1,
        spec.spec_version != 1 ==> loaded(raw, spec)->Err_0 == WslErrorView::Version(
            spec.spec_version,
        ) && checked(raw, spec)->Err_0 == WslErrorView::Version(spec.spec_version),
        loaded(raw, spec) matches Ok(l) ==> l.spec == spec && l.hash == hex_text(
            sha256_of(encode_utf8(raw)),
        ) && l.report == linted(spec),
        checked(raw, spec) is Ok <==> spec.spec_version == 1 && forall|i: int|
            0 <= i < linted(spec).diagnostics.len() ==> (#[trigger] linted(
                spec,
            ).diagnostics[i]).severity != Severity::Error,
        checked(raw, spec) is Ok ==> checked(raw, spec)->Ok_0 == loaded(raw, spec)->Ok_0,
        spec.spec_version == 1 && checked(raw, spec) is Err ==> checked(raw, spec)->Err_0
            == (WslErrorView::Unsound {
            workflow: spec.workflow,
            count: of_severity(
                linted(spec).diagnostics,
                Severity::Error,
                linted(spec).diagnostics.len() as int,
            ).len() as usize,
        }),
{
}

// ---------------------------------------------------------------------------
// What cannot hold together
// ---------------------------------------------------------------------------
proof fn lemma_standing(obs: ObservationView, keep: Seq<FactView>, n: int, f: FactView)
    requires
        0 <= n <= keep.len(),
    ensures
        standing_upto(obs, keep, n).contains(f) <==> exists|i: int|
            0 <= i < n && #[trigger] keep[i] == f && stands(obs, keep, f),
    decreases n,
{
    if n > 0 {
        lemma_standing(obs, keep, n - 1, f);
        lemma_put_fact_contains(standing_upto(obs, keep, n - 1), keep[n - 1], f);
    }
}

/// Whether an effect of this name is among the facts that are kept.
pub open spec fn is_kept(keep: Seq<FactView>, effect: Str) -> bool {
    exists|j: int|
        0 <= j < keep.len() && (#[trigger] keep[j] matches FactView::Effect { id, .. } && id
            == effect)
}

/// Whether a fact can stand among those that are kept: a step only where every effect of its
/// record is kept too.
pub open spec fn can_stand(obs: ObservationView, keep: Seq<FactView>, f: FactView) -> bool {
    match f {
        FactView::Step { record, .. } => forall|i: int, k: int|
            #![trigger obs.records[i].effects[k]]
            0 <= i < obs.records.len() && obs.records[i].id == record && 0 <= k
                < obs.records[i].effects.len() ==> is_kept(keep, obs.records[i].effects[k].id),
        _ => true,
    }
}

proof fn lemma_stands(obs: ObservationView, keep: Seq<FactView>, f: FactView)
    ensures
        stands(obs, keep, f) <==> can_stand(obs, keep, f),
{
    assert forall|id: Str| crate::observation::keeps_effect(keep, id) == #[trigger] is_kept(
        keep,
        id,
    ) by {}
    match f {
        FactView::Step { record, step, principal } => {
            if stands(obs, keep, f) {
                assert forall|i: int, k: int|
                    #![trigger obs.records[i].effects[k]]
                    0 <= i < obs.records.len() && obs.records[i].id == record && 0 <= k
                        < obs.records[i].effects.len() implies is_kept(
                    keep,
                    obs.records[i].effects[k].id,
                ) by {
                    assert(crate::mus::is_whole(obs.records[i], keep));
                    assert(crate::observation::keeps_effect(keep, obs.records[i].effects[k].id));
                }
                assert(can_stand(obs, keep, f));
            }
            if can_stand(obs, keep, f) {
                assert forall|i: int|
                    0 <= i < obs.records.len() && (#[trigger] obs.records[i]).id
                        == record implies crate::mus::is_whole(obs.records[i], keep) by {
                    assert forall|k: int| 0 <= k < obs.records[i].effects.len() implies
                        crate::observation::keeps_effect(
                        keep,
                        (#[trigger] obs.records[i].effects[k]).id,
                    ) by {
                        assert(is_kept(keep, obs.records[i].effects[k].id));
                    }
                }
                assert(stands(obs, keep, f));
            }
        },
        _ => {},
    }
}

/// Facts are tried out on the observation that holds them alone, with no plane taken to be
/// complete; a step is left out with an effect of its record. The search goes as deep as records
/// are left, and the slack beyond that.
pub proof fn how_facts_are_tried_out(
    obs: ObservationView,
    opts: MusOptions,
    keep: Seq<FactView>,
    f: FactView,
    i: int,
)
    requires
        restricted(obs, standing(obs, keep)).records.len() + opts.slack <= usize::MAX,
    ensures
        standing(obs, keep).contains(f) <==> keep.contains(f) && can_stand(obs, keep, f),
        relaxed(obs, keep).records == restricted(obs, standing(obs, keep)).records,
        relaxed(obs, keep).edges == restricted(obs, standing(obs, keep)).edges,
        relaxed(obs, keep).planes.len() == obs.planes.len(),
        0 <= i < obs.planes.len() ==> relaxed(obs, keep).planes[i].0 == obs.planes[i].0 && !relaxed(
            obs,
            keep,
        ).planes[i].1.complete && relaxed(obs, keep).planes[i].1.carries
            == obs.planes[i].1.carries,
        oracle_options(obs, opts, keep).bound == relaxed(obs, keep).records.len() + opts.slack,
        oracle_options(obs, opts, keep).slack == opts.slack,
        oracle_options(obs, opts, keep).max_states == opts.max_states,
{
    lemma_standing(obs, keep, keep.len() as int, f);
    lemma_stands(obs, keep, f);
}

/// Nothing is told as impossible where all the facts can be explained once planes may be
/// incomplete; and that is told.
pub proof fn nothing_is_impossible_where_all_can_be_explained(
    net: NetView,
    obs: ObservationView,
    opts: MusOptions,
)
    ensures
        extracted(net, obs, opts).relaxation_accepts <==> explainable(
            net,
            obs,
            opts,
            put_facts(Seq::empty(), all_facts(obs), all_facts(obs).len() as int),
        ),
        extracted(net, obs, opts).relaxation_accepts ==> extracted(net, obs, opts).facts.len() == 0
            && extracted(net, obs, opts).minimal && extracted(net, obs, opts).oracle_calls == 1,
{
}

} // verus!
