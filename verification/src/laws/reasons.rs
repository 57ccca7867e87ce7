//! Which reasons a search gathers for not going on.
use crate::expand::{expansion, firings, observed_haul, slack_haul};
use crate::guess::mark_of;
use crate::laws::matching::gaps_are_obligations_without_an_edge;
use crate::matching::{gaps_upto, guard_holds};
use crate::model::EffectTemplateView;
use crate::net::{CompiledTransitionView, FailureView, NetView};
use crate::observation::{effect_named, EffectInstanceView, ObservationView};
use crate::search::{
    bound_for, env_for, gaps_of, lemma_concat_contains, lemma_push_contains, minted, record_check,
    unattested_from, unmet_for, AimView, CheckView, StateView,
};
use crate::text::Str;
use vstd::prelude::*;

verus! {

proof fn lemma_gaps(
    emits: Seq<EffectTemplateView>,
    effects: Seq<EffectInstanceView>,
    transition: Str,
    obs: ObservationView,
    n: int,
    k: int,
    f: FailureView,
)
    requires
        0 <= k < n <= emits.len(),
        gaps_upto(
            emits[k].requires_relation,
            transition,
            effects[k].id,
            obs,
            emits[k].requires_relation.len() as int,
        ).contains(f),
    ensures
        gaps_of(emits, effects, transition, obs, n).contains(f),
    decreases n,
{
    lemma_concat_contains(
        gaps_of(emits, effects, transition, obs, n - 1),
        gaps_upto(
            emits[n - 1].requires_relation,
            transition,
            effects[n - 1].id,
            obs,
            emits[n - 1].requires_relation.len() as int,
        ),
        f,
    );
    if k < n - 1 {
        lemma_gaps(emits, effects, transition, obs, n - 1, k, f);
    }
}

proof fn lemma_observed(
    net: NetView,
    obs: ObservationView,
    mark: Str,
    preds: Seq<Seq<usize>>,
    s: StateView,
    n: int,
    ix: int,
    f: FailureView,
)
    requires
        0 <= ix < n <= obs.records.len(),
        match record_check(net, obs, preds, s, ix) {
            CheckView::Fail(g) => f == g,
            CheckView::Ready(t) => gaps_of(
                t.emits,
                obs.records[ix].effects,
                t.id,
                obs,
                t.emits.len() as int,
            ).contains(f),
            CheckView::Skip => false,
        },
    ensures
        observed_haul(net, obs, mark, preds, s, n).faults.contains(f),
    decreases n,
{
    let rest = observed_haul(net, obs, mark, preds, s, n - 1);
    if ix < n - 1 {
        lemma_observed(net, obs, mark, preds, s, n - 1, ix, f);
    }
    match record_check(net, obs, preds, s, n - 1) {
        CheckView::Skip => {},
        CheckView::Fail(g) => {
            lemma_push_contains(rest.faults, g, f);
        },
        CheckView::Ready(t) => {
            let gaps = gaps_of(
                t.emits,
                obs.records[n - 1].effects,
                t.id,
                obs,
                t.emits.len() as int,
            );
            let more = firings(net, obs, mark, s, t, seq![AimView::Record(n - 1)]);
            lemma_concat_contains(rest.faults, gaps, f);
            lemma_concat_contains(rest.faults + gaps, more.faults, f);
        },
    }
}

/// What keeps a record that comes next from being explained is gathered; and so is each
/// obligation of its effects for which there is no edge at all.
pub proof fn what_keeps_a_record_back_is_gathered(
    net: NetView,
    obs: ObservationView,
    preds: Seq<Seq<usize>>,
    slack: nat,
    s: StateView,
    ix: int,
    t: CompiledTransitionView,
    k: int,
    j: int,
)
    requires
        0 <= ix < obs.records.len(),
    ensures
        record_check(net, obs, preds, s, ix) matches CheckView::Fail(f) ==> expansion(
            net,
            obs,
            preds,
            slack,
            s,
        ).faults.contains(f),
        record_check(net, obs, preds, s, ix) == CheckView::Ready(t) && 0 <= k < t.emits.len() && 0
            <= j < t.emits[k].requires_relation.len() && (forall|e: int|
            0 <= e < obs.edges.len() && (#[trigger] obs.edges[e]).ty
                == t.emits[k].requires_relation[j].ty && obs.edges[e].from
                == obs.records[ix].effects[k].id ==> (effect_named(
                obs.records,
                obs.edges[e].to,
            ) matches Some(target) ==> target.kind != t.emits[k].requires_relation[j].target))
            ==> expansion(net, obs, preds, slack, s).faults.contains(
            FailureView::ObligationUnmet {
                transition: t.id,
                relation: t.emits[k].requires_relation[j].ty,
                effect: obs.records[ix].effects[k].id,
                target: t.emits[k].requires_relation[j].target,
                detail: "the observation contains no `"@ + t.emits[k].requires_relation[j].ty
                    + "` edge from this effect to any `"@ + t.emits[k].requires_relation[j].target
                    + "`"@,
            },
        ),
{
    reveal(expansion);
    let mark = mark_of(net, obs);
    let n = obs.records.len() as int;
    let seen = observed_haul(net, obs, mark, preds, s, n);
    let more = slack_haul(net, obs, mark, s, net.transitions.len() as int);
    match record_check(net, obs, preds, s, ix) {
        CheckView::Fail(f) => {
            lemma_observed(net, obs, mark, preds, s, n, ix, f);
            lemma_concat_contains(seen.faults, more.faults, f);
        },
        CheckView::Ready(u) => {
            if u == t && 0 <= k < t.emits.len() && 0 <= j < t.emits[k].requires_relation.len() && (
            forall|e: int|
                0 <= e < obs.edges.len() && (#[trigger] obs.edges[e]).ty
                    == t.emits[k].requires_relation[j].ty && obs.edges[e].from
                    == obs.records[ix].effects[k].id ==> (effect_named(
                    obs.records,
                    obs.edges[e].to,
                ) matches Some(target) ==> target.kind
                    != t.emits[k].requires_relation[j].target)) {
                let os = t.emits[k].requires_relation;
                let f = FailureView::ObligationUnmet {
                    transition: t.id,
                    relation: os[j].ty,
                    effect: obs.records[ix].effects[k].id,
                    target: os[j].target,
                    detail: "the observation contains no `"@ + os[j].ty
                        + "` edge from this effect to any `"@ + os[j].target + "`"@,
                };
                gaps_are_obligations_without_an_edge(
                    os,
                    t.id,
                    obs.records[ix].effects[k].id,
                    obs,
                    os.len() as int,
                    f,
                );
                lemma_gaps(
                    t.emits,
                    obs.records[ix].effects,
                    t.id,
                    obs,
                    t.emits.len() as int,
                    k,
                    f,
                );
                lemma_observed(net, obs, mark, preds, s, n, ix, f);
                lemma_concat_contains(seen.faults, more.faults, f);
            }
        },
        CheckView::Skip => {},
    }
}

/// A firing fails for the first of these reasons: what it is to explain does not match, a value
/// that it takes from evidence is not attested, its guard is false, or an obligation is not
/// discharged. The second and the third are told of records alone.
pub proof fn why_a_firing_fails(
    net: NetView,
    obs: ObservationView,
    t: CompiledTransitionView,
    aim: AimView,
    matched: Seq<Str>,
    base: Seq<(Str, Str)>,
    names: Seq<Str>,
)
    ensures
        ({
            let r = env_for(net, obs, t, aim, matched, base, names);
            match bound_for(obs, t, aim, base) {
                Err(f) => r is Err && r->Err_0 == f,
                Ok(bound) => {
                    let env = minted(bound, t.binds, names, t.binds.len() as int).0;
                    match unattested_from(t.attested, bound, net.evidence, 0) {
                        Some(p) => r is Err && r->Err_0 == (if aim is Record {
                            Some(
                                FailureView::NotAttested {
                                    transition: t.id,
                                    bind: p.0,
                                    value: p.1,
                                },
                            )
                        } else {
                            None
                        }),
                        None => if t.guard is Some && !guard_holds(t.guard->0, env) {
                            r is Err && r->Err_0 == (if aim is Record {
                                Some(
                                    FailureView::GuardFalse {
                                        transition: t.id,
                                        guard: t.guard->0,
                                    },
                                )
                            } else {
                                None
                            })
                        } else {
                            match unmet_for(obs, t, aim, env, matched) {
                                Some(f) => r is Err && r->Err_0 == Some(f),
                                None => r is Ok && r->Ok_0.0 == env,
                            }
                        },
                    }
                },
            }
        }),
{
}

} // verus!
