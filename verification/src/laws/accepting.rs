//! What an accepted run shows.
use crate::guess::mark_of;
use crate::laws::matching::{
    a_match_carries_what_the_template_says, discharges, edges_are_held_against_their_relations,
    extends, fits, obligations_are_met_by_edges, tells_of_edge,
};
use crate::laws::nets::{minting_gives_values_where_there_are_none, what_lacks_evidence};
use crate::matching::{edge_failures, guard_holds, matched_effect};
use crate::model::{glob_matches, EffectTemplateView};
use crate::net::{
    compiled_from, fired, joined_tokens, lemma_compiled_from, net_ok, CompiledTransitionView,
    FailureView, NetView,
};
use crate::observation::{
    all_effects, dangling_upto, effect_named, effects_upto, lemma_preds_upto, must_precede, ordered,
    predecessors, preds_upto, EffectInstanceView, ObservationView,
};
use crate::ordered::{lemma_put_item_contains, lemma_put_items_contains, lookup};
use crate::runs::{accepted_runs_are_explained, explains, is_run, lemma_run_states};
use crate::search::{
    bound_for, by_record, by_transition, env_for, fires, further, ids_of, lemma_concat_contains,
    lemma_targets, matched_effects, may_go_unlogged, minted, one_step, open_effects, record_check,
    score, state_ok, targets_of, unmet_effect_from, AimView, StateView, WitnessStepView,
};
use crate::states::state_key;
use crate::text::Str;
use crate::verify::{
    accepting, effect_set, expanded, first_quest, initial_state, logged_all, order_of,
    search_result, searched, verified, QuestView, Verdict, VerifyOptions,
};
use vstd::prelude::*;

verus! {

/// Whether an effect is what a template says, where `env` says what the variables stand for.
pub open spec fn is_as_said(
    template: EffectTemplateView,
    effect: EffectInstanceView,
    env: Seq<(Str, Str)>,
) -> bool {
    &&& effect.kind == template.effect
    &&& forall|k: int|
        0 <= k < template.args.len() ==> (lookup(effect.args, (#[trigger] template.args[k]).0)
            matches Some(v) && fits(template.args[k].1, v, env))
}

proof fn lemma_as_said_still(
    template: EffectTemplateView,
    effect: EffectInstanceView,
    env: Seq<(Str, Str)>,
    out: Seq<(Str, Str)>,
)
    requires
        is_as_said(template, effect, env),
        extends(env, out),
    ensures
        is_as_said(template, effect, out),
{
    assert forall|k: int| 0 <= k < template.args.len() implies (lookup(
        effect.args,
        (#[trigger] template.args[k]).0,
    ) matches Some(v) && fits(template.args[k].1, v, out)) by {
        let raw = template.args[k].1;
        let v = lookup(effect.args, template.args[k].0)->0;
        assert(fits(raw, v, env));
        if raw.len() > 0 && raw[0] == '$' {
            assert(lookup(env, raw.skip(1)) is Some);
        }
    }
}

proof fn lemma_matched_effects(
    emits: Seq<EffectTemplateView>,
    effects: Seq<EffectInstanceView>,
    env: Seq<(Str, Str)>,
    step: Str,
    i: int,
)
    requires
        0 <= i,
        emits.len() == effects.len(),
    ensures
        matched_effects(emits, effects, env, step, i) matches Ok(out) ==> extends(env, out)
            && forall|k: int|
            i <= k < emits.len() ==> is_as_said(#[trigger] emits[k], effects[k], out),
    decreases emits.len() - i,
{
    if i < emits.len() && matched_effects(emits, effects, env, step, i) is Ok {
        let out = matched_effects(emits, effects, env, step, i)->Ok_0;
        a_match_carries_what_the_template_says(emits[i], effects[i], env, step);
        let next = matched_effect(emits[i], effects[i], env, step)->Ok_0;
        lemma_matched_effects(emits, effects, next, step, i + 1);
        assert(is_as_said(emits[i], effects[i], next));
        lemma_as_said_still(emits[i], effects[i], next, out);
        assert forall|x: Str| (#[trigger] lookup(env, x)) is Some implies lookup(out, x) == lookup(
            env,
            x,
        ) by {
            assert(lookup(next, x) == lookup(env, x));
        }
    }
}

proof fn lemma_minted_extends(env: Seq<(Str, Str)>, binds: Seq<Str>, names: Seq<Str>)
    ensures
        extends(env, minted(env, binds, names, binds.len() as int).0),
{
    assert forall|x: Str| (#[trigger] lookup(env, x)) is Some implies lookup(
        minted(env, binds, names, binds.len() as int).0,
        x,
    ) == lookup(env, x) by {
        minting_gives_values_where_there_are_none(env, binds, names, binds.len() as int, x);
    }
}

/// Whether every obligation of a template is discharged by an observed edge of an effect.
pub open spec fn is_related(
    obs: ObservationView,
    template: EffectTemplateView,
    effect: Str,
    env: Seq<(Str, Str)>,
    explained: Seq<Str>,
) -> bool {
    forall|j: int|
        0 <= j < template.requires_relation.len() ==> exists|k: int|
            0 <= k < obs.edges.len() && discharges(
                obs,
                #[trigger] obs.edges[k],
                #[trigger] template.requires_relation[j],
                effect,
                env,
                explained,
            )
}

proof fn lemma_related(
    emits: Seq<EffectTemplateView>,
    effects: Seq<EffectInstanceView>,
    transition: Str,
    env: Seq<(Str, Str)>,
    obs: ObservationView,
    matched: Seq<Str>,
    i: int,
)
    requires
        0 <= i,
        unmet_effect_from(emits, effects, transition, env, obs, matched, i) is None,
    ensures
        forall|k: int|
            i <= k < emits.len() ==> is_related(
                obs,
                #[trigger] emits[k],
                effects[k].id,
                env,
                matched,
            ),
    decreases emits.len() - i,
{
    if i < emits.len() {
        obligations_are_met_by_edges(
            emits[i].requires_relation,
            transition,
            effects[i].id,
            env,
            obs,
            matched,
        );
        lemma_related(emits, effects, transition, env, obs, matched, i + 1);
    }
}

/// Whether the conditions of a transition hold of what its variables stand for: its guard, and
/// that evidence attests whatever it takes from evidence.
pub open spec fn may_fire(
    net: NetView,
    t: CompiledTransitionView,
    env: Seq<(Str, Str)>,
) -> bool {
    &&& t.guard matches Some(g) ==> guard_holds(g, env)
    &&& forall|k: int|
        0 <= k < t.attested.len() ==> (lookup(env, #[trigger] t.attested[k]) matches Some(v)
            && net.evidence.contains(v))
    &&& forall|k: int| 0 <= k < t.binds.len() ==> lookup(env, #[trigger] t.binds[k]) is Some
}

/// Whether the tokens are moved by a firing: a token is taken for each input, no token twice,
/// the variables stand for what those tokens say, and what is left, with the new tokens, is the
/// next marking.
pub open spec fn moves_tokens(
    net: NetView,
    t: CompiledTransitionView,
    env: Seq<(Str, Str)>,
    from: Seq<Seq<Seq<(Str, Str)>>>,
    to: Seq<Seq<Seq<(Str, Str)>>>,
) -> bool {
    exists|choice: Seq<usize>|
        choice.len() == t.consumes.len() && (forall|s: int|
            0 <= s < choice.len() ==> #[trigger] choice[s] < from[t.consumes[s] as int].len()) && (
        forall|s: int, u: int|
            0 <= s < u < choice.len() && t.consumes[s] == t.consumes[u] ==> #[trigger] choice[s]
                != #[trigger] choice[u]) && (joined_tokens(
            from,
            t.consumes,
            choice,
            t.consumes.len() as int,
        ) matches Some(base) && extends(base, env)) && to == #[trigger] fired(
            net,
            from,
            t,
            choice,
            env,
        )
}

/// Whether a step explains an observed record: the record claims the step and comes after all
/// that must precede it, its principal is one of the class that the transition names, its
/// effects are what the templates say and are related as these ask for, and the transition may
/// fire. The record is explained then, and its effects are.
pub open spec fn explains_record(
    net: NetView,
    obs: ObservationView,
    s: StateView,
    next: StateView,
    ix: int,
    t: CompiledTransitionView,
) -> bool {
    let r = obs.records[ix];
    let env = next.path.last().bindings;
    &&& net.transitions.contains(t)
    &&& r.step == Some(t.id)
    &&& !s.consumed[ix]
    &&& ordered(obs) is Ok ==> forall|j: int|
        0 <= j < obs.records.len() && #[trigger] must_precede(obs, j, ix) ==> s.consumed[j]
    &&& lookup(net.spec.principals, t.principal) matches Some(p) && glob_matches(
        p.id_pattern,
        r.principal,
    )
    &&& t.emits.len() == r.effects.len()
    &&& forall|k: int|
        0 <= k < t.emits.len() ==> is_as_said(#[trigger] t.emits[k], r.effects[k], env)
            && is_related(obs, t.emits[k], r.effects[k].id, env, s.matched)
    &&& may_fire(net, t, env)
    &&& moves_tokens(net, t, env, s.marking, next.marking)
    &&& next.consumed == s.consumed.update(ix, true)
    &&& forall|id: Str| #[trigger]
        next.matched.contains(id) <==> s.matched.contains(id) || exists|k: int|
            0 <= k < r.effects.len() && (#[trigger] r.effects[k]).id == id
    &&& next.slack_used == s.slack_used
    &&& next.path == s.path.push(
        WitnessStepView {
            transition: t.id,
            principal: r.principal,
            record: Some(r.id),
            observed: true,
            bindings: env,
        },
    )
}

/// Whether a step goes unlogged: no complete plane would show what the transition emits, it may
/// fire, and it explains no record, and at most one effect that no step claims, which is then
/// what the transition's one template says. It uses up some of the slack.
pub open spec fn goes_unlogged(
    net: NetView,
    obs: ObservationView,
    s: StateView,
    next: StateView,
    t: CompiledTransitionView,
) -> bool {
    let env = next.path.last().bindings;
    &&& net.transitions.contains(t)
    &&& forall|k: int, i: int|
        #![trigger t.emits[k], obs.planes[i]]
        0 <= k < t.emits.len() && 0 <= i < obs.planes.len() ==> !(obs.planes[i].1.complete
            && obs.planes[i].1.carries.contains(t.emits[k].effect))
    &&& may_fire(net, t, env)
    &&& moves_tokens(net, t, env, s.marking, next.marking)
    &&& next.consumed == s.consumed
    &&& next.slack_used == s.slack_used + 1
    &&& next.matched == s.matched || exists|e: EffectInstanceView|
        t.emits.len() == 1 && #[trigger] is_as_said(t.emits[0], e, env) && is_related(
            obs,
            t.emits[0],
            e.id,
            env,
            s.matched,
        ) && effect_named(obs.records, e.id) == Some(e) && !s.matched.contains(e.id) && forall|
            id: Str,
        | #[trigger]
            next.matched.contains(id) <==> s.matched.contains(id) || id == e.id
    &&& next.path == s.path.push(
        WitnessStepView {
            transition: t.id,
            principal: t.principal,
            record: None,
            observed: false,
            bindings: env,
        },
    )
}

proof fn lemma_may_fire(
    net: NetView,
    obs: ObservationView,
    s: StateView,
    t: CompiledTransitionView,
    choice: Seq<usize>,
    aim: AimView,
    names: Seq<Str>,
    next: StateView,
)
    requires
        fires(net, obs, s, t, choice, aim, names, next),
    ensures
        may_fire(net, t, next.path.last().bindings),
        moves_tokens(net, t, next.path.last().bindings, s.marking, next.marking),
        ({
            let base = joined_tokens(
                s.marking,
                t.consumes,
                choice,
                t.consumes.len() as int,
            )->Some_0;
            let bound = bound_for(obs, t, aim, base)->Ok_0;
            &&& bound_for(obs, t, aim, base) is Ok
            &&& extends(bound, next.path.last().bindings)
            &&& next.path.last().bindings == minted(
                bound,
                t.binds,
                names,
                t.binds.len() as int,
            ).0
        }),
{
    let base = joined_tokens(s.marking, t.consumes, choice, t.consumes.len() as int)->Some_0;
    let bound = bound_for(obs, t, aim, base)->Ok_0;
    let env = next.path.last().bindings;
    assert(env == minted(bound, t.binds, names, t.binds.len() as int).0);
    lemma_minted_extends(bound, t.binds, names);
    what_lacks_evidence(t.attested, bound, net.evidence, 0);
    assert forall|k: int| 0 <= k < t.attested.len() implies (lookup(env, #[trigger] t.attested[k])
        matches Some(v) && net.evidence.contains(v)) by {
        assert(lookup(bound, t.attested[k]) is Some);
    }
    assert forall|k: int| 0 <= k < t.binds.len() implies lookup(env, #[trigger] t.binds[k])
        is Some by {
        minting_gives_values_where_there_are_none(
            bound,
            t.binds,
            names,
            t.binds.len() as int,
            t.binds[k],
        );
    }
    lemma_bound_extends(obs, t, aim, base);
    assert(extends(base, env)) by {
        assert forall|x: Str| (#[trigger] lookup(base, x)) is Some implies lookup(env, x) == lookup(
            base,
            x,
        ) by {
            assert(lookup(bound, x) == lookup(base, x));
        }
    }
    assert(next.marking == fired(net, s.marking, t, choice, env));
}

proof fn lemma_bound_extends(
    obs: ObservationView,
    t: CompiledTransitionView,
    aim: AimView,
    base: Seq<(Str, Str)>,
)
    requires
        aim matches AimView::Record(ix) ==> true,
    ensures
        bound_for(obs, t, aim, base) matches Ok(bound) ==> extends(base, bound),
{
    match aim {
        AimView::Record(ix) => {
            lemma_effects_extend(
                t.emits,
                obs.records[ix].effects,
                base,
                obs.records[ix].step->Some_0,
                0,
            );
        },
        AimView::Target(Some(id)) => {
            match effect_named(obs.records, id) {
                Some(effect) => {
                    a_match_carries_what_the_template_says(t.emits[0], effect, base, t.id);
                },
                None => {},
            }
        },
        AimView::Target(None) => {},
    }
}

proof fn lemma_effects_extend(
    emits: Seq<EffectTemplateView>,
    effects: Seq<EffectInstanceView>,
    env: Seq<(Str, Str)>,
    step: Str,
    i: int,
)
    requires
        0 <= i,
    ensures
        matched_effects(emits, effects, env, step, i) matches Ok(out) ==> extends(env, out),
    decreases emits.len() - i,
{
    if i < emits.len() && matched_effects(emits, effects, env, step, i) is Ok {
        let out = matched_effects(emits, effects, env, step, i)->Ok_0;
        a_match_carries_what_the_template_says(emits[i], effects[i], env, step);
        let next = matched_effect(emits[i], effects[i], env, step)->Ok_0;
        lemma_effects_extend(emits, effects, next, step, i + 1);
        assert forall|x: Str| (#[trigger] lookup(env, x)) is Some implies lookup(out, x) == lookup(
            env,
            x,
        ) by {
            assert(lookup(next, x) == lookup(env, x));
        }
    }
}

proof fn lemma_by_record(
    net: NetView,
    obs: ObservationView,
    s: StateView,
    next: StateView,
    ix: int,
)
    requires
        0 <= ix < obs.records.len() <= usize::MAX,
        by_record(net, obs, order_of(obs), s, next, ix),
    ensures
        exists|t: CompiledTransitionView| #[trigger] explains_record(net, obs, s, next, ix, t),
{
    let r = obs.records[ix];
    let t = record_check(net, obs, order_of(obs), s, ix)->Ready_0;
    let aim = AimView::Record(ix);
    let (choice, names) = choose|choice: Seq<usize>, names: Seq<Str>| #[trigger]
        fires(net, obs, s, t, choice, aim, names, next);
    lemma_compiled_from(net.transitions, r.step->Some_0, 0);
    assert(net.transitions.contains(t));
    lemma_may_fire(net, obs, s, t, choice, aim, names, next);
    let base = joined_tokens(s.marking, t.consumes, choice, t.consumes.len() as int)->Some_0;
    let bound = bound_for(obs, t, aim, base)->Ok_0;
    let env = next.path.last().bindings;
    lemma_matched_effects(t.emits, r.effects, base, r.step->Some_0, 0);
    lemma_related(t.emits, r.effects, t.id, env, obs, s.matched, 0);
    assert forall|k: int| 0 <= k < t.emits.len() implies is_as_said(
        #[trigger] t.emits[k],
        r.effects[k],
        env,
    ) && is_related(obs, t.emits[k], r.effects[k].id, env, s.matched) by {
        lemma_as_said_still(t.emits[k], r.effects[k], bound, env);
    }
    assert forall|id: Str| #[trigger]
        next.matched.contains(id) <==> s.matched.contains(id) || exists|k: int|
            0 <= k < r.effects.len() && (#[trigger] r.effects[k]).id == id by {
        lemma_put_items_contains(s.matched, ids_of(r.effects), id);
        let ids = ids_of(r.effects);
        if ids.contains(id) {
            let k = ids.index_of(id);
            assert(r.effects[k].id == id);
        }
        if exists|k: int| 0 <= k < r.effects.len() && (#[trigger] r.effects[k]).id == id {
            let k = choose|k: int| 0 <= k < r.effects.len() && (#[trigger] r.effects[k]).id == id;
            assert(ids[k] == id);
        }
    }
    if ordered(obs) is Ok {
        let preds = order_of(obs);
        assert(preds == predecessors(obs));
        lemma_preds_upto(obs, ix, obs.records.len() as int);
        assert forall|j: int|
            0 <= j < obs.records.len() && #[trigger] must_precede(obs, j, ix) implies s.consumed[j] by {
            let list = preds[ix];
            assert(list == preds_upto(obs, ix, obs.records.len() as int));
            assert(list.contains(j as usize));
            let x = list.index_of(j as usize);
            assert(s.consumed[list[x] as int]);
        }
    }
    assert(explains_record(net, obs, s, next, ix, t));
}

proof fn lemma_open(
    es: Seq<EffectInstanceView>,
    kind: Str,
    matched: Seq<Str>,
    n: int,
    j: int,
)
    requires
        0 <= n <= es.len(),
        0 <= j < open_effects(es, kind, matched, n).len(),
    ensures
        exists|i: int|
            0 <= i < n && open_effects(es, kind, matched, n)[j] == AimView::Target(
                Some((#[trigger] es[i]).id),
            ) && es[i].kind == kind && !matched.contains(es[i].id),
    decreases n,
{
    if n > 0 {
        let before = open_effects(es, kind, matched, n - 1);
        if j < before.len() {
            lemma_open(es, kind, matched, n - 1, j);
        } else {
            assert(es[n - 1].kind == kind);
        }
    }
}

proof fn lemma_by_transition(
    net: NetView,
    obs: ObservationView,
    s: StateView,
    next: StateView,
    ti: int,
)
    requires
        0 <= ti < net.transitions.len(),
        by_transition(net, obs, s, next, ti),
    ensures
        goes_unlogged(net, obs, s, next, net.transitions[ti]),
{
    let t = net.transitions[ti];
    let (j, choice, names) = choose|j: int, choice: Seq<usize>, names: Seq<Str>|
        0 <= j < targets_of(obs, s, t).len() && #[trigger] fires(
            net,
            obs,
            s,
            t,
            choice,
            targets_of(obs, s, t)[j],
            names,
            next,
        );
    let aim = targets_of(obs, s, t)[j];
    lemma_targets(obs, s, t, j);
    lemma_may_fire(net, obs, s, t, choice, aim, names, next);
    let env = next.path.last().bindings;
    assert forall|k: int, i: int|
        #![trigger t.emits[k], obs.planes[i]]
        0 <= k < t.emits.len() && 0 <= i < obs.planes.len() implies !(obs.planes[i].1.complete
        && obs.planes[i].1.carries.contains(t.emits[k].effect)) by {
        assert(!crate::observation::carried(obs.planes, t.emits[k].effect));
    }
    match aim {
        AimView::Target(Some(id)) => {
            let base = joined_tokens(
                s.marking,
                t.consumes,
                choice,
                t.consumes.len() as int,
            )->Some_0;
            let bound = bound_for(obs, t, aim, base)->Ok_0;
            let e = effect_named(obs.records, id)->0;
            a_match_carries_what_the_template_says(t.emits[0], e, base, t.id);
            lemma_as_said_still(t.emits[0], e, bound, env);
            crate::laws::matching::an_effect_is_found_by_its_name(obs.records, id);
            obligations_are_met_by_edges(
                t.emits[0].requires_relation,
                t.id,
                id,
                env,
                obs,
                s.matched,
            );
            let es = dangling_upto(obs.records, obs.records.len() as int);
            assert(t.emits.len() == 1);
            assert(j > 0);
            lemma_open(es, t.emits[0].effect, s.matched, es.len() as int, j - 1);
            assert(!s.matched.contains(id));
            assert forall|q: Str| #[trigger]
                next.matched.contains(q) <==> s.matched.contains(q) || q == e.id by {
                lemma_put_item_contains(s.matched, id, q);
            }
            assert(is_as_said(t.emits[0], e, env));
        },
        AimView::Target(None) => {},
        AimView::Record(_) => {},
    }
}

/// Each step of a run explains an observed record, or goes unlogged within the slack.
pub proof fn what_one_step_does(
    net: NetView,
    obs: ObservationView,
    slack: nat,
    s: StateView,
    next: StateView,
)
    requires
        obs.records.len() <= usize::MAX,
        one_step(net, obs, order_of(obs), slack, s, next),
    ensures
        (exists|ix: int, t: CompiledTransitionView|
            0 <= ix < obs.records.len() && #[trigger] explains_record(net, obs, s, next, ix, t))
            || (s.slack_used < slack && exists|t: CompiledTransitionView| #[trigger]
            goes_unlogged(net, obs, s, next, t)),
{
    if exists|ix: int|
        0 <= ix < obs.records.len() && #[trigger] by_record(
            net,
            obs,
            order_of(obs),
            s,
            next,
            ix,
        ) {
        let ix = choose|ix: int|
            0 <= ix < obs.records.len() && #[trigger] by_record(
                net,
                obs,
                order_of(obs),
                s,
                next,
                ix,
            );
        lemma_by_record(net, obs, s, next, ix);
    } else {
        let ti = choose|ti: int|
            0 <= ti < net.transitions.len() && #[trigger] by_transition(net, obs, s, next, ti);
        lemma_by_transition(net, obs, s, next, ti);
    }
}

/// Whether a run leads from the start, step by step, to where everything is explained: every
/// record that claims a step, every observed effect, and a final place that holds a token.
pub open spec fn tells_the_whole_story(
    net: NetView,
    obs: ObservationView,
    opts: VerifyOptions,
    run: Seq<StateView>,
) -> bool {
    &&& 0 < run.len() <= opts.bound + 1
    &&& run[0].marking == net.initial && run[0].matched.len() == 0 && run[0].path.len() == 0
        && run[0].slack_used == 0
    &&& forall|i: int|
        0 <= i < run.len() ==> (#[trigger] run[i]).consumed.len() == obs.records.len()
    &&& forall|i: int|
        0 <= i < obs.records.len() ==> #[trigger] run[0].consumed[i] == (obs.records[i].step
            is None)
    &&& forall|i: int, j: int|
        0 <= i < run.len() && j == i + 1 && j < run.len() ==> follows(
            net,
            obs,
            opts,
            #[trigger] run[i],
            #[trigger] run[j],
        )
    &&& forall|i: int| 0 <= i < obs.records.len() ==> #[trigger] run.last().consumed[i]
    &&& forall|id: Str| #[trigger]
        run.last().matched.contains(id) <==> exists|i: int, k: int|
            #![trigger obs.records[i].effects[k]]
            0 <= i < obs.records.len() && 0 <= k < obs.records[i].effects.len()
                && obs.records[i].effects[k].id == id
    &&& exists|i: int|
        0 <= i < net.finals.len() && run.last().marking[(#[trigger] net.finals[i]) as int].len() > 0
    &&& run.last().slack_used <= opts.slack
}

/// Whether one state follows another in a run.
pub open spec fn follows(
    net: NetView,
    obs: ObservationView,
    opts: VerifyOptions,
    s: StateView,
    next: StateView,
) -> bool {
    ||| exists|ix: int, t: CompiledTransitionView|
        0 <= ix < obs.records.len() && #[trigger] explains_record(net, obs, s, next, ix, t)
    ||| s.slack_used < opts.slack && exists|t: CompiledTransitionView| #[trigger]
        goes_unlogged(net, obs, s, next, t)
}

proof fn lemma_effect_set(obs: ObservationView, id: Str)
    ensures
        effect_set(obs).contains(id) <==> exists|i: int, k: int|
            #![trigger obs.records[i].effects[k]]
            0 <= i < obs.records.len() && 0 <= k < obs.records[i].effects.len()
                && obs.records[i].effects[k].id == id,
{
    let es = all_effects(obs.records);
    let ids = ids_of(es);
    lemma_put_items_contains(Seq::empty(), ids, id);
    if ids.contains(id) {
        let j = ids.index_of(id);
        assert(es[j].id == id);
        assert(es.contains(es[j]));
        lemma_holder(obs, obs.records.len() as int, es[j]);
    }
    if exists|i: int, k: int|
        #![trigger obs.records[i].effects[k]]
        0 <= i < obs.records.len() && 0 <= k < obs.records[i].effects.len()
            && obs.records[i].effects[k].id == id {
        let (i, k) = choose|i: int, k: int|
            #![trigger obs.records[i].effects[k]]
            0 <= i < obs.records.len() && 0 <= k < obs.records[i].effects.len()
                && obs.records[i].effects[k].id == id;
        let e = obs.records[i].effects[k];
        lemma_held(obs, obs.records.len() as int, i, k);
        let j = es.index_of(e);
        assert(ids[j] == id);
    }
}

proof fn lemma_holder(obs: ObservationView, n: int, e: EffectInstanceView)
    requires
        0 <= n <= obs.records.len(),
        effects_upto(obs.records, n).contains(e),
    ensures
        exists|i: int, k: int|
            #![trigger obs.records[i].effects[k]]
            0 <= i < n && 0 <= k < obs.records[i].effects.len() && obs.records[i].effects[k] == e,
    decreases n,
{
    if n > 0 {
        lemma_concat_contains(
            effects_upto(obs.records, n - 1),
            obs.records[n - 1].effects,
            e,
        );
        if effects_upto(obs.records, n - 1).contains(e) {
            lemma_holder(obs, n - 1, e);
        } else {
            let k = obs.records[n - 1].effects.index_of(e);
            assert(obs.records[n - 1].effects[k] == e);
        }
    }
}

proof fn lemma_held(obs: ObservationView, n: int, i: int, k: int)
    requires
        0 <= i < n <= obs.records.len(),
        0 <= k < obs.records[i].effects.len(),
    ensures
        effects_upto(obs.records, n).contains(obs.records[i].effects[k]),
    decreases n,
{
    let e = obs.records[i].effects[k];
    lemma_concat_contains(effects_upto(obs.records, n - 1), obs.records[n - 1].effects, e);
    if i < n - 1 {
        lemma_held(obs, n - 1, i, k);
    } else {
        assert(obs.records[n - 1].effects.contains(e));
    }
}

/// An accepted run has a story that explains the whole of what was observed: each record that
/// claims a step is a firing of the transition of that name by a principal of its class, each
/// effect is what a template says and is related as the template asks for, the tokens move as
/// the net has it, and a final place holds a token in the end. The story's path is the witness,
/// and nothing is wrong with any observed edge.
pub proof fn an_accepted_run_has_a_story(net: NetView, obs: ObservationView, opts: VerifyOptions)
    requires
        net_ok(net),
        obs.records.len() <= usize::MAX,
        verified(net, obs, opts).verdict == Verdict::Accept,
    ensures
        exists|run: Seq<StateView>| #[trigger]
            tells_the_whole_story(net, obs, opts, run) && verified(net, obs, opts).witness == Some(
                run.last().path,
            ),
        forall|k: int, f: FailureView|
            0 <= k < obs.edges.len() ==> !(#[trigger] tells_of_edge(
                net.spec,
                obs,
                obs.edges[k],
                f,
            )),
{
    accepted_runs_are_explained(net, obs, opts);
    let run = choose|run: Seq<StateView>| #[trigger]
        explains(net, obs, opts, run) && verified(net, obs, opts).witness == Some(run.last().path);
    let slack = opts.slack as nat;
    assert(run[0] == initial_state(net, obs));
    assert forall|i: int, j: int|
        0 <= i < run.len() && j == i + 1 && j < run.len() implies follows(
        net,
        obs,
        opts,
        #[trigger] run[i],
        #[trigger] run[j],
    ) by {
        what_one_step_does(net, obs, slack, run[i], run[j]);
    }
    lemma_run_states(net, obs, slack, run, run.len() - 1);
    assert forall|i: int| 0 <= i < run.len() implies (#[trigger] run[i]).consumed.len()
        == obs.records.len() by {
        lemma_run_states(net, obs, slack, run, i);
    }
    assert(run.last() == run[run.len() - 1]);
    assert forall|id: Str| #[trigger]
        run.last().matched.contains(id) <==> exists|i: int, k: int|
            #![trigger obs.records[i].effects[k]]
            0 <= i < obs.records.len() && 0 <= k < obs.records[i].effects.len()
                && obs.records[i].effects[k].id == id by {
        lemma_effect_set(obs, id);
    }
    assert(tells_the_whole_story(net, obs, opts, run));
    assert forall|k: int, f: FailureView| 0 <= k < obs.edges.len() implies !(
    #[trigger] tells_of_edge(net.spec, obs, obs.edges[k], f)) by {
        edges_are_held_against_their_relations(net.spec, obs, f);
    }
}

proof fn lemma_turning_point(run: Seq<StateView>, ix: int, i: int)
    requires
        0 <= i < run.len(),
        !run[0].consumed[ix],
        run[i].consumed[ix],
    ensures
        exists|j: int|
            0 <= j && j + 1 < run.len() && !(#[trigger] run[j]).consumed[ix] && run[j
                + 1].consumed[ix],
    decreases i,
{
    if i > 0 {
        if run[i - 1].consumed[ix] {
            lemma_turning_point(run, ix, i - 1);
        } else {
            assert(run[i - 1 + 1].consumed[ix]);
        }
    }
}

/// Of an accepted run, every record that claims a step shows what the transition of that name
/// emits: as many effects, each of the kind and with the arguments that the template says. What
/// a template's glob stands for matches it, and what a variable stands for is its value.
pub proof fn an_accepted_record_shows_what_its_transition_emits(
    net: NetView,
    obs: ObservationView,
    opts: VerifyOptions,
    ix: int,
)
    requires
        net_ok(net),
        obs.records.len() <= usize::MAX,
        verified(net, obs, opts).verdict == Verdict::Accept,
        0 <= ix < obs.records.len(),
        obs.records[ix].step is Some,
    ensures
        exists|t: CompiledTransitionView, env: Seq<(Str, Str)>| #[trigger]
            may_fire(net, t, env) && net.transitions.contains(t) && obs.records[ix].step == Some(
                t.id,
            ) && (lookup(net.spec.principals, t.principal) matches Some(p) && glob_matches(
                p.id_pattern,
                obs.records[ix].principal,
            )) && t.emits.len() == obs.records[ix].effects.len() && forall|k: int|
                0 <= k < t.emits.len() ==> is_as_said(
                    #[trigger] t.emits[k],
                    obs.records[ix].effects[k],
                    env,
                ),
{
    an_accepted_run_has_a_story(net, obs, opts);
    let run = choose|run: Seq<StateView>| #[trigger]
        tells_the_whole_story(net, obs, opts, run) && verified(net, obs, opts).witness == Some(
            run.last().path,
        );
    assert(!run[0].consumed[ix]);
    assert(run.last().consumed[ix]);
    lemma_turning_point(run, ix, run.len() - 1);
    let j = choose|j: int|
        0 <= j && j + 1 < run.len() && !(#[trigger] run[j]).consumed[ix] && run[j
            + 1].consumed[ix];
    let s = run[j];
    let next = run[j + 1];
    assert(follows(net, obs, opts, s, next));
    if exists|jx: int, t: CompiledTransitionView|
        0 <= jx < obs.records.len() && #[trigger] explains_record(net, obs, s, next, jx, t) {
        let (jx, t) = choose|jx: int, t: CompiledTransitionView|
            0 <= jx < obs.records.len() && #[trigger] explains_record(net, obs, s, next, jx, t);
        assert(next.consumed == s.consumed.update(jx, true));
        assert(jx == ix);
        assert(may_fire(net, t, next.path.last().bindings));
    }
}

proof fn lemma_looked_at(net: NetView, obs: ObservationView, opts: VerifyOptions, q: QuestView)
    requires
        q.states <= opts.max_states,
    ensures
        ({
            let r = searched(net, obs, opts, q);
            &&& r.found matches Some(s) ==> s.depth <= opts.bound && accepting(net, obs, s)
                && !r.exhausted && r.quest.states <= opts.max_states
            &&& r.found is None && !r.exhausted ==> r.quest.stack.len() == 0 && r.quest.states
                <= opts.max_states && !q.cut
            &&& r.found is None && r.exhausted ==> r.quest.states == opts.max_states + 1
                || r.quest.cut
            &&& q.states <= r.quest.states <= opts.max_states + 1
            &&& q.cut ==> r.quest.cut
        }),
    decreases opts.max_states + 1 - q.states,
{
    if q.stack.len() > 0 {
        let s = q.stack.last();
        let popped = QuestView { stack: q.stack.drop_last(), states: q.states + 1, ..q };
        if popped.states > opts.max_states {
        } else if s.depth > opts.bound || q.seen.contains(state_key(mark_of(net, obs), s)) {
            lemma_looked_at(net, obs, opts, popped);
        } else {
            let best = if further(score(s), score(q.best)) {
                s
            } else {
                q.best
            };
            let entered = QuestView {
                seen: q.seen.insert(state_key(mark_of(net, obs), s)),
                best,
                ..popped
            };
            if !accepting(net, obs, s) {
                let haul = expanded(net, obs, opts.slack as nat, s);
                lemma_looked_at(
                    net,
                    obs,
                    opts,
                    QuestView {
                        stack: entered.stack + haul.states,
                        log: logged_all(q.log, score(s), haul.faults, haul.faults.len() as int),
                        cut: q.cut || haul.cut,
                        ..entered
                    },
                );
            }
        }
    }
}

/// A search finds only a state that is no deeper than the bound and in which the run may end. It
/// gives up at one state more than it may look at, or where something was left out on the way;
/// otherwise nothing is left to look at. Where a run may end at once, one state is enough, and
/// that one is found.
pub proof fn how_far_a_search_goes(net: NetView, obs: ObservationView, opts: VerifyOptions)
    ensures
        search_result(net, obs, opts).found matches Some(s) ==> s.depth <= opts.bound && accepting(
            net,
            obs,
            s,
        ) && !search_result(net, obs, opts).exhausted,
        search_result(net, obs, opts).found is None && !search_result(net, obs, opts).exhausted
            ==> search_result(net, obs, opts).quest.stack.len() == 0 && search_result(
            net,
            obs,
            opts,
        ).quest.states <= opts.max_states,
        search_result(net, obs, opts).found is None && search_result(net, obs, opts).exhausted
            ==> search_result(net, obs, opts).quest.states == opts.max_states + 1 || search_result(
            net,
            obs,
            opts,
        ).quest.cut,
        1 <= search_result(net, obs, opts).quest.states <= opts.max_states + 1,
        accepting(net, obs, initial_state(net, obs)) && opts.max_states > 0 ==> search_result(
            net,
            obs,
            opts,
        ).found == Some(initial_state(net, obs)) && search_result(net, obs, opts).quest.states == 1,
{
    reveal(search_result);
    let q = first_quest(net, obs);
    lemma_looked_at(net, obs, opts, q);
    let s = q.stack.last();
    assert(s == initial_state(net, obs) && s.depth == 0);
    let popped = QuestView { stack: q.stack.drop_last(), states: 1, ..q };
    let key = state_key(mark_of(net, obs), s);
    if opts.max_states > 0 && !accepting(net, obs, s) {
        let best = if further(score(s), score(q.best)) {
            s
        } else {
            q.best
        };
        let haul = expanded(net, obs, opts.slack as nat, s);
        lemma_looked_at(
            net,
            obs,
            opts,
            QuestView {
                stack: popped.stack + haul.states,
                seen: q.seen.insert(key),
                best,
                log: logged_all(q.log, score(s), haul.faults, haul.faults.len() as int),
                cut: q.cut || haul.cut,
                ..popped
            },
        );
    }
}

} // verus!
