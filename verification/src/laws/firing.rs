//! When a step goes through, and when a run may end.
use crate::laws::accepting::is_as_said;
use crate::laws::matching::{
    a_match_carries_what_the_template_says, discharges, extends,
    obligations_are_met_by_edges, what_carries_what_the_template_says_matches,
};
use crate::laws::nets::{what_a_transition_lacks, what_lacks_evidence};
use crate::laws::stepping::{
    belongs_to, can_come_next, has_enough, is_first_named, when_a_record_can_be_explained,
};
use crate::matching::{guard_holds, matched_effect};
use crate::model::{EffectTemplateView, RelationObligationView};
use crate::net::{fired, joined_tokens, CompiledTransitionView, NetView};
use crate::observation::{EffectInstanceView, ObservationView};
use crate::ordered::{lookup, put_items};
use crate::search::{
    attempt, bound_for, by_record, by_transition, env_for, fires, ids_of, may_go_unlogged,
    matched_effects, minted, one_step, record_check, targets_of, unmet_effect_from, AimView,
    AttemptView, CheckView, StateView, WitnessStepView,
};
use crate::text::Str;
use crate::verify::{accepting, effect_set, initial_state};
use vstd::prelude::*;

verus! {

/// A run may end exactly where every record is explained, the effects that are explained are the
/// observed ones, and some final place holds a token.
pub proof fn when_a_run_may_end(net: NetView, obs: ObservationView, s: StateView)
    ensures
        accepting(net, obs, s) <==> (forall|i: int|
            0 <= i < s.consumed.len() ==> #[trigger] s.consumed[i]) && s.matched == effect_set(obs)
            && exists|i: int|
            0 <= i < net.finals.len() && s.marking[(#[trigger] net.finals[i]) as int].len() > 0,
{
    if crate::verify::all_set(s.consumed) {
        assert forall|i: int| 0 <= i < s.consumed.len() implies #[trigger] s.consumed[i] by {}
    }
}

/// A run begins with the tokens of the start, with nothing explained but the records that claim
/// no step, and with all of its slack.
pub proof fn where_a_run_begins(net: NetView, obs: ObservationView, i: int)
    ensures
        initial_state(net, obs).marking == net.initial,
        initial_state(net, obs).consumed.len() == obs.records.len(),
        0 <= i < obs.records.len() ==> initial_state(net, obs).consumed[i] == (obs.records[i].step
            is None),
        initial_state(net, obs).matched.len() == 0,
        initial_state(net, obs).slack_used == 0,
        initial_state(net, obs).depth == 0,
        initial_state(net, obs).path.len() == 0,
{
}

proof fn lemma_effects_match(
    emits: Seq<EffectTemplateView>,
    effects: Seq<EffectInstanceView>,
    env: Seq<(Str, Str)>,
    reading: Seq<(Str, Str)>,
    step: Str,
    i: int,
)
    requires
        0 <= i,
        extends(env, reading),
        forall|k: int|
            i <= k < emits.len() ==> is_as_said(#[trigger] emits[k], effects[k], reading),
    ensures
        matched_effects(emits, effects, env, step, i) is Ok,
    decreases emits.len() - i,
{
    if i < emits.len() {
        assert(is_as_said(emits[i], effects[i], reading));
        what_carries_what_the_template_says_matches(emits[i], effects[i], env, reading, step);
        let next = matched_effect(emits[i], effects[i], env, step)->Ok_0;
        a_match_carries_what_the_template_says(emits[i], effects[i], env, step);
        assert forall|x: Str| (#[trigger] lookup(next, x)) is Some implies lookup(reading, x)
            == lookup(next, x) by {
            if lookup(env, x) is Some {
                assert(lookup(next, x) == lookup(env, x));
            } else {
                let k = choose|k: int|
                    0 <= k < emits[i].args.len() && (#[trigger] emits[i].args[k]).1 == seq!['$']
                        + x;
                let raw = emits[i].args[k].1;
                assert(raw[0] == '$');
                assert(raw.skip(1) =~= x);
                assert(lookup(effects[i].args, emits[i].args[k].0) is Some);
            }
        }
        lemma_effects_match(emits, effects, next, reading, step, i + 1);
    }
}

/// Where the variables can be read so that every effect of a record is what its template says,
/// and as the tokens have it, the effects match.
pub proof fn effects_that_are_as_said_match(
    emits: Seq<EffectTemplateView>,
    effects: Seq<EffectInstanceView>,
    tokens: Seq<(Str, Str)>,
    reading: Seq<(Str, Str)>,
    step: Str,
)
    requires
        extends(tokens, reading),
        forall|k: int|
            0 <= k < emits.len() ==> is_as_said(#[trigger] emits[k], effects[k], reading),
    ensures
        matched_effects(emits, effects, tokens, step, 0) is Ok,
{
    lemma_effects_match(emits, effects, tokens, reading, step, 0);
}

/// Whether an obligation is discharged by some observed edge.
pub open spec fn is_discharged(
    obs: ObservationView,
    o: RelationObligationView,
    effect: Str,
    env: Seq<(Str, Str)>,
    explained: Seq<Str>,
) -> bool {
    exists|k: int|
        0 <= k < obs.edges.len() && discharges(
            obs,
            #[trigger] obs.edges[k],
            o,
            effect,
            env,
            explained,
        )
}

proof fn lemma_unmet_none(
    emits: Seq<EffectTemplateView>,
    effects: Seq<EffectInstanceView>,
    transition: Str,
    env: Seq<(Str, Str)>,
    obs: ObservationView,
    matched: Seq<Str>,
    i: int,
)
    requires
        0 <= i,
        forall|k: int, j: int|
            #![trigger emits[k].requires_relation[j]]
            0 <= k < emits.len() && 0 <= j < emits[k].requires_relation.len() ==> is_discharged(
                obs,
                emits[k].requires_relation[j],
                effects[k].id,
                env,
                matched,
            ),
    ensures
        unmet_effect_from(emits, effects, transition, env, obs, matched, i) is None,
    decreases emits.len() - i,
{
    if i < emits.len() {
        let os = emits[i].requires_relation;
        obligations_are_met_by_edges(os, transition, effects[i].id, env, obs, matched);
        assert forall|j: int| 0 <= j < os.len() implies exists|k: int|
            0 <= k < obs.edges.len() && discharges(
                obs,
                #[trigger] obs.edges[k],
                #[trigger] os[j],
                effects[i].id,
                env,
                matched,
            ) by {
            assert(is_discharged(
                obs,
                emits[i].requires_relation[j],
                effects[i].id,
                env,
                matched,
            ));
        }
        lemma_unmet_none(emits, effects, transition, env, obs, matched, i + 1);
    }
}

/// A record that can come next is explained by the transition of the name that it claims in
/// every way in which that goes: with tokens that agree, with effects that match, with evidence
/// for what is taken from evidence, with the guard true and with every obligation discharged.
/// Nothing more is asked.
pub proof fn a_record_that_fits_is_explained(
    net: NetView,
    obs: ObservationView,
    preds: Seq<Seq<usize>>,
    slack: nat,
    s: StateView,
    ix: int,
    t: CompiledTransitionView,
    choice: Seq<usize>,
    tokens: Seq<(Str, Str)>,
    bound: Seq<(Str, Str)>,
    names: Seq<Str>,
)
    requires
        0 <= ix < obs.records.len(),
        can_come_next(obs, preds, s, ix),
        is_first_named(net.transitions, obs.records[ix].step->0, t),
        belongs_to(net, t.principal, obs.records[ix].principal),
        has_enough(s, t),
        t.emits.len() == obs.records[ix].effects.len(),
        choice.len() == t.consumes.len(),
        forall|i: int|
            0 <= i < choice.len() ==> #[trigger] choice[i] < s.marking[t.consumes[i] as int].len(),
        forall|i: int, j: int|
            0 <= i < j < choice.len() && t.consumes[i] == t.consumes[j] ==> #[trigger] choice[i]
                != #[trigger] choice[j],
        joined_tokens(s.marking, t.consumes, choice, t.consumes.len() as int) == Some(tokens),
        matched_effects(
            t.emits,
            obs.records[ix].effects,
            tokens,
            obs.records[ix].step->0,
            0,
        ) matches Ok(b) && b == bound,
        forall|k: int|
            0 <= k < t.attested.len() ==> (lookup(bound, #[trigger] t.attested[k]) matches Some(v)
                && net.evidence.contains(v)),
        names.len() == t.binds.len(),
        t.guard matches Some(g) ==> guard_holds(
            g,
            minted(bound, t.binds, names, t.binds.len() as int).0,
        ),
        forall|k: int, j: int|
            #![trigger t.emits[k].requires_relation[j]]
            0 <= k < t.emits.len() && 0 <= j < t.emits[k].requires_relation.len() ==> is_discharged(
                obs,
                t.emits[k].requires_relation[j],
                obs.records[ix].effects[k].id,
                minted(bound, t.binds, names, t.binds.len() as int).0,
                s.matched,
            ),
    ensures
        exists|next: StateView| #[trigger]
            one_step(net, obs, preds, slack, s, next) && next.consumed == s.consumed.update(
                ix,
                true,
            ) && next.slack_used == s.slack_used && next.depth == s.depth + 1 && next.marking
                == fired(
                net,
                s.marking,
                t,
                choice,
                minted(bound, t.binds, names, t.binds.len() as int).0,
            ) && next.matched == put_items(s.matched, ids_of(obs.records[ix].effects))
                && next.path.last().bindings == minted(
                bound,
                t.binds,
                names,
                t.binds.len() as int,
            ).0,
{
    let r = obs.records[ix];
    when_a_record_can_be_explained(net, obs, preds, s, ix);
    lemma_ready(net, obs, preds, s, ix, t);
    let aim = AimView::Record(ix);
    let env = minted(bound, t.binds, names, t.binds.len() as int).0;
    what_lacks_evidence(t.attested, bound, net.evidence, 0);
    lemma_unmet_none(t.emits, r.effects, t.id, env, obs, s.matched, 0);
    let went = attempt(net, obs, s, t, choice, aim, names);
    assert(went is Go);
    let next = went->Go_0;
    assert(fires(net, obs, s, t, choice, aim, names, next));
    assert(by_record(net, obs, preds, s, next, ix));
    assert(one_step(net, obs, preds, slack, s, next));
}

proof fn lemma_ready(
    net: NetView,
    obs: ObservationView,
    preds: Seq<Seq<usize>>,
    s: StateView,
    ix: int,
    t: CompiledTransitionView,
)
    requires
        can_come_next(obs, preds, s, ix),
        is_first_named(net.transitions, obs.records[ix].step->0, t),
        belongs_to(net, t.principal, obs.records[ix].principal),
        has_enough(s, t),
        t.emits.len() == obs.records[ix].effects.len(),
    ensures
        record_check(net, obs, preds, s, ix) == CheckView::Ready(t),
{
    let id = obs.records[ix].step->0;
    let i = choose|i: int|
        0 <= i < net.transitions.len() && #[trigger] net.transitions[i] == t && t.id == id
            && forall|j: int| 0 <= j < i ==> (#[trigger] net.transitions[j]).id != id;
    lemma_found(net.transitions, id, 0, i);
    what_a_transition_lacks(s.marking, t.consumes, 0);
}

proof fn lemma_found(ts: Seq<CompiledTransitionView>, id: Str, from: int, i: int)
    requires
        0 <= from <= i < ts.len(),
        ts[i].id == id,
        forall|j: int| 0 <= j < i ==> (#[trigger] ts[j]).id != id,
    ensures
        crate::net::compiled_from(ts, id, from) == Some(ts[i]),
    decreases i - from,
{
    if from < i {
        assert(ts[from].id != id);
        lemma_found(ts, id, from + 1, i);
    }
}

/// A transition that may go unlogged does, while there is slack, in every way in which its
/// tokens agree, its guard is true and evidence is there for what it takes from evidence.
pub proof fn a_step_may_go_unlogged_within_the_slack(
    net: NetView,
    obs: ObservationView,
    preds: Seq<Seq<usize>>,
    slack: nat,
    s: StateView,
    ti: int,
    choice: Seq<usize>,
    tokens: Seq<(Str, Str)>,
    names: Seq<Str>,
)
    requires
        0 <= ti < net.transitions.len(),
        s.slack_used < slack,
        may_go_unlogged(obs, s, net.transitions[ti]),
        choice.len() == net.transitions[ti].consumes.len(),
        forall|i: int|
            0 <= i < choice.len() ==> #[trigger] choice[i]
                < s.marking[net.transitions[ti].consumes[i] as int].len(),
        forall|i: int, j: int|
            0 <= i < j < choice.len() && net.transitions[ti].consumes[i]
                == net.transitions[ti].consumes[j] ==> #[trigger] choice[i] != #[trigger] choice[j],
        joined_tokens(
            s.marking,
            net.transitions[ti].consumes,
            choice,
            net.transitions[ti].consumes.len() as int,
        ) == Some(tokens),
        forall|k: int|
            0 <= k < net.transitions[ti].attested.len() ==> (lookup(
                tokens,
                #[trigger] net.transitions[ti].attested[k],
            ) matches Some(v) && net.evidence.contains(v)),
        names.len() == net.transitions[ti].binds.len(),
        net.transitions[ti].guard matches Some(g) ==> guard_holds(
            g,
            minted(
                tokens,
                net.transitions[ti].binds,
                names,
                net.transitions[ti].binds.len() as int,
            ).0,
        ),
    ensures
        exists|next: StateView| #[trigger]
            one_step(net, obs, preds, slack, s, next) && next.consumed == s.consumed && next.matched
                == s.matched && next.slack_used == s.slack_used + 1 && next.marking == fired(
                net,
                s.marking,
                net.transitions[ti],
                choice,
                minted(
                    tokens,
                    net.transitions[ti].binds,
                    names,
                    net.transitions[ti].binds.len() as int,
                ).0,
            ),
{
    let t = net.transitions[ti];
    let aim = AimView::Target(None);
    what_lacks_evidence(t.attested, tokens, net.evidence, 0);
    let went = attempt(net, obs, s, t, choice, aim, names);
    assert(went is Go);
    let next = went->Go_0;
    assert(targets_of(obs, s, t)[0] == aim);
    assert(fires(net, obs, s, t, choice, targets_of(obs, s, t)[0], names, next));
    assert(by_transition(net, obs, s, next, ti));
    assert(one_step(net, obs, preds, slack, s, next));
}

} // verus!
