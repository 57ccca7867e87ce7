//! Which steps a search considers.
use crate::laws::nets::what_a_transition_lacks;
use crate::laws::observing::effects_without_a_step;
use crate::model::glob_matches;
use crate::net::{
    all_choices, capped, compiled_from, lemma_all_choices, occurrences, too_many_choices,
    valid_choice, within, CompiledTransitionView, FailureView, NetView,
};
use crate::observation::{dangling_upto, EffectInstanceView, ObservationView};
use crate::ordered::lookup;
use crate::search::{
    lemma_concat_contains, lemma_push_contains, may_go_unlogged, open_effects, record_check,
    targets_of, AimView, CheckView, StateView,
};
use crate::text::{decimal, Str};
use vstd::prelude::*;

verus! {

/// Whether a transition is the first of its name.
pub open spec fn is_first_named(
    ts: Seq<CompiledTransitionView>,
    id: Str,
    t: CompiledTransitionView,
) -> bool {
    exists|i: int|
        0 <= i < ts.len() && #[trigger] ts[i] == t && t.id == id && forall|j: int|
            0 <= j < i ==> (#[trigger] ts[j]).id != id
}

proof fn lemma_first_named(ts: Seq<CompiledTransitionView>, id: Str, i: int)
    requires
        0 <= i,
        forall|j: int| 0 <= j < i && j < ts.len() ==> (#[trigger] ts[j]).id != id,
    ensures
        compiled_from(ts, id, i) matches Some(t) ==> is_first_named(ts, id, t),
        compiled_from(ts, id, i) is None ==> forall|j: int|
            0 <= j < ts.len() ==> (#[trigger] ts[j]).id != id,
    decreases ts.len() - i,
{
    if i < ts.len() {
        if ts[i].id == id {
            assert(ts[i] == ts[i]);
        } else {
            lemma_first_named(ts, id, i + 1);
        }
    }
}

/// Whether a record can come next: it claims a step, is not explained yet, and all that must
/// precede it is.
pub open spec fn can_come_next(
    obs: ObservationView,
    preds: Seq<Seq<usize>>,
    s: StateView,
    ix: int,
) -> bool {
    &&& obs.records[ix].step is Some
    &&& !s.consumed[ix]
    &&& forall|x: int| 0 <= x < preds[ix].len() ==> s.consumed[(#[trigger] preds[ix][x]) as int]
}

/// Whether a principal is one of a declared class.
pub open spec fn belongs_to(net: NetView, class: Str, identity: Str) -> bool {
    lookup(net.spec.principals, class) matches Some(p) && glob_matches(p.id_pattern, identity)
}

/// Whether every place holds as many tokens as a transition takes from it.
pub open spec fn has_enough(s: StateView, t: CompiledTransitionView) -> bool {
    forall|p: int|
        0 <= p < s.marking.len() ==> (#[trigger] s.marking[p]).len() >= occurrences(
            t.consumes,
            p,
            t.consumes.len() as int,
        )
}

/// Whether a place of this name holds fewer tokens than a transition takes from it.
pub open spec fn is_short_of(
    net: NetView,
    s: StateView,
    t: CompiledTransitionView,
    place: Str,
) -> bool {
    exists|p: int|
        0 <= p < s.marking.len() && place == #[trigger] net.place_names[p] && s.marking[p].len()
            < occurrences(t.consumes, p, t.consumes.len() as int)
}

/// A record is explained by the first transition of the name that it claims, where one has that
/// name, its principal belongs to the class of that transition, there are enough tokens, and it
/// shows as many effects as the transition emits. The first of these that fails is told.
pub proof fn when_a_record_can_be_explained(
    net: NetView,
    obs: ObservationView,
    preds: Seq<Seq<usize>>,
    s: StateView,
    ix: int,
)
    ensures
        match record_check(net, obs, preds, s, ix) {
            CheckView::Skip => !can_come_next(obs, preds, s, ix),
            CheckView::Ready(t) => can_come_next(obs, preds, s, ix) && is_first_named(
                net.transitions,
                obs.records[ix].step->0,
                t,
            ) && belongs_to(net, t.principal, obs.records[ix].principal) && has_enough(s, t)
                && t.emits.len() == obs.records[ix].effects.len(),
            CheckView::Fail(f) => can_come_next(obs, preds, s, ix) && {
                ||| (forall|j: int|
                    0 <= j < net.transitions.len() ==> (#[trigger] net.transitions[j]).id
                        != obs.records[ix].step->0) && f == (FailureView::UnknownStep {
                    step: obs.records[ix].step->0,
                })
                ||| exists|t: CompiledTransitionView| #[trigger]
                    is_first_named(net.transitions, obs.records[ix].step->0, t) && (if !belongs_to(
                        net,
                        t.principal,
                        obs.records[ix].principal,
                    ) {
                        f == (FailureView::IdentityMismatch {
                            step: t.id,
                            principal: obs.records[ix].principal,
                            expected: match lookup(net.spec.principals, t.principal) {
                                Some(p) => p.id_pattern,
                                None => Seq::empty(),
                            },
                        })
                    } else if !has_enough(s, t) {
                        f matches FailureView::NotEnabled { step, place } && step == t.id
                            && is_short_of(net, s, t, place)
                    } else {
                        t.emits.len() != obs.records[ix].effects.len() && f
                            == (FailureView::EffectShapeMismatch {
                            step: t.id,
                            detail: "transition emits "@ + decimal(t.emits.len())
                                + " effect(s), record carries "@ + decimal(
                                obs.records[ix].effects.len(),
                            ),
                        })
                    })
            },
        },
{
    let r = obs.records[ix];
    if can_come_next(obs, preds, s, ix) {
        lemma_first_named(net.transitions, r.step->0, 0);
        match compiled_from(net.transitions, r.step->0, 0) {
            Some(t) => {
                what_a_transition_lacks(s.marking, t.consumes, 0);
                assert(is_first_named(net.transitions, r.step->0, t));
                match crate::net::lacking_from(s.marking, t.consumes, 0) {
                    Some(p) => {
                        assert(is_short_of(net, s, t, net.place_names[p]));
                        assert(!has_enough(s, t));
                    },
                    None => {},
                }
            },
            None => {},
        }
    }
}

/// The ways to take tokens for a transition are all those that take one for each input and none
/// twice; of more than 512, the first 512 are tried, and the search says that it was cut.
pub proof fn which_tokens_are_tried(
    m: Seq<Seq<Seq<(Str, Str)>>>,
    t: CompiledTransitionView,
    c: Seq<usize>,
)
    requires
        forall|p: int| 0 <= p < m.len() ==> (#[trigger] m[p]).len() <= usize::MAX,
        within(t.consumes, m.len() as int),
    ensures
        all_choices(m, t.consumes, Seq::empty()).contains(c) <==> c.len() == t.consumes.len() && (
        forall|i: int|
            0 <= i < c.len() ==> #[trigger] c[i] < m[t.consumes[i] as int].len()) && (forall|
            i: int,
            j: int,
        |
            0 <= i < j < c.len() && t.consumes[i] == t.consumes[j] ==> #[trigger] c[i]
                != #[trigger] c[j]),
        too_many_choices(m, t) <==> all_choices(m, t.consumes, Seq::empty()).len() > 512,
        all_choices(m, t.consumes, Seq::empty()).len() <= 512 ==> capped(
            all_choices(m, t.consumes, Seq::empty()),
        ) == all_choices(m, t.consumes, Seq::empty()),
        all_choices(m, t.consumes, Seq::empty()).len() > 512 ==> capped(
            all_choices(m, t.consumes, Seq::empty()),
        ) == all_choices(m, t.consumes, Seq::empty()).take(512),
{
    let none = Seq::<usize>::empty();
    lemma_all_choices(m, t.consumes, none, c);
    assert(c.take(0) =~= none);
}

proof fn lemma_open(
    es: Seq<EffectInstanceView>,
    kind: Str,
    matched: Seq<Str>,
    n: int,
    aim: AimView,
)
    requires
        0 <= n <= es.len(),
    ensures
        open_effects(es, kind, matched, n).contains(aim) <==> exists|i: int|
            0 <= i < n && (#[trigger] es[i]).kind == kind && !matched.contains(es[i].id) && aim
                == AimView::Target(Some(es[i].id)),
    decreases n,
{
    if n > 0 {
        lemma_open(es, kind, matched, n - 1, aim);
        lemma_push_contains(
            open_effects(es, kind, matched, n - 1),
            AimView::Target(Some(es[n - 1].id)),
            aim,
        );
    }
}

/// An unlogged step may explain no effect, and one that emits one effect may explain any of that
/// kind that no step claims and that is not explained yet.
pub proof fn what_an_unlogged_step_may_explain(
    obs: ObservationView,
    s: StateView,
    t: CompiledTransitionView,
    aim: AimView,
)
    ensures
        targets_of(obs, s, t).contains(aim) <==> {
            ||| aim == AimView::Target(None)
            ||| t.emits.len() == 1 && exists|e: EffectInstanceView|
                #![trigger s.matched.contains(e.id)]
                !s.matched.contains(e.id) && e.kind == t.emits[0].effect && aim == AimView::Target(
                    Some(e.id),
                ) && exists|i: int|
                    0 <= i < obs.records.len() && (#[trigger] obs.records[i]).step is None
                        && obs.records[i].effects.contains(e)
        },
        may_go_unlogged(obs, s, t) <==> has_enough(s, t) && forall|k: int, i: int|
            #![trigger t.emits[k], obs.planes[i]]
            0 <= k < t.emits.len() && 0 <= i < obs.planes.len() ==> !(obs.planes[i].1.complete
                && obs.planes[i].1.carries.contains(t.emits[k].effect)),
{
    let none = seq![AimView::Target(None)];
    assert(none[0] == AimView::Target(None));
    let n = obs.records.len() as int;
    let es = dangling_upto(obs.records, n);
    if t.emits.len() == 1 {
        let kind = t.emits[0].effect;
        let open = open_effects(es, kind, s.matched, es.len() as int);
        lemma_open(es, kind, s.matched, es.len() as int, aim);
        lemma_concat_contains(none, open, aim);
        if open.contains(aim) {
            let i = choose|i: int|
                0 <= i < es.len() && (#[trigger] es[i]).kind == kind && !s.matched.contains(
                    es[i].id,
                ) && aim == AimView::Target(Some(es[i].id));
            effects_without_a_step(obs.records, n, es[i]);
            assert(es.contains(es[i]));
            assert(!s.matched.contains(es[i].id));
        }
        if exists|e: EffectInstanceView|
            #![trigger s.matched.contains(e.id)]
            !s.matched.contains(e.id) && e.kind == t.emits[0].effect && aim == AimView::Target(
                Some(e.id),
            ) && exists|i: int|
                0 <= i < obs.records.len() && (#[trigger] obs.records[i]).step is None
                    && obs.records[i].effects.contains(e) {
            let e = choose|e: EffectInstanceView|
                #![trigger s.matched.contains(e.id)]
                !s.matched.contains(e.id) && e.kind == t.emits[0].effect && aim == AimView::Target(
                    Some(e.id),
                ) && exists|i: int|
                    0 <= i < obs.records.len() && (#[trigger] obs.records[i]).step is None
                        && obs.records[i].effects.contains(e);
            effects_without_a_step(obs.records, n, e);
            let j = es.index_of(e);
            assert(es[j] == e);
        }
    }
    what_a_transition_lacks(s.marking, t.consumes, 0);
    assert(crate::search::would_show(obs, t.emits) <==> exists|k: int, i: int|
        #![trigger t.emits[k], obs.planes[i]]
        0 <= k < t.emits.len() && 0 <= i < obs.planes.len() && obs.planes[i].1.complete
            && obs.planes[i].1.carries.contains(t.emits[k].effect)) by {
        if crate::search::would_show(obs, t.emits) {
            let k = choose|k: int|
                0 <= k < t.emits.len() && crate::observation::carried(
                    obs.planes,
                    (#[trigger] t.emits[k]).effect,
                );
            let i = choose|i: int|
                0 <= i < obs.planes.len() && (#[trigger] obs.planes[i]).1.complete
                    && obs.planes[i].1.carries.contains(t.emits[k].effect);
            assert(obs.planes[i].1.complete);
        }
        if exists|k: int, i: int|
            #![trigger t.emits[k], obs.planes[i]]
            0 <= k < t.emits.len() && 0 <= i < obs.planes.len() && obs.planes[i].1.complete
                && obs.planes[i].1.carries.contains(t.emits[k].effect) {
            let (k, i) = choose|k: int, i: int|
                #![trigger t.emits[k], obs.planes[i]]
                0 <= k < t.emits.len() && 0 <= i < obs.planes.len() && obs.planes[i].1.complete
                    && obs.planes[i].1.carries.contains(t.emits[k].effect);
            assert(crate::observation::carried(obs.planes, t.emits[k].effect));
        }
    }
}

} // verus!
