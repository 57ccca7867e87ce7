//! When an observed effect fits a template, and when an obligation is met.
use crate::matching::{
    binding_fault, constraint_holds, edge_failure, edge_failures, edge_fault, edge_present, gaps_upto, matched_args,
    matched_effect, obligation_fault, target_fault, unmet_from,
};
use crate::model::{classified, glob_matches, EffectTemplateView, RelationObligationView, SpecView};
use crate::observation::{
    all_effects, effect_from, effect_named, effects_upto, EffectInstanceView, ObservationView,
    ObservedEdgeView, RecordView,
};
use crate::ordered::{a_lookup_gives_back_what_was_put, lookup, put};
use crate::net::FailureView;
use crate::search::{lemma_concat_contains, lemma_push_contains};
use crate::text::Str;
use vstd::prelude::*;

verus! {

/// Whether a value is one that an argument of a template admits, where `env` says what the
/// variables stand for: a variable admits its value, a glob what it matches, and anything else
/// itself.
pub open spec fn fits(raw: Str, value: Str, env: Seq<(Str, Str)>) -> bool {
    if raw.len() > 0 && raw[0] == '$' {
        lookup(env, raw.skip(1)) == Some(value)
    } else if raw.contains('*') {
        glob_matches(raw, value)
    } else {
        raw == value
    }
}

/// Whether an effect carries every argument of a template from position `i` on, each with a
/// value that the template admits.
pub open spec fn carries_all(
    args: Seq<(Str, Str)>,
    observed: EffectInstanceView,
    env: Seq<(Str, Str)>,
    i: int,
) -> bool {
    forall|k: int|
        i <= k < args.len() ==> (lookup(observed.args, (#[trigger] args[k]).0) matches Some(v)
            && fits(args[k].1, v, env))
}

/// Whether whatever has a value in `env` has the same in `out`.
pub open spec fn extends(env: Seq<(Str, Str)>, out: Seq<(Str, Str)>) -> bool {
    forall|x: Str| (#[trigger] lookup(env, x)) is Some ==> lookup(out, x) == lookup(env, x)
}

/// Whether every variable that has a value in `out` alone is one that the template names.
pub open spec fn names_what_is_new(
    args: Seq<(Str, Str)>,
    env: Seq<(Str, Str)>,
    out: Seq<(Str, Str)>,
    i: int,
) -> bool {
    forall|x: Str|
        (#[trigger] lookup(out, x)) is Some && lookup(env, x) is None ==> exists|k: int|
            i <= k < args.len() && (#[trigger] args[k]).1 == seq!['$'] + x
}

proof fn lemma_matched_args(
    args: Seq<(Str, Str)>,
    observed: EffectInstanceView,
    env: Seq<(Str, Str)>,
    step: Str,
    i: int,
)
    requires
        0 <= i,
    ensures
        matched_args(args, observed, env, step, i) matches Ok(out) ==> carries_all(
            args,
            observed,
            out,
            i,
        ) && extends(env, out) && names_what_is_new(args, env, out, i),
    decreases args.len() - i,
{
    if i < args.len() && matched_args(args, observed, env, step, i) is Ok {
        let out = matched_args(args, observed, env, step, i)->Ok_0;
        let raw = args[i].1;
        let value = lookup(observed.args, args[i].0)->0;
        if raw.len() > 0 && raw[0] == '$' {
            let name = raw.skip(1);
            let next = put(env, name, value);
            lemma_matched_args(args, observed, next, step, i + 1);
            a_lookup_gives_back_what_was_put(env, name, value, name);
            assert(raw =~= seq!['$'] + name);
            assert forall|x: Str| (#[trigger] lookup(env, x)) is Some implies lookup(out, x)
                == lookup(env, x) by {
                a_lookup_gives_back_what_was_put(env, name, value, x);
                assert(lookup(next, x) is Some);
            }
            assert forall|x: Str|
                (#[trigger] lookup(out, x)) is Some && lookup(env, x) is None implies exists|k: int|
                i <= k < args.len() && (#[trigger] args[k]).1 == seq!['$'] + x by {
                a_lookup_gives_back_what_was_put(env, name, value, x);
                if x == name {
                    assert(args[i].1 == seq!['$'] + x);
                } else {
                    let k = choose|k: int|
                        i + 1 <= k < args.len() && (#[trigger] args[k]).1 == seq!['$'] + x;
                    assert(args[k].1 == seq!['$'] + x);
                }
            }
            assert(lookup(next, name) is Some);
            assert(lookup(out, name) == Some(value));
        } else {
            lemma_matched_args(args, observed, env, step, i + 1);
            assert forall|x: Str|
                (#[trigger] lookup(out, x)) is Some && lookup(env, x) is None implies exists|k: int|
                i <= k < args.len() && (#[trigger] args[k]).1 == seq!['$'] + x by {
                let k = choose|k: int|
                    i + 1 <= k < args.len() && (#[trigger] args[k]).1 == seq!['$'] + x;
                assert(args[k].1 == seq!['$'] + x);
            }
        }
        assert forall|k: int| i <= k < args.len() implies (lookup(
            observed.args,
            (#[trigger] args[k]).0,
        ) matches Some(v) && fits(args[k].1, v, out)) by {
            if k == i {
            } else {
                assert(i + 1 <= k);
            }
        }
    }
}

proof fn lemma_args_match(
    args: Seq<(Str, Str)>,
    observed: EffectInstanceView,
    env: Seq<(Str, Str)>,
    goal: Seq<(Str, Str)>,
    step: Str,
    i: int,
)
    requires
        0 <= i,
        carries_all(args, observed, goal, i),
        extends(env, goal),
    ensures
        matched_args(args, observed, env, step, i) is Ok,
    decreases args.len() - i,
{
    if i < args.len() {
        let raw = args[i].1;
        let value = lookup(observed.args, args[i].0)->0;
        assert(carries_all(args, observed, goal, i + 1));
        if raw.len() > 0 && raw[0] == '$' {
            let name = raw.skip(1);
            let next = put(env, name, value);
            assert(lookup(env, name) is Some ==> lookup(goal, name) == lookup(env, name));
            assert forall|x: Str| (#[trigger] lookup(next, x)) is Some implies lookup(goal, x)
                == lookup(next, x) by {
                a_lookup_gives_back_what_was_put(env, name, value, x);
            }
            lemma_args_match(args, observed, next, goal, step, i + 1);
        } else {
            lemma_args_match(args, observed, env, goal, step, i + 1);
        }
    }
}

/// An effect that matches a template is of its kind and carries each of its arguments with a
/// value that it admits: what a variable stands for, what a glob matches, or the argument
/// itself. What variables stood for before they stand for still, and only those that the
/// template names can have got a value.
pub proof fn a_match_carries_what_the_template_says(
    template: EffectTemplateView,
    observed: EffectInstanceView,
    env: Seq<(Str, Str)>,
    step: Str,
)
    ensures
        matched_effect(template, observed, env, step) matches Ok(out) ==> template.effect
            == observed.kind && (forall|k: int|
            0 <= k < template.args.len() ==> (lookup(
                observed.args,
                (#[trigger] template.args[k]).0,
            ) matches Some(v) && fits(template.args[k].1, v, out))) && extends(env, out)
            && names_what_is_new(template.args, env, out, 0),
{
    lemma_matched_args(template.args, observed, env, step, 0);
}

/// Where the variables can be read so that an effect carries what a template says, and as they
/// were read before, the effect matches.
pub proof fn what_carries_what_the_template_says_matches(
    template: EffectTemplateView,
    observed: EffectInstanceView,
    env: Seq<(Str, Str)>,
    reading: Seq<(Str, Str)>,
    step: Str,
)
    requires
        template.effect == observed.kind,
        extends(env, reading),
        forall|k: int|
            0 <= k < template.args.len() ==> (lookup(
                observed.args,
                (#[trigger] template.args[k]).0,
            ) matches Some(v) && fits(template.args[k].1, v, reading)),
    ensures
        matched_effect(template, observed, env, step) is Ok,
{
    lemma_args_match(template.args, observed, env, reading, step, 0);
}

/// Whether a failure tells that an effect lacks an argument of a template, or carries it with a
/// value that does not fit.
pub open spec fn tells_of_argument(
    arg: (Str, Str),
    observed: EffectInstanceView,
    step: Str,
    f: FailureView,
) -> bool {
    match lookup(observed.args, arg.0) {
        None => f == (FailureView::EffectShapeMismatch {
            step,
            detail: "effect `"@ + observed.kind + "` carries no `"@ + arg.0 + "`"@,
        }),
        Some(v) => f matches FailureView::EffectArgMismatch {
            step: s,
            effect,
            arg: key,
            expected,
            observed: o,
        } && s == step && effect == observed.kind && key == arg.0 && o == v && (if arg.1.len() > 0
            && arg.1[0] == '$' {
            exists|bound: Str| bound != v && expected == #[trigger] (arg.1 + " = "@ + bound)
        } else {
            expected == arg.1 && !fits(arg.1, v, Seq::empty())
        }),
    }
}

proof fn lemma_unmatched_args(
    args: Seq<(Str, Str)>,
    observed: EffectInstanceView,
    env: Seq<(Str, Str)>,
    step: Str,
    i: int,
)
    requires
        0 <= i,
    ensures
        matched_args(args, observed, env, step, i) matches Err(f) ==> exists|k: int|
            i <= k < args.len() && tells_of_argument(#[trigger] args[k], observed, step, f)
                && forall|j: int|
                i <= j < k ==> lookup(observed.args, (#[trigger] args[j]).0) is Some,
    decreases args.len() - i, 1int,
{
    if i < args.len() && matched_args(args, observed, env, step, i) is Err {
        let f = matched_args(args, observed, env, step, i)->Err_0;
        let raw = args[i].1;
        if lookup(observed.args, args[i].0) is None {
            assert(tells_of_argument(args[i], observed, step, f));
        } else {
            let value = lookup(observed.args, args[i].0)->0;
            if raw.len() > 0 && raw[0] == '$' {
                let name = raw.skip(1);
                let bound = lookup(env, name);
                if bound is Some && bound->0 != value {
                    reveal_strlit("$");
                    assert("$"@ + name =~= raw);
                    assert(f->EffectArgMismatch_expected == raw + " = "@ + bound->0);
                    assert(tells_of_argument(args[i], observed, step, f));
                } else {
                    lemma_unmatched_later(args, observed, put(env, name, value), step, i, f);
                }
            } else if fits(raw, value, Seq::empty()) {
                lemma_unmatched_later(args, observed, env, step, i, f);
            } else {
                assert(tells_of_argument(args[i], observed, step, f));
            }
        }
    }
}

proof fn lemma_unmatched_later(
    args: Seq<(Str, Str)>,
    observed: EffectInstanceView,
    env: Seq<(Str, Str)>,
    step: Str,
    i: int,
    f: FailureView,
)
    requires
        0 <= i < args.len(),
        lookup(observed.args, args[i].0) is Some,
        matched_args(args, observed, env, step, i + 1) == Err::<Seq<(Str, Str)>, FailureView>(f),
    ensures
        exists|k: int|
            i <= k < args.len() && tells_of_argument(#[trigger] args[k], observed, step, f)
                && forall|j: int|
                i <= j < k ==> lookup(observed.args, (#[trigger] args[j]).0) is Some,
    decreases args.len() - i, 0int,
{
    lemma_unmatched_args(args, observed, env, step, i + 1);
    let k = choose|k: int|
        i + 1 <= k < args.len() && tells_of_argument(#[trigger] args[k], observed, step, f)
            && forall|j: int|
            i + 1 <= j < k ==> lookup(observed.args, (#[trigger] args[j]).0) is Some;
    assert(tells_of_argument(args[k], observed, step, f));
}

/// Where an effect does not match, the failure tells of the first argument that it lacks or
/// that does not fit, with the value that it carries; or that it is of another kind.
pub proof fn a_mismatch_names_the_argument(
    template: EffectTemplateView,
    observed: EffectInstanceView,
    env: Seq<(Str, Str)>,
    step: Str,
)
    ensures
        matched_effect(template, observed, env, step) matches Err(f) ==> if template.effect
            != observed.kind {
            f == (FailureView::EffectShapeMismatch {
                step,
                detail: "expected `"@ + template.effect + "` but observed `"@ + observed.kind
                    + "`"@,
            })
        } else {
            exists|k: int|
                0 <= k < template.args.len() && tells_of_argument(
                    #[trigger] template.args[k],
                    observed,
                    step,
                    f,
                ) && forall|j: int|
                    0 <= j < k ==> lookup(observed.args, (#[trigger] template.args[j]).0) is Some
        },
{
    lemma_unmatched_args(template.args, observed, env, step, 0);
}

// ---------------------------------------------------------------------------
// Effects by name
// ---------------------------------------------------------------------------
proof fn lemma_effects_of(rs: Seq<RecordView>, n: int, e: EffectInstanceView)
    requires
        0 <= n <= rs.len(),
    ensures
        effects_upto(rs, n).contains(e) <==> exists|i: int|
            0 <= i < n && (#[trigger] rs[i]).effects.contains(e),
    decreases n,
{
    if n > 0 {
        lemma_effects_of(rs, n - 1, e);
        lemma_concat_contains(effects_upto(rs, n - 1), rs[n - 1].effects, e);
    }
}

proof fn lemma_effect_from(es: Seq<EffectInstanceView>, id: Str, i: int)
    requires
        0 <= i,
    ensures
        effect_from(es, id, i) is None <==> forall|j: int|
            i <= j < es.len() ==> (#[trigger] es[j]).id != id,
        effect_from(es, id, i) matches Some(e) ==> e.id == id && es.contains(e),
    decreases es.len() - i,
{
    if i < es.len() && es[i].id != id {
        lemma_effect_from(es, id, i + 1);
    }
}

/// The effect of a name is one of an observed record that has that name; there is none where no
/// record carries one.
pub proof fn an_effect_is_found_by_its_name(rs: Seq<RecordView>, id: Str)
    ensures
        effect_named(rs, id) matches Some(e) ==> e.id == id && exists|i: int|
            0 <= i < rs.len() && (#[trigger] rs[i]).effects.contains(e),
        effect_named(rs, id) is None ==> forall|i: int, k: int|
            #![trigger rs[i].effects[k]]
            0 <= i < rs.len() && 0 <= k < rs[i].effects.len() ==> rs[i].effects[k].id != id,
{
    let es = all_effects(rs);
    lemma_effect_from(es, id, 0);
    if effect_named(rs, id) is Some {
        lemma_effects_of(rs, rs.len() as int, effect_named(rs, id)->0);
    } else {
        assert forall|i: int, k: int|
            #![trigger rs[i].effects[k]]
            0 <= i < rs.len() && 0 <= k < rs[i].effects.len() implies rs[i].effects[k].id != id by {
            let e = rs[i].effects[k];
            lemma_effects_of(rs, rs.len() as int, e);
            assert(rs[i].effects.contains(e));
            let j = es.index_of(e);
            assert(es[j] == e);
        }
    }
}

// ---------------------------------------------------------------------------
// Obligations
// ---------------------------------------------------------------------------
/// Whether an argument of a target has the value that a binding asks for: that of the variable,
/// or the one that is written down.
pub open spec fn agrees(
    bind: (Str, Str),
    env: Seq<(Str, Str)>,
    target: EffectInstanceView,
) -> bool {
    if bind.1.len() > 0 && bind.1[0] == '$' {
        lookup(env, bind.1.skip(1)) is Some && lookup(target.args, bind.0) == lookup(
            env,
            bind.1.skip(1),
        )
    } else {
        lookup(target.args, bind.0) == Some(bind.1)
    }
}

proof fn lemma_binding_fault(
    bind: Seq<(Str, Str)>,
    env: Seq<(Str, Str)>,
    target: EffectInstanceView,
    i: int,
)
    requires
        0 <= i,
    ensures
        binding_fault(bind, env, target, i) is None <==> forall|k: int|
            i <= k < bind.len() ==> agrees(#[trigger] bind[k], env, target),
    decreases bind.len() - i,
{
    if i < bind.len() {
        lemma_binding_fault(bind, env, target, i + 1);
        assert(agrees(bind[i], env, target) || binding_fault(bind, env, target, i) is Some);
    }
}

/// Whether an edge discharges an obligation: it is of the relation, leaves the effect, and leads
/// to an effect of the named kind that is explained already and agrees with every binding.
pub open spec fn discharges(
    obs: ObservationView,
    e: ObservedEdgeView,
    o: RelationObligationView,
    effect: Str,
    env: Seq<(Str, Str)>,
    matched: Seq<Str>,
) -> bool {
    &&& e.ty == o.ty
    &&& e.from == effect
    &&& effect_named(obs.records, e.to) matches Some(t) && t.kind == o.target && matched.contains(
        t.id,
    ) && forall|k: int| 0 <= k < o.bind.len() ==> agrees(#[trigger] o.bind[k], env, t)
}

proof fn lemma_edge_fault(
    obs: ObservationView,
    o: RelationObligationView,
    effect: Str,
    env: Seq<(Str, Str)>,
    matched: Seq<Str>,
    detail: Str,
    i: int,
)
    requires
        0 <= i,
    ensures
        edge_fault(obs, o, effect, env, matched, detail, i) is None <==> exists|k: int|
            i <= k < obs.edges.len() && discharges(
                obs,
                #[trigger] obs.edges[k],
                o,
                effect,
                env,
                matched,
            ),
    decreases obs.edges.len() - i,
{
    if i < obs.edges.len() {
        lemma_edge_fault(obs, o, effect, env, matched, detail, i + 1);
        match effect_named(obs.records, obs.edges[i].to) {
            None => {},
            Some(t) => {
                lemma_binding_fault(o.bind, env, t, 0);
                match target_fault(o, env, t, matched) {
                    None => {},
                    Some(fault) => {
                        lemma_edge_fault(obs, o, effect, env, matched, fault, i + 1);
                    },
                }
            },
        }
        assert(discharges(obs, obs.edges[i], o, effect, env, matched) ==> edge_fault(
            obs,
            o,
            effect,
            env,
            matched,
            detail,
            i,
        ) is None);
    }
}

proof fn lemma_obligation_fault(
    obs: ObservationView,
    o: RelationObligationView,
    effect: Str,
    env: Seq<(Str, Str)>,
    matched: Seq<Str>,
)
    ensures
        obligation_fault(obs, o, effect, env, matched) is None <==> exists|k: int|
            0 <= k < obs.edges.len() && discharges(
                obs,
                #[trigger] obs.edges[k],
                o,
                effect,
                env,
                matched,
            ),
{
    lemma_edge_fault(obs, o, effect, env, matched, Seq::empty(), 0);
}

proof fn lemma_unmet(
    os: Seq<RelationObligationView>,
    transition: Str,
    effect: Str,
    env: Seq<(Str, Str)>,
    obs: ObservationView,
    matched: Seq<Str>,
    i: int,
)
    requires
        0 <= i,
    ensures
        unmet_from(os, transition, effect, env, obs, matched, i) is None ==> forall|j: int|
            i <= j < os.len() ==> exists|k: int|
                0 <= k < obs.edges.len() && discharges(
                    obs,
                    #[trigger] obs.edges[k],
                    #[trigger] os[j],
                    effect,
                    env,
                    matched,
                ),
        unmet_from(os, transition, effect, env, obs, matched, i) matches Some(f) ==> exists|j: int|
            i <= j < os.len() && names_obligation(f, #[trigger] os[j], transition, effect) && !(
            exists|k: int|
                0 <= k < obs.edges.len() && discharges(
                    obs,
                    #[trigger] obs.edges[k],
                    os[j],
                    effect,
                    env,
                    matched,
                )),
    decreases os.len() - i,
{
    if i < os.len() {
        lemma_obligation_fault(obs, os[i], effect, env, matched);
        lemma_unmet(os, transition, effect, env, obs, matched, i + 1);
        if unmet_from(os, transition, effect, env, obs, matched, i) is Some {
            let f = unmet_from(os, transition, effect, env, obs, matched, i)->0;
            if obligation_fault(obs, os[i], effect, env, matched) is Some {
                assert(names_obligation(f, os[i], transition, effect));
            }
        }
    }
}

/// Whether a failure tells of an obligation of a transition's effect.
pub open spec fn names_obligation(
    f: FailureView,
    o: RelationObligationView,
    transition: Str,
    effect: Str,
) -> bool {
    f matches FailureView::ObligationUnmet { transition: t, relation, effect: e, target, .. } && t
        == transition && relation == o.ty && e == effect && target == o.target
}

/// The obligations of an effect are met exactly where each of them is discharged by an observed
/// edge; where one is not, the failure names one that no edge discharges.
pub proof fn obligations_are_met_by_edges(
    os: Seq<RelationObligationView>,
    transition: Str,
    effect: Str,
    env: Seq<(Str, Str)>,
    obs: ObservationView,
    matched: Seq<Str>,
)
    ensures
        unmet_from(os, transition, effect, env, obs, matched, 0) is None <==> forall|j: int|
            0 <= j < os.len() ==> exists|k: int|
                0 <= k < obs.edges.len() && discharges(
                    obs,
                    #[trigger] obs.edges[k],
                    #[trigger] os[j],
                    effect,
                    env,
                    matched,
                ),
        unmet_from(os, transition, effect, env, obs, matched, 0) matches Some(f) ==> exists|j: int|
            0 <= j < os.len() && names_obligation(f, #[trigger] os[j], transition, effect) && !(
            exists|k: int|
                0 <= k < obs.edges.len() && discharges(
                    obs,
                    #[trigger] obs.edges[k],
                    os[j],
                    effect,
                    env,
                    matched,
                )),
{
    lemma_unmet(os, transition, effect, env, obs, matched, 0);
}

/// Those and only those obligations are told as gaps for which no edge of the relation leads
/// from the effect to one of the named kind.
pub proof fn gaps_are_obligations_without_an_edge(
    os: Seq<RelationObligationView>,
    transition: Str,
    effect: Str,
    obs: ObservationView,
    n: int,
    f: FailureView,
)
    requires
        0 <= n <= os.len(),
    ensures
        gaps_upto(os, transition, effect, obs, n).contains(f) <==> exists|j: int|
            0 <= j < n && f == (FailureView::ObligationUnmet {
                transition,
                relation: (#[trigger] os[j]).ty,
                effect,
                target: os[j].target,
                detail: "the observation contains no `"@ + os[j].ty
                    + "` edge from this effect to any `"@ + os[j].target + "`"@,
            }) && forall|k: int|
                0 <= k < obs.edges.len() && (#[trigger] obs.edges[k]).ty == os[j].ty
                    && obs.edges[k].from == effect ==> (effect_named(obs.records, obs.edges[k].to)
                    matches Some(t) ==> t.kind != os[j].target),
    decreases n,
{
    if n > 0 {
        gaps_are_obligations_without_an_edge(os, transition, effect, obs, n - 1, f);
        let o = os[n - 1];
        let told = FailureView::ObligationUnmet {
            transition,
            relation: o.ty,
            effect,
            target: o.target,
            detail: "the observation contains no `"@ + o.ty + "` edge from this effect to any `"@
                + o.target + "`"@,
        };
        lemma_push_contains(gaps_upto(os, transition, effect, obs, n - 1), told, f);
        assert(edge_present(obs, o, effect) <==> !(forall|k: int|
            0 <= k < obs.edges.len() && (#[trigger] obs.edges[k]).ty == o.ty && obs.edges[k].from
                == effect ==> (effect_named(obs.records, obs.edges[k].to) matches Some(t) ==> t.kind
                != o.target)));
    }
}

// ---------------------------------------------------------------------------
// Edges
// ---------------------------------------------------------------------------
/// Whether a failure tells what is wrong with an edge: its relation is not declared, it joins
/// other kinds of effects than declared, or the declared constraint does not hold of them.
pub open spec fn tells_of_edge(
    spec: SpecView,
    obs: ObservationView,
    e: ObservedEdgeView,
    f: FailureView,
) -> bool {
    match lookup(spec.relations, e.ty) {
        None => f == (FailureView::EdgeIllTyped {
            relation: e.ty,
            from: e.from,
            to: e.to,
            detail: "relation is not declared by the specification"@,
        }),
        Some(schema) => effect_named(obs.records, e.from) matches Some(from) && effect_named(
            obs.records,
            e.to,
        ) matches Some(to) && {
            ||| (from.kind != schema.from || to.kind != schema.to) && f
                == (FailureView::EdgeIllTyped {
                relation: e.ty,
                from: e.from,
                to: e.to,
                detail: "declared as "@ + schema.from + " -> "@ + schema.to + " but observed as "@
                    + from.kind + " -> "@ + to.kind,
            })
            ||| from.kind == schema.from && to.kind == schema.to && !constraint_holds(
                schema.constraint,
                from,
                to,
            ) && f == (FailureView::ConstraintViolated {
                relation: e.ty,
                from: e.from,
                to: e.to,
                constraint: schema.constraint,
            })
        },
    }
}

proof fn lemma_edge_failures(spec: SpecView, obs: ObservationView, n: int, f: FailureView)
    requires
        0 <= n <= obs.edges.len(),
    ensures
        edge_failures(spec, obs, n).contains(f) <==> exists|k: int|
            0 <= k < n && tells_of_edge(spec, obs, #[trigger] obs.edges[k], f),
    decreases n,
{
    if n > 0 {
        lemma_edge_failures(spec, obs, n - 1, f);
        let e = obs.edges[n - 1];
        match edge_failure(spec, obs, e) {
            Some(g) => {
                lemma_push_contains(edge_failures(spec, obs, n - 1), g, f);
                assert(tells_of_edge(spec, obs, e, g));
                assert(tells_of_edge(spec, obs, e, f) ==> f == g);
            },
            None => {
                assert(!tells_of_edge(spec, obs, e, f));
            },
        }
    }
}

/// What is told of the observed edges is what is wrong with one of them; an edge between
/// effects that were not observed is passed over.
pub proof fn edges_are_held_against_their_relations(
    spec: SpecView,
    obs: ObservationView,
    f: FailureView,
)
    ensures
        edge_failures(spec, obs, obs.edges.len() as int).contains(f) <==> exists|k: int|
            0 <= k < obs.edges.len() && tells_of_edge(spec, obs, #[trigger] obs.edges[k], f),
{
    lemma_edge_failures(spec, obs, obs.edges.len() as int, f);
}

} // verus!
