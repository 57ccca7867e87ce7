//! Layer two: how observed effects, edges and bindings are held against what a transition may
//! emit.

use crate::model::{
    classified, classify, glob_match, glob_matches, EffectTemplate, EffectTemplateView, Pattern,
    PatternView, RelationObligation, RelationObligationView, Spec, SpecView,
};
use crate::net::{Env, Failure, FailureView};
use crate::observation::{
    effect_named, EffectInstance, EffectInstanceView, Observation, ObservationView,
    ObservedEdgeView,
};
use crate::ordered::{append_to, empty_vec, lookup, push_to, put, Dup, StrSet};
use crate::text::{
    cat2, cat3, cat4, cat5, cat7, cut, cut_text, decimal, decimal_text, pieces, replace_text,
    replaced, same_text, split_text, strip_char_text, strip_prefix_text, stripped, trim_text,
    trimmed, without_prefix, Str,
};
use vstd::prelude::*;

verus! {

// ---------------------------------------------------------------------------
// Templates
// ---------------------------------------------------------------------------
/// The environment after the arguments of `observed` from position `i` on have been held
/// against those of a template, or the first argument that does not fit.
pub open spec fn matched_args(
    args: Seq<(Str, Str)>,
    observed: EffectInstanceView,
    env: Seq<(Str, Str)>,
    step: Str,
    i: int,
) -> Result<Seq<(Str, Str)>, FailureView>
    decreases args.len() - i,
{
    if i < 0 || i >= args.len() {
        Ok(env)
    } else {
        let key = args[i].0;
        match lookup(observed.args, key) {
            None => Err(
                FailureView::EffectShapeMismatch {
                    step,
                    detail: "effect `"@ + observed.kind + "` carries no `"@ + key + "`"@,
                },
            ),
            Some(value) => match classified(args[i].1) {
                PatternView::Lit(expected) => if expected != value {
                    Err(
                        FailureView::EffectArgMismatch {
                            step,
                            effect: observed.kind,
                            arg: key,
                            expected,
                            observed: value,
                        },
                    )
                } else {
                    matched_args(args, observed, env, step, i + 1)
                },
                PatternView::Glob(pattern) => if !glob_matches(pattern, value) {
                    Err(
                        FailureView::EffectArgMismatch {
                            step,
                            effect: observed.kind,
                            arg: key,
                            expected: pattern,
                            observed: value,
                        },
                    )
                } else {
                    matched_args(args, observed, env, step, i + 1)
                },
                PatternView::Var(name) => match lookup(env, name) {
                    Some(bound) => if bound != value {
                        Err(
                            FailureView::EffectArgMismatch {
                                step,
                                effect: observed.kind,
                                arg: key,
                                expected: "$"@ + name + " = "@ + bound,
                                observed: value,
                            },
                        )
                    } else {
                        matched_args(args, observed, put(env, name, value), step, i + 1)
                    },
                    None => matched_args(args, observed, put(env, name, value), step, i + 1),
                },
            },
        }
    }
}

/// The environment after an observed effect has been held against a template: the kinds
/// agree, every argument of the template is there and fits, and its variables are bound.
pub open spec fn matched_effect(
    template: EffectTemplateView,
    observed: EffectInstanceView,
    env: Seq<(Str, Str)>,
    step: Str,
) -> Result<Seq<(Str, Str)>, FailureView> {
    if template.effect != observed.kind {
        Err(
            FailureView::EffectShapeMismatch {
                step,
                detail: "expected `"@ + template.effect + "` but observed `"@ + observed.kind
                    + "`"@,
            },
        )
    } else {
        matched_args(template.args, observed, env, step, 0)
    }
}

/// Holds an observed effect against a template.
pub fn match_template(
    template: &EffectTemplate,
    observed: &EffectInstance,
    env: &Env,
    step: &str,
) -> (r: Result<Env, Failure>)
    ensures
        match r {
            Ok(e) => matched_effect(
                template.deep_view(),
                observed.deep_view(),
                env.deep_view(),
                step@,
            ) == Ok::<Seq<(Str, Str)>, FailureView>(e.deep_view()),
            Err(f) => matched_effect(
                template.deep_view(),
                observed.deep_view(),
                env.deep_view(),
                step@,
            ) == Err::<Seq<(Str, Str)>, FailureView>(f.deep_view()),
        },
{
    let ghost args = template.args.deep_view();
    let ghost ov = observed.deep_view();
    let ghost goal = matched_effect(template.deep_view(), ov, env.deep_view(), step@);
    if template.effect != observed.kind {
        return Err(
            Failure::EffectShapeMismatch {
                step: step.to_string(),
                detail: cat5(
                    "expected `",
                    template.effect.as_str(),
                    "` but observed `",
                    observed.kind.as_str(),
                    "`",
                ),
            },
        );
    }
    let mut next = env.dup();
    let mut i: usize = 0;
    while i < template.args.len()
        invariant
            i <= args.len(),
            args == template.args.deep_view(),
            ov == observed.deep_view(),
            goal == matched_effect(template.deep_view(), ov, env.deep_view(), step@),
            goal == matched_args(args, ov, next.deep_view(), step@, i as int),
        decreases args.len() - i,
    {
        let key = template.args.key_at(i);
        let raw = template.args.value_at(i);
        assert(args[i as int] == (key@, raw@));
        match observed.args.get(key.as_str()) {
            None => {
                return Err(
                    Failure::EffectShapeMismatch {
                        step: step.to_string(),
                        detail: cat5(
                            "effect `",
                            observed.kind.as_str(),
                            "` carries no `",
                            key.as_str(),
                            "`",
                        ),
                    },
                );
            },
            Some(value) => {
                match classify(raw.as_str()) {
                    Pattern::Lit(expected) => {
                        if expected != *value {
                            return Err(
                                Failure::EffectArgMismatch {
                                    step: step.to_string(),
                                    effect: observed.kind.clone(),
                                    arg: key.clone(),
                                    expected,
                                    observed: value.clone(),
                                },
                            );
                        }
                    },
                    Pattern::Glob(pattern) => {
                        if !glob_match(pattern.as_str(), value.as_str()) {
                            return Err(
                                Failure::EffectArgMismatch {
                                    step: step.to_string(),
                                    effect: observed.kind.clone(),
                                    arg: key.clone(),
                                    expected: pattern,
                                    observed: value.clone(),
                                },
                            );
                        }
                    },
                    Pattern::Var(name) => {
                        match next.get(name.as_str()) {
                            Some(bound) => {
                                if *bound != *value {
                                    return Err(
                                        Failure::EffectArgMismatch {
                                            step: step.to_string(),
                                            effect: observed.kind.clone(),
                                            arg: key.clone(),
                                            expected: cat4(
                                                "$",
                                                name.as_str(),
                                                " = ",
                                                bound.as_str(),
                                            ),
                                            observed: value.clone(),
                                        },
                                    );
                                }
                            },
                            None => {},
                        }
                        next.insert(name, value.clone());
                    },
                }
            },
        }
        i = i + 1;
    }
    Ok(next)
}

/// A value that no earlier step knows.
pub open spec fn fresh_name(n: nat) -> Str {
    "~fresh"@ + decimal(n)
}

/// What a template argument stands for, and how many fresh values have then been minted.
pub open spec fn resolved(raw: Str, env: Seq<(Str, Str)>, fresh: nat) -> (Str, nat) {
    match classified(raw) {
        PatternView::Lit(v) => (v, fresh),
        PatternView::Glob(pattern) => (replaced(pattern, '*', "~any"@ + decimal(fresh)), fresh),
        PatternView::Var(name) => match lookup(env, name) {
            Some(v) => (v, fresh),
            None => (fresh_name(fresh + 1), fresh + 1),
        },
    }
}

/// A value that no earlier step knows.
pub fn fresh_text(n: usize) -> (r: String)
    ensures
        r@ == fresh_name(n as nat),
{
    let d = decimal_text(n as u64);
    cat2("~fresh", d.as_str())
}

/// What a template argument stands for; an unbound variable stands for a fresh value.
pub fn resolve(raw: &str, env: &Env, fresh: &mut usize) -> (r: String)
    requires
        *old(fresh) < usize::MAX,
    ensures
        (r@, *final(fresh) as nat) == resolved(raw@, env.deep_view(), *old(fresh) as nat),
{
    match classify(raw) {
        Pattern::Lit(v) => v,
        Pattern::Glob(pattern) => {
            let d = decimal_text(*fresh as u64);
            let by = cat2("~any", d.as_str());
            replace_text(pattern.as_str(), '*', by.as_str())
        },
        Pattern::Var(name) => match env.get(name.as_str()) {
            Some(v) => v.clone(),
            None => {
                *fresh = *fresh + 1;
                fresh_text(*fresh)
            },
        },
    }
}

// ---------------------------------------------------------------------------
// Obligations
// ---------------------------------------------------------------------------
/// What an obligation's binding requires of an argument of the target.
pub open spec fn expected_value(raw: Str, env: Seq<(Str, Str)>) -> Option<Str> {
    match classified(raw) {
        PatternView::Var(name) => lookup(env, name),
        PatternView::Lit(v) => Some(v),
        PatternView::Glob(p) => Some(p),
    }
}

/// What is wrong with the bindings from position `i` on, if anything.
pub open spec fn binding_fault(
    bind: Seq<(Str, Str)>,
    env: Seq<(Str, Str)>,
    target: EffectInstanceView,
    i: int,
) -> Option<Str>
    decreases bind.len() - i,
{
    if i < 0 || i >= bind.len() {
        None
    } else {
        match expected_value(bind[i].1, env) {
            None => Some("`"@ + bind[i].1 + "` is unbound at this point"@),
            Some(expected) => match lookup(target.args, bind[i].0) {
                None => Some("target carries no `"@ + bind[i].0 + "`"@),
                Some(actual) => if actual == expected {
                    binding_fault(bind, env, target, i + 1)
                } else {
                    Some(
                        "binding mismatch: "@ + bind[i].0 + " is "@ + actual
                            + " on the target but "@ + expected + " here"@,
                    )
                },
            },
        }
    }
}

/// What is wrong with `target` as the target of an obligation, if anything.
pub open spec fn target_fault(
    o: RelationObligationView,
    env: Seq<(Str, Str)>,
    target: EffectInstanceView,
    matched: Seq<Str>,
) -> Option<Str> {
    if target.kind != o.target {
        Some(
            "edge points at `"@ + target.kind + "` but the obligation names `"@ + o.target + "`"@,
        )
    } else if !matched.contains(target.id) {
        Some(
            "target `"@ + target.id + "` has no producing transition on any accepting path"@,
        )
    } else {
        binding_fault(o.bind, env, target, 0)
    }
}

/// Whether an edge is of the obligation's relation and leaves the effect.
pub open spec fn bears_on(e: ObservedEdgeView, o: RelationObligationView, effect: Str) -> bool {
    e.ty == o.ty && e.from == effect
}

/// What keeps the edges from position `i` on from discharging an obligation: none where one of
/// them does, else the last fault found, or `detail` where there was none.
pub open spec fn edge_fault(
    obs: ObservationView,
    o: RelationObligationView,
    effect: Str,
    env: Seq<(Str, Str)>,
    matched: Seq<Str>,
    detail: Str,
    i: int,
) -> Option<Str>
    decreases obs.edges.len() - i,
{
    if i < 0 || i >= obs.edges.len() {
        Some(detail)
    } else if !bears_on(obs.edges[i], o, effect) {
        edge_fault(obs, o, effect, env, matched, detail, i + 1)
    } else {
        match effect_named(obs.records, obs.edges[i].to) {
            None => edge_fault(obs, o, effect, env, matched, detail, i + 1),
            Some(target) => match target_fault(o, env, target, matched) {
                None => None,
                Some(fault) => edge_fault(obs, o, effect, env, matched, fault, i + 1),
            },
        }
    }
}

/// Whether some edge is of the obligation's relation and leaves the effect.
pub open spec fn some_edge(obs: ObservationView, o: RelationObligationView, effect: Str) -> bool {
    exists|i: int| 0 <= i < obs.edges.len() && bears_on(#[trigger] obs.edges[i], o, effect)
}

/// What keeps an obligation from being discharged, if anything.
pub open spec fn obligation_fault(
    obs: ObservationView,
    o: RelationObligationView,
    effect: Str,
    env: Seq<(Str, Str)>,
    matched: Seq<Str>,
) -> Option<Str> {
    if !some_edge(obs, o, effect) {
        Some("no `"@ + o.ty + "` edge leaves this effect"@)
    } else {
        edge_fault(obs, o, effect, env, matched, Seq::empty(), 0)
    }
}

/// The first obligation at or after position `i` that the observation does not discharge.
pub open spec fn unmet_from(
    os: Seq<RelationObligationView>,
    transition: Str,
    effect: Str,
    env: Seq<(Str, Str)>,
    obs: ObservationView,
    matched: Seq<Str>,
    i: int,
) -> Option<FailureView>
    decreases os.len() - i,
{
    if i < 0 || i >= os.len() {
        None
    } else {
        match obligation_fault(obs, os[i], effect, env, matched) {
            Some(detail) => Some(
                FailureView::ObligationUnmet {
                    transition,
                    relation: os[i].ty,
                    effect,
                    target: os[i].target,
                    detail,
                },
            ),
            None => unmet_from(os, transition, effect, env, obs, matched, i + 1),
        }
    }
}

fn find_binding_fault(
    o: &RelationObligation,
    env: &Env,
    target: &EffectInstance,
) -> (r: Option<String>)
    ensures
        r.deep_view() == binding_fault(
            o.bind.deep_view(),
            env.deep_view(),
            target.deep_view(),
            0,
        ),
{
    let ghost bind = o.bind.deep_view();
    let ghost ev = env.deep_view();
    let ghost tv = target.deep_view();
    let mut i: usize = 0;
    while i < o.bind.len()
        invariant
            i <= bind.len(),
            bind == o.bind.deep_view(),
            ev == env.deep_view(),
            tv == target.deep_view(),
            binding_fault(bind, ev, tv, 0) == binding_fault(bind, ev, tv, i as int),
        decreases bind.len() - i,
    {
        let key = o.bind.key_at(i);
        let raw = o.bind.value_at(i);
        assert(bind[i as int] == (key@, raw@));
        let expected: Option<String> = match classify(raw.as_str()) {
            Pattern::Var(name) => match env.get(name.as_str()) {
                Some(v) => Some(v.clone()),
                None => None,
            },
            Pattern::Lit(v) => Some(v),
            Pattern::Glob(p) => Some(p),
        };
        match expected {
            None => {
                return Some(cat3("`", raw.as_str(), "` is unbound at this point"));
            },
            Some(wanted) => {
                match target.args.get(key.as_str()) {
                    None => {
                        return Some(cat3("target carries no `", key.as_str(), "`"));
                    },
                    Some(actual) => {
                        if *actual != wanted {
                            return Some(
                                cat7(
                                    "binding mismatch: ",
                                    key.as_str(),
                                    " is ",
                                    actual.as_str(),
                                    " on the target but ",
                                    wanted.as_str(),
                                    " here",
                                ),
                            );
                        }
                    },
                }
            },
        }
        i = i + 1;
    }
    None
}

fn find_target_fault(
    o: &RelationObligation,
    env: &Env,
    target: &EffectInstance,
    matched: &StrSet,
) -> (r: Option<String>)
    ensures
        r.deep_view() == target_fault(
            o.deep_view(),
            env.deep_view(),
            target.deep_view(),
            matched.deep_view(),
        ),
{
    if target.kind != o.target {
        return Some(
            cat5(
                "edge points at `",
                target.kind.as_str(),
                "` but the obligation names `",
                o.target.as_str(),
                "`",
            ),
        );
    }
    if !matched.contains(target.id.as_str()) {
        return Some(
            cat3(
                "target `",
                target.id.as_str(),
                "` has no producing transition on any accepting path",
            ),
        );
    }
    find_binding_fault(o, env, target)
}

fn find_obligation_fault(
    obs: &Observation,
    o: &RelationObligation,
    effect: &str,
    env: &Env,
    matched: &StrSet,
) -> (r: Option<String>)
    ensures
        r.deep_view() == obligation_fault(
            obs.deep_view(),
            o.deep_view(),
            effect@,
            env.deep_view(),
            matched.deep_view(),
        ),
{
    let ghost ov = obs.deep_view();
    let ghost bv = o.deep_view();
    let ghost ev = env.deep_view();
    let ghost mv = matched.deep_view();
    let mut any = false;
    let mut detail = String::new();
    assert(detail@ =~= Seq::<char>::empty());
    let ghost goal = edge_fault(ov, bv, effect@, ev, mv, Seq::empty(), 0);
    let mut i: usize = 0;
    while i < obs.edges.len()
        invariant
            i <= obs.edges.len(),
            ov == obs.deep_view(),
            bv == o.deep_view(),
            ev == env.deep_view(),
            mv == matched.deep_view(),
            any == exists|j: int|
                0 <= j < i && bears_on(#[trigger] ov.edges[j], bv, effect@),
            goal == edge_fault(ov, bv, effect@, ev, mv, Seq::empty(), 0),
            goal == edge_fault(ov, bv, effect@, ev, mv, detail@, i as int),
        decreases obs.edges.len() - i,
    {
        let e = &obs.edges[i];
        assert(ov.edges[i as int] == e.deep_view());
        if same_text(e.ty.as_str(), o.ty.as_str()) && same_text(e.from.as_str(), effect) {
            any = true;
            match obs.effect(e.to.as_str()) {
                None => {},
                Some(target) => {
                    match find_target_fault(o, env, target, matched) {
                        None => {
                            return None;
                        },
                        Some(fault) => {
                            detail = fault;
                        },
                    }
                },
            }
        }
        i = i + 1;
    }
    if !any {
        return Some(cat3("no `", o.ty.as_str(), "` edge leaves this effect"));
    }
    Some(detail)
}

/// Holds the obligations of a template against the observation; an error names the first that
/// is not discharged.
pub fn check_obligations(
    template: &EffectTemplate,
    transition: &str,
    effect_id: &str,
    env: &Env,
    obs: &Observation,
    matched: &StrSet,
) -> (r: Result<(), Failure>)
    ensures
        match r {
            Ok(_) => unmet_from(
                template.deep_view().requires_relation,
                transition@,
                effect_id@,
                env.deep_view(),
                obs.deep_view(),
                matched.deep_view(),
                0,
            ) is None,
            Err(f) => unmet_from(
                template.deep_view().requires_relation,
                transition@,
                effect_id@,
                env.deep_view(),
                obs.deep_view(),
                matched.deep_view(),
                0,
            ) == Some(f.deep_view()),
        },
{
    let ghost os = template.requires_relation.deep_view();
    let ghost goal = unmet_from(
        os,
        transition@,
        effect_id@,
        env.deep_view(),
        obs.deep_view(),
        matched.deep_view(),
        0,
    );
    let mut i: usize = 0;
    while i < template.requires_relation.len()
        invariant
            i <= template.requires_relation.len(),
            os == template.requires_relation.deep_view(),
            goal == unmet_from(
                os,
                transition@,
                effect_id@,
                env.deep_view(),
                obs.deep_view(),
                matched.deep_view(),
                0,
            ),
            goal == unmet_from(
                os,
                transition@,
                effect_id@,
                env.deep_view(),
                obs.deep_view(),
                matched.deep_view(),
                i as int,
            ),
        decreases template.requires_relation.len() - i,
    {
        let o = &template.requires_relation[i];
        assert(os[i as int] == o.deep_view());
        match find_obligation_fault(obs, o, effect_id, env, matched) {
            Some(detail) => {
                return Err(
                    Failure::ObligationUnmet {
                        transition: transition.to_string(),
                        relation: o.ty.clone(),
                        effect: effect_id.to_string(),
                        target: o.target.clone(),
                        detail,
                    },
                );
            },
            None => {},
        }
        i = i + 1;
    }
    Ok(())
}

/// Whether some edge of the obligation's relation leads from the effect to one of the kind
/// that the obligation names.
pub open spec fn edge_present(
    obs: ObservationView,
    o: RelationObligationView,
    effect: Str,
) -> bool {
    exists|i: int|
        0 <= i < obs.edges.len() && bears_on(#[trigger] obs.edges[i], o, effect) && (effect_named(
            obs.records,
            obs.edges[i].to,
        ) matches Some(t) && t.kind == o.target)
}

/// Those of the first `n` obligations for which the observation has no edge at all.
pub open spec fn gaps_upto(
    os: Seq<RelationObligationView>,
    transition: Str,
    effect: Str,
    obs: ObservationView,
    n: int,
) -> Seq<FailureView>
    decreases n,
{
    if n <= 0 {
        Seq::empty()
    } else if edge_present(obs, os[n - 1], effect) {
        gaps_upto(os, transition, effect, obs, n - 1)
    } else {
        gaps_upto(os, transition, effect, obs, n - 1).push(
            FailureView::ObligationUnmet {
                transition,
                relation: os[n - 1].ty,
                effect,
                target: os[n - 1].target,
                detail: "the observation contains no `"@ + os[n - 1].ty
                    + "` edge from this effect to any `"@ + os[n - 1].target + "`"@,
            },
        )
    }
}

fn has_edge(obs: &Observation, o: &RelationObligation, effect: &str) -> (r: bool)
    ensures
        r == edge_present(obs.deep_view(), o.deep_view(), effect@),
{
    let ghost ov = obs.deep_view();
    let ghost bv = o.deep_view();
    let mut i: usize = 0;
    while i < obs.edges.len()
        invariant
            i <= obs.edges.len(),
            ov == obs.deep_view(),
            bv == o.deep_view(),
            forall|j: int|
                0 <= j < i ==> !(bears_on(#[trigger] ov.edges[j], bv, effect@) && (effect_named(
                    ov.records,
                    ov.edges[j].to,
                ) matches Some(t) && t.kind == bv.target)),
        decreases obs.edges.len() - i,
    {
        let e = &obs.edges[i];
        assert(ov.edges[i as int] == e.deep_view());
        if same_text(e.ty.as_str(), o.ty.as_str()) && same_text(e.from.as_str(), effect) {
            match obs.effect(e.to.as_str()) {
                Some(t) => {
                    if t.kind == o.target {
                        return true;
                    }
                },
                None => {},
            }
        }
        i = i + 1;
    }
    false
}

/// The obligations of a template for which the observation has no edge at all.
pub fn structural_gaps(
    template: &EffectTemplate,
    transition: &str,
    effect_id: &str,
    obs: &Observation,
) -> (r: Vec<Failure>)
    ensures
        r.deep_view() == gaps_upto(
            template.deep_view().requires_relation,
            transition@,
            effect_id@,
            obs.deep_view(),
            template.deep_view().requires_relation.len() as int,
        ),
{
    let ghost os = template.requires_relation.deep_view();
    let mut out: Vec<Failure> = empty_vec();
    let mut i: usize = 0;
    while i < template.requires_relation.len()
        invariant
            i <= template.requires_relation.len(),
            os == template.requires_relation.deep_view(),
            out.deep_view() == gaps_upto(os, transition@, effect_id@, obs.deep_view(), i as int),
        decreases template.requires_relation.len() - i,
    {
        let o = &template.requires_relation[i];
        assert(os[i as int] == o.deep_view());
        if !has_edge(obs, o, effect_id) {
            push_to(
                &mut out,
                Failure::ObligationUnmet {
                    transition: transition.to_string(),
                    relation: o.ty.clone(),
                    effect: effect_id.to_string(),
                    target: o.target.clone(),
                    detail: cat5(
                        "the observation contains no `",
                        o.ty.as_str(),
                        "` edge from this effect to any `",
                        o.target.as_str(),
                        "`",
                    ),
                },
            );
        }
        i = i + 1;
    }
    out
}

// ---------------------------------------------------------------------------
// Constraints
// ---------------------------------------------------------------------------
/// The two sides of a clause and whether it asks for equality; a clause without an operator
/// has none.
pub open spec fn clause_parts(clause: Str) -> Option<(Str, bool, Str)> {
    match cut(clause, "=="@) {
        Some(p) => Some((trimmed(p.0), true, trimmed(p.1))),
        None => match cut(clause, "!="@) {
            Some(p) => Some((trimmed(p.0), false, trimmed(p.1))),
            None => None,
        },
    }
}

/// Whether two sides compare as a clause asks; a side without a value never does.
pub open spec fn compares(a: Option<Str>, equal: bool, b: Option<Str>) -> bool {
    match (a, b) {
        (Some(x), Some(y)) => if equal {
            x == y
        } else {
            x != y
        },
        _ => false,
    }
}

/// What a side of a constraint stands for: an argument of either effect, or a literal.
pub open spec fn side_of(
    side: Str,
    from: EffectInstanceView,
    to: EffectInstanceView,
) -> Option<Str> {
    let s = trimmed(side);
    match without_prefix(s, "from."@) {
        Some(name) => lookup(from.args, name),
        None => match without_prefix(s, "to."@) {
            Some(name) => lookup(to.args, name),
            None => Some(stripped(s, '"')),
        },
    }
}

/// Whether a clause holds of an edge's two effects.
pub open spec fn clause_holds(
    clause: Str,
    from: EffectInstanceView,
    to: EffectInstanceView,
) -> bool {
    match clause_parts(clause) {
        Some(p) => compares(side_of(p.0, from, to), p.1, side_of(p.2, from, to)),
        None => true,
    }
}

/// Whether every clause of a constraint holds of an edge's two effects.
pub open spec fn constraint_holds(
    constraint: Str,
    from: EffectInstanceView,
    to: EffectInstanceView,
) -> bool {
    forall|i: int|
        0 <= i < pieces(constraint, "&&"@).len() ==> clause_holds(
            trimmed(#[trigger] pieces(constraint, "&&"@)[i]),
            from,
            to,
        )
}

fn split_clause(clause: &str) -> (r: Option<(String, bool, String)>)
    ensures
        match r {
            Some(p) => clause_parts(clause@) == Some((p.0@, p.1, p.2@)),
            None => clause_parts(clause@) is None,
        },
{
    match cut_text(clause, "==") {
        Some(p) => Some((trim_text(p.0.as_str()), true, trim_text(p.1.as_str()))),
        None => match cut_text(clause, "!=") {
            Some(p) => Some((trim_text(p.0.as_str()), false, trim_text(p.1.as_str()))),
            None => None,
        },
    }
}

fn sides_compare(a: &Option<String>, equal: bool, b: &Option<String>) -> (r: bool)
    ensures
        r == compares(a.deep_view(), equal, b.deep_view()),
{
    match (a, b) {
        (Some(x), Some(y)) => if equal {
            *x == *y
        } else {
            *x != *y
        },
        _ => false,
    }
}

fn side_value(side: &str, from: &EffectInstance, to: &EffectInstance) -> (r: Option<String>)
    ensures
        r.deep_view() == side_of(side@, from.deep_view(), to.deep_view()),
{
    let s = trim_text(side);
    match strip_prefix_text(s.as_str(), "from.") {
        Some(name) => match from.args.get(name.as_str()) {
            Some(v) => Some(v.clone()),
            None => None,
        },
        None => match strip_prefix_text(s.as_str(), "to.") {
            Some(name) => match to.args.get(name.as_str()) {
                Some(v) => Some(v.clone()),
                None => None,
            },
            None => Some(strip_char_text(s.as_str(), '"')),
        },
    }
}

fn eval_clause(clause: &str, from: &EffectInstance, to: &EffectInstance) -> (r: bool)
    ensures
        r == clause_holds(clause@, from.deep_view(), to.deep_view()),
{
    match split_clause(clause) {
        Some(p) => {
            let left = side_value(p.0.as_str(), from, to);
            let right = side_value(p.2.as_str(), from, to);
            sides_compare(&left, p.1, &right)
        },
        None => true,
    }
}

/// Whether every clause of a constraint holds of an edge's two effects.
pub fn eval_constraint(constraint: &str, from: &EffectInstance, to: &EffectInstance) -> (r: bool)
    ensures
        r == constraint_holds(constraint@, from.deep_view(), to.deep_view()),
{
    proof {
        reveal_strlit("&&");
    }
    let parts = split_text(constraint, "&&");
    let ghost ps = pieces(constraint@, "&&"@);
    let mut i: usize = 0;
    while i < parts.len()
        invariant
            i <= parts.len(),
            ps == parts.deep_view(),
            ps == pieces(constraint@, "&&"@),
            forall|j: int|
                0 <= j < i ==> clause_holds(
                    trimmed(#[trigger] ps[j]),
                    from.deep_view(),
                    to.deep_view(),
                ),
        decreases parts.len() - i,
    {
        let clause = trim_text(parts[i].as_str());
        assert(ps[i as int] == parts[i as int]@);
        if !eval_clause(clause.as_str(), from, to) {
            return false;
        }
        i = i + 1;
    }
    true
}

// ---------------------------------------------------------------------------
// Edges
// ---------------------------------------------------------------------------
/// What is wrong with an edge, if anything: its relation is not declared, it joins other kinds
/// of effects than declared, or the declared constraint does not hold.
pub open spec fn edge_failure(
    spec: SpecView,
    obs: ObservationView,
    e: ObservedEdgeView,
) -> Option<FailureView> {
    match lookup(spec.relations, e.ty) {
        None => Some(
            FailureView::EdgeIllTyped {
                relation: e.ty,
                from: e.from,
                to: e.to,
                detail: "relation is not declared by the specification"@,
            },
        ),
        Some(schema) => match (effect_named(obs.records, e.from), effect_named(obs.records, e.to)) {
            (Some(from), Some(to)) => if from.kind != schema.from || to.kind != schema.to {
                Some(
                    FailureView::EdgeIllTyped {
                        relation: e.ty,
                        from: e.from,
                        to: e.to,
                        detail: "declared as "@ + schema.from + " -> "@ + schema.to
                            + " but observed as "@ + from.kind + " -> "@ + to.kind,
                    },
                )
            } else if !constraint_holds(schema.constraint, from, to) {
                Some(
                    FailureView::ConstraintViolated {
                        relation: e.ty,
                        from: e.from,
                        to: e.to,
                        constraint: schema.constraint,
                    },
                )
            } else {
                None
            },
            _ => None,
        },
    }
}

/// What is wrong with the first `n` edges.
pub open spec fn edge_failures(spec: SpecView, obs: ObservationView, n: int) -> Seq<FailureView>
    decreases n,
{
    if n <= 0 {
        Seq::empty()
    } else {
        match edge_failure(spec, obs, obs.edges[n - 1]) {
            Some(f) => edge_failures(spec, obs, n - 1).push(f),
            None => edge_failures(spec, obs, n - 1),
        }
    }
}

/// Holds every observed edge against the declared relations.
pub fn check_edges(spec: &Spec, obs: &Observation) -> (r: Vec<Failure>)
    ensures
        r.deep_view() == edge_failures(
            spec.deep_view(),
            obs.deep_view(),
            obs.deep_view().edges.len() as int,
        ),
{
    let ghost sv = spec.deep_view();
    let ghost ov = obs.deep_view();
    let mut out: Vec<Failure> = empty_vec();
    let mut i: usize = 0;
    while i < obs.edges.len()
        invariant
            i <= obs.edges.len(),
            sv == spec.deep_view(),
            ov == obs.deep_view(),
            out.deep_view() == edge_failures(sv, ov, i as int),
        decreases obs.edges.len() - i,
    {
        let e = &obs.edges[i];
        assert(ov.edges[i as int] == e.deep_view());
        match spec.relations.get(e.ty.as_str()) {
            None => {
                push_to(
                    &mut out,
                    Failure::EdgeIllTyped {
                        relation: e.ty.clone(),
                        from: e.from.clone(),
                        to: e.to.clone(),
                        detail: "relation is not declared by the specification".to_string(),
                    },
                );
            },
            Some(schema) => {
                match (obs.effect(e.from.as_str()), obs.effect(e.to.as_str())) {
                    (Some(from), Some(to)) => {
                        if from.kind != schema.from || to.kind != schema.to {
                            let head = cat5(
                                "declared as ",
                                schema.from.as_str(),
                                " -> ",
                                schema.to.as_str(),
                                " but observed as ",
                            );
                            push_to(
                                &mut out,
                                Failure::EdgeIllTyped {
                                    relation: e.ty.clone(),
                                    from: e.from.clone(),
                                    to: e.to.clone(),
                                    detail: cat4(
                                        head.as_str(),
                                        from.kind.as_str(),
                                        " -> ",
                                        to.kind.as_str(),
                                    ),
                                },
                            );
                        } else if !eval_constraint(schema.constraint.as_str(), from, to) {
                            push_to(
                                &mut out,
                                Failure::ConstraintViolated {
                                    relation: e.ty.clone(),
                                    from: e.from.clone(),
                                    to: e.to.clone(),
                                    constraint: schema.constraint.clone(),
                                },
                            );
                        }
                    },
                    _ => {},
                }
            },
        }
        i = i + 1;
    }
    out
}

// ---------------------------------------------------------------------------
// Guards
// ---------------------------------------------------------------------------
/// What a side of a guard stands for: the value of a variable, or a literal.
pub open spec fn guard_side(side: Str, env: Seq<(Str, Str)>) -> Option<Str> {
    match classified(trimmed(side)) {
        PatternView::Var(name) => lookup(env, name),
        PatternView::Lit(v) => Some(stripped(v, '"')),
        PatternView::Glob(v) => Some(v),
    }
}

/// Whether a clause of a guard holds.
pub open spec fn guard_clause_holds(clause: Str, env: Seq<(Str, Str)>) -> bool {
    match clause_parts(clause) {
        Some(p) => compares(guard_side(p.0, env), p.1, guard_side(p.2, env)),
        None => true,
    }
}

/// Whether every clause of a guard holds.
pub open spec fn guard_holds(guard: Str, env: Seq<(Str, Str)>) -> bool {
    forall|i: int|
        0 <= i < pieces(guard, "&&"@).len() ==> guard_clause_holds(
            trimmed(#[trigger] pieces(guard, "&&"@)[i]),
            env,
        )
}

/// The literal on a side of a guard, if there is one.
pub open spec fn side_literals(side: Str) -> Seq<Str> {
    match classified(trimmed(side)) {
        PatternView::Var(_) => Seq::empty(),
        PatternView::Lit(v) => seq![stripped(v, '"')],
        PatternView::Glob(v) => seq![v],
    }
}

/// The literals of a clause of a guard.
pub open spec fn clause_literals(clause: Str) -> Seq<Str> {
    match clause_parts(clause) {
        Some(p) => side_literals(p.0) + side_literals(p.2),
        None => Seq::empty(),
    }
}

/// The literals of the first `n` clauses.
pub open spec fn literals_upto(clauses: Seq<Str>, n: int) -> Seq<Str>
    decreases n,
{
    if n <= 0 {
        Seq::empty()
    } else {
        literals_upto(clauses, n - 1) + clause_literals(trimmed(clauses[n - 1]))
    }
}

/// The literals of a guard.
pub open spec fn guard_literals(guard: Option<Str>) -> Seq<Str> {
    match guard {
        Some(g) => literals_upto(pieces(g, "&&"@), pieces(g, "&&"@).len() as int),
        None => Seq::empty(),
    }
}

fn side_literal(side: &str) -> (r: Vec<String>)
    ensures
        r.deep_view() == side_literals(side@),
{
    let mut out: Vec<String> = empty_vec();
    let s = trim_text(side);
    match classify(s.as_str()) {
        Pattern::Var(_) => {},
        Pattern::Lit(v) => {
            push_to(&mut out, strip_char_text(v.as_str(), '"'));
        },
        Pattern::Glob(v) => {
            push_to(&mut out, v);
        },
    }
    assert(out.deep_view() =~= side_literals(side@));
    out
}

/// The literals of a guard.
pub fn literals_of(guard: &Option<String>) -> (r: Vec<String>)
    ensures
        r.deep_view() == guard_literals(guard.deep_view()),
{
    let mut out: Vec<String> = empty_vec();
    match guard {
        Some(g) => {
            proof {
                reveal_strlit("&&");
            }
            let parts = split_text(g.as_str(), "&&");
            let ghost ps = pieces(g@, "&&"@);
            let mut i: usize = 0;
            while i < parts.len()
                invariant
                    i <= parts.len(),
                    ps == parts.deep_view(),
                    out.deep_view() == literals_upto(ps, i as int),
                decreases parts.len() - i,
            {
                let clause = trim_text(parts[i].as_str());
                assert(ps[i as int] == parts[i as int]@);
                match split_clause(clause.as_str()) {
                    Some(p) => {
                        append_to(&mut out, side_literal(p.0.as_str()));
                        append_to(&mut out, side_literal(p.2.as_str()));
                    },
                    None => {},
                }
                assert(out.deep_view() =~= literals_upto(ps, i + 1));
                i = i + 1;
            }
        },
        None => {},
    }
    out
}

fn guard_value(side: &str, env: &Env) -> (r: Option<String>)
    ensures
        r.deep_view() == guard_side(side@, env.deep_view()),
{
    let s = trim_text(side);
    match classify(s.as_str()) {
        Pattern::Var(name) => match env.get(name.as_str()) {
            Some(v) => Some(v.clone()),
            None => None,
        },
        Pattern::Lit(v) => Some(strip_char_text(v.as_str(), '"')),
        Pattern::Glob(v) => Some(v),
    }
}

/// Whether every clause of a guard holds.
pub fn eval_guard(guard: &str, env: &Env) -> (r: bool)
    ensures
        r == guard_holds(guard@, env.deep_view()),
{
    proof {
        reveal_strlit("&&");
    }
    let parts = split_text(guard, "&&");
    let ghost ps = pieces(guard@, "&&"@);
    let mut i: usize = 0;
    while i < parts.len()
        invariant
            i <= parts.len(),
            ps == parts.deep_view(),
            ps == pieces(guard@, "&&"@),
            forall|j: int|
                0 <= j < i ==> guard_clause_holds(trimmed(#[trigger] ps[j]), env.deep_view()),
        decreases parts.len() - i,
    {
        let clause = trim_text(parts[i].as_str());
        assert(ps[i as int] == parts[i as int]@);
        match split_clause(clause.as_str()) {
            Some(p) => {
                let left = guard_value(p.0.as_str(), env);
                let right = guard_value(p.2.as_str(), env);
                if !sides_compare(&left, p.1, &right) {
                    return false;
                }
            },
            None => {},
        }
        i = i + 1;
    }
    true
}

} // verus!
