//! The compiled net: places by position, tokens with the values that they carry, and the
//! firing rule.

use crate::index::{assigned, Table};
use crate::model::{
    BindMode, EffectTemplate, EffectTemplateView, PlaceView, Spec, SpecView, TokenSpec,
    TokenSpecView, TransitionView,
};
use crate::observation::{assignment_texts, assignments};
use crate::ordered::{
    empty_vec, keys_of, lookup, push_to, put, put_items, sort_texts, sorted_texts, Dup, Same,
    StrMap, StrSet,
};
use crate::text::{
    cat2, cat3, cat4, cat5, cat7, cat9, has_prefix, join, joined, same_text, starts_with_text, Str,
};
use vstd::prelude::*;

verus! {

/// Values of variables.
pub type Env = StrMap<String>;

/// A token, by the values that it carries.
pub type Token = StrMap<String>;

/// The tokens of each place.
pub type Marking = Vec<Vec<StrMap<String>>>;

/// A transition with its places by position.
#[derive(Debug)]
pub struct CompiledTransition {
    pub id: String,
    pub index: usize,
    pub principal: String,
    pub consumes: Vec<usize>,
    pub produces: Vec<usize>,
    pub binds: Vec<String>,
    pub attested: Vec<String>,
    pub guard: Option<String>,
    pub emits: Vec<EffectTemplate>,
}

/// What a [`CompiledTransition`] holds.
pub struct CompiledTransitionView {
    pub id: Str,
    pub index: usize,
    pub principal: Str,
    pub consumes: Seq<usize>,
    pub produces: Seq<usize>,
    pub binds: Seq<Str>,
    pub attested: Seq<Str>,
    pub guard: Option<Str>,
    pub emits: Seq<EffectTemplateView>,
}

impl DeepView for CompiledTransition {
    type V = CompiledTransitionView;

    open spec fn deep_view(&self) -> CompiledTransitionView {
        CompiledTransitionView {
            id: self.id.deep_view(),
            index: self.index,
            principal: self.principal.deep_view(),
            consumes: self.consumes.deep_view(),
            produces: self.produces.deep_view(),
            binds: self.binds.deep_view(),
            attested: self.attested.deep_view(),
            guard: self.guard.deep_view(),
            emits: self.emits.deep_view(),
        }
    }
}

impl Dup for CompiledTransition {
    fn dup(&self) -> (r: Self) {
        CompiledTransition {
            id: self.id.dup(),
            index: self.index,
            principal: self.principal.dup(),
            consumes: self.consumes.dup(),
            produces: self.produces.dup(),
            binds: self.binds.dup(),
            attested: self.attested.dup(),
            guard: self.guard.dup(),
            emits: self.emits.dup(),
        }
    }
}

/// A compiled specification, with the digests that presented certificates attest.
#[derive(Debug)]
pub struct Net {
    pub spec: Spec,
    pub place_names: Vec<String>,
    pub place_index: Table<usize>,
    pub place_carries: Vec<Vec<String>>,
    pub finals: Vec<usize>,
    pub initial: Marking,
    pub transitions: Vec<CompiledTransition>,
    pub evidence: StrSet,
}

/// What a [`Net`] holds.
pub struct NetView {
    pub spec: SpecView,
    pub place_names: Seq<Str>,
    pub place_index: Seq<(Str, usize)>,
    pub place_carries: Seq<Seq<Str>>,
    pub finals: Seq<usize>,
    pub initial: Seq<Seq<Seq<(Str, Str)>>>,
    pub transitions: Seq<CompiledTransitionView>,
    pub evidence: Seq<Str>,
}

impl DeepView for Net {
    type V = NetView;

    open spec fn deep_view(&self) -> NetView {
        NetView {
            spec: self.spec.deep_view(),
            place_names: self.place_names.deep_view(),
            place_index: self.place_index.deep_view(),
            place_carries: self.place_carries.deep_view(),
            finals: self.finals.deep_view(),
            initial: self.initial.deep_view(),
            transitions: self.transitions.deep_view(),
            evidence: self.evidence.deep_view(),
        }
    }
}

impl Dup for Net {
    fn dup(&self) -> (r: Self) {
        Net {
            spec: self.spec.dup(),
            place_names: self.place_names.dup(),
            place_index: self.place_index.dup(),
            place_carries: self.place_carries.dup(),
            finals: self.finals.dup(),
            initial: self.initial.dup(),
            transitions: self.transitions.dup(),
            evidence: self.evidence.dup(),
        }
    }
}

/// Why a step, an effect or an edge cannot be explained.
#[derive(Debug)]
pub enum Failure {
    UnknownStep { step: String },
    IdentityMismatch { step: String, principal: String, expected: String },
    NotEnabled { step: String, place: String },
    EffectShapeMismatch { step: String, detail: String },
    EffectArgMismatch { step: String, effect: String, arg: String, expected: String, observed: String },
    ObligationUnmet { transition: String, relation: String, effect: String, target: String, detail: String },
    UnmatchedEffect { effect: String, kind: String, detail: String },
    EdgeIllTyped { relation: String, from: String, to: String, detail: String },
    ConstraintViolated { relation: String, from: String, to: String, constraint: String },
    StepNotExplained { step: String, record: String },
    NoFinalMarking { detail: String },
    GuardFalse { transition: String, guard: String },
    NotAttested { transition: String, bind: String, value: String },
}

/// What a [`Failure`] holds.
pub enum FailureView {
    UnknownStep { step: Str },
    IdentityMismatch { step: Str, principal: Str, expected: Str },
    NotEnabled { step: Str, place: Str },
    EffectShapeMismatch { step: Str, detail: Str },
    EffectArgMismatch { step: Str, effect: Str, arg: Str, expected: Str, observed: Str },
    ObligationUnmet { transition: Str, relation: Str, effect: Str, target: Str, detail: Str },
    UnmatchedEffect { effect: Str, kind: Str, detail: Str },
    EdgeIllTyped { relation: Str, from: Str, to: Str, detail: Str },
    ConstraintViolated { relation: Str, from: Str, to: Str, constraint: Str },
    StepNotExplained { step: Str, record: Str },
    NoFinalMarking { detail: Str },
    GuardFalse { transition: Str, guard: Str },
    NotAttested { transition: Str, bind: Str, value: Str },
}

impl DeepView for Failure {
    type V = FailureView;

    open spec fn deep_view(&self) -> FailureView {
        match self {
            Failure::UnknownStep { step } => FailureView::UnknownStep {
                step: step.deep_view(),
            },
            Failure::IdentityMismatch { step, principal, expected } => FailureView::IdentityMismatch {
                step: step.deep_view(),
                principal: principal.deep_view(),
                expected: expected.deep_view(),
            },
            Failure::NotEnabled { step, place } => FailureView::NotEnabled {
                step: step.deep_view(),
                place: place.deep_view(),
            },
            Failure::EffectShapeMismatch { step, detail } => FailureView::EffectShapeMismatch {
                step: step.deep_view(),
                detail: detail.deep_view(),
            },
            Failure::EffectArgMismatch { step, effect, arg, expected, observed } => FailureView::EffectArgMismatch {
                step: step.deep_view(),
                effect: effect.deep_view(),
                arg: arg.deep_view(),
                expected: expected.deep_view(),
                observed: observed.deep_view(),
            },
            Failure::ObligationUnmet { transition, relation, effect, target, detail } => FailureView::ObligationUnmet {
                transition: transition.deep_view(),
                relation: relation.deep_view(),
                effect: effect.deep_view(),
                target: target.deep_view(),
                detail: detail.deep_view(),
            },
            Failure::UnmatchedEffect { effect, kind, detail } => FailureView::UnmatchedEffect {
                effect: effect.deep_view(),
                kind: kind.deep_view(),
                detail: detail.deep_view(),
            },
            Failure::EdgeIllTyped { relation, from, to, detail } => FailureView::EdgeIllTyped {
                relation: relation.deep_view(),
                from: from.deep_view(),
                to: to.deep_view(),
                detail: detail.deep_view(),
            },
            Failure::ConstraintViolated { relation, from, to, constraint } => FailureView::ConstraintViolated {
                relation: relation.deep_view(),
                from: from.deep_view(),
                to: to.deep_view(),
                constraint: constraint.deep_view(),
            },
            Failure::StepNotExplained { step, record } => FailureView::StepNotExplained {
                step: step.deep_view(),
                record: record.deep_view(),
            },
            Failure::NoFinalMarking { detail } => FailureView::NoFinalMarking {
                detail: detail.deep_view(),
            },
            Failure::GuardFalse { transition, guard } => FailureView::GuardFalse {
                transition: transition.deep_view(),
                guard: guard.deep_view(),
            },
            Failure::NotAttested { transition, bind, value } => FailureView::NotAttested {
                transition: transition.deep_view(),
                bind: bind.deep_view(),
                value: value.deep_view(),
            },
        }
    }
}

impl Dup for Failure {
    fn dup(&self) -> (r: Self) {
        match self {
            Failure::UnknownStep { step } => Failure::UnknownStep {
                step: step.dup(),
            },
            Failure::IdentityMismatch { step, principal, expected } => Failure::IdentityMismatch {
                step: step.dup(),
                principal: principal.dup(),
                expected: expected.dup(),
            },
            Failure::NotEnabled { step, place } => Failure::NotEnabled {
                step: step.dup(),
                place: place.dup(),
            },
            Failure::EffectShapeMismatch { step, detail } => Failure::EffectShapeMismatch {
                step: step.dup(),
                detail: detail.dup(),
            },
            Failure::EffectArgMismatch { step, effect, arg, expected, observed } => Failure::EffectArgMismatch {
                step: step.dup(),
                effect: effect.dup(),
                arg: arg.dup(),
                expected: expected.dup(),
                observed: observed.dup(),
            },
            Failure::ObligationUnmet { transition, relation, effect, target, detail } => Failure::ObligationUnmet {
                transition: transition.dup(),
                relation: relation.dup(),
                effect: effect.dup(),
                target: target.dup(),
                detail: detail.dup(),
            },
            Failure::UnmatchedEffect { effect, kind, detail } => Failure::UnmatchedEffect {
                effect: effect.dup(),
                kind: kind.dup(),
                detail: detail.dup(),
            },
            Failure::EdgeIllTyped { relation, from, to, detail } => Failure::EdgeIllTyped {
                relation: relation.dup(),
                from: from.dup(),
                to: to.dup(),
                detail: detail.dup(),
            },
            Failure::ConstraintViolated { relation, from, to, constraint } => Failure::ConstraintViolated {
                relation: relation.dup(),
                from: from.dup(),
                to: to.dup(),
                constraint: constraint.dup(),
            },
            Failure::StepNotExplained { step, record } => Failure::StepNotExplained {
                step: step.dup(),
                record: record.dup(),
            },
            Failure::NoFinalMarking { detail } => Failure::NoFinalMarking {
                detail: detail.dup(),
            },
            Failure::GuardFalse { transition, guard } => Failure::GuardFalse {
                transition: transition.dup(),
                guard: guard.dup(),
            },
            Failure::NotAttested { transition, bind, value } => Failure::NotAttested {
                transition: transition.dup(),
                bind: bind.dup(),
                value: value.dup(),
            },
        }
    }
}

impl Same for Failure {
    fn same(&self, other: &Self) -> (r: bool) {
        match (self, other) {
            (
                Failure::UnknownStep { step },
                Failure::UnknownStep { step: o_step },
            ) => {
                step.same(o_step)
            },
            (
                Failure::IdentityMismatch { step, principal, expected },
                Failure::IdentityMismatch { step: o_step, principal: o_principal, expected: o_expected },
            ) => {
                step.same(o_step) && principal.same(o_principal) && expected.same(o_expected)
            },
            (
                Failure::NotEnabled { step, place },
                Failure::NotEnabled { step: o_step, place: o_place },
            ) => {
                step.same(o_step) && place.same(o_place)
            },
            (
                Failure::EffectShapeMismatch { step, detail },
                Failure::EffectShapeMismatch { step: o_step, detail: o_detail },
            ) => {
                step.same(o_step) && detail.same(o_detail)
            },
            (
                Failure::EffectArgMismatch { step, effect, arg, expected, observed },
                Failure::EffectArgMismatch { step: o_step, effect: o_effect, arg: o_arg, expected: o_expected, observed: o_observed },
            ) => {
                step.same(o_step) && effect.same(o_effect) && arg.same(o_arg) && expected.same(o_expected) && observed.same(o_observed)
            },
            (
                Failure::ObligationUnmet { transition, relation, effect, target, detail },
                Failure::ObligationUnmet { transition: o_transition, relation: o_relation, effect: o_effect, target: o_target, detail: o_detail },
            ) => {
                transition.same(o_transition) && relation.same(o_relation) && effect.same(o_effect) && target.same(o_target) && detail.same(o_detail)
            },
            (
                Failure::UnmatchedEffect { effect, kind, detail },
                Failure::UnmatchedEffect { effect: o_effect, kind: o_kind, detail: o_detail },
            ) => {
                effect.same(o_effect) && kind.same(o_kind) && detail.same(o_detail)
            },
            (
                Failure::EdgeIllTyped { relation, from, to, detail },
                Failure::EdgeIllTyped { relation: o_relation, from: o_from, to: o_to, detail: o_detail },
            ) => {
                relation.same(o_relation) && from.same(o_from) && to.same(o_to) && detail.same(o_detail)
            },
            (
                Failure::ConstraintViolated { relation, from, to, constraint },
                Failure::ConstraintViolated { relation: o_relation, from: o_from, to: o_to, constraint: o_constraint },
            ) => {
                relation.same(o_relation) && from.same(o_from) && to.same(o_to) && constraint.same(o_constraint)
            },
            (
                Failure::StepNotExplained { step, record },
                Failure::StepNotExplained { step: o_step, record: o_record },
            ) => {
                step.same(o_step) && record.same(o_record)
            },
            (
                Failure::NoFinalMarking { detail },
                Failure::NoFinalMarking { detail: o_detail },
            ) => {
                detail.same(o_detail)
            },
            (
                Failure::GuardFalse { transition, guard },
                Failure::GuardFalse { transition: o_transition, guard: o_guard },
            ) => {
                transition.same(o_transition) && guard.same(o_guard)
            },
            (
                Failure::NotAttested { transition, bind, value },
                Failure::NotAttested { transition: o_transition, bind: o_bind, value: o_value },
            ) => {
                transition.same(o_transition) && bind.same(o_bind) && value.same(o_value)
            },
            _ => false,
        }
    }
}

// ---------------------------------------------------------------------------
// Rendering
// ---------------------------------------------------------------------------
/// A failure as a reader sees it.
pub open spec fn failure_text(f: FailureView) -> Str {
    match f {
        FailureView::UnknownStep { step } => "step `"@ + step
            + "` is not a transition of this workflow"@,
        FailureView::IdentityMismatch { step, principal, expected } => "`"@ + step
            + "` was performed by `"@ + principal + "` but the transition admits only `"@ + expected
            + "`"@,
        FailureView::NotEnabled { step, place } => "`"@ + step
            + "` is not enabled: no token available in place `"@ + place + "`"@,
        FailureView::EffectShapeMismatch { step, detail } => "`"@ + step
            + "` emitted effects the schema does not permit: "@ + detail,
        FailureView::EffectArgMismatch { step, effect, arg, expected, observed } => "`"@ + step
            + "` emitted "@ + effect + " with "@ + arg + "="@ + observed
            + " where the schema requires "@ + expected,
        FailureView::ObligationUnmet { transition, relation, effect, target, detail } => (
        "transition `"@ + transition + "` requires "@ + relation + "("@ + effect + " -> "@ + target)
            + ") which the observation does not contain: "@ + detail,
        FailureView::UnmatchedEffect { effect, kind, detail } => kind + " `"@ + effect
            + "` has no producing transition: "@ + detail,
        FailureView::EdgeIllTyped { relation, from, to, detail } => "edge "@ + relation + "("@
            + from + " -> "@ + to + ") is ill-typed: "@ + detail,
        FailureView::ConstraintViolated { relation, from, to, constraint } => "edge "@ + relation
            + "("@ + from + " -> "@ + to + ") violates the declared constraint `"@ + constraint
            + "`"@,
        FailureView::StepNotExplained { step, record } =>
            "no accepting path of the workflow explains record `"@ + record + "` (`"@ + step + "`)"@,
        FailureView::NoFinalMarking { detail } => "no accepting path reaches a final marking: "@
            + detail,
        FailureView::GuardFalse { transition, guard } => "guard `"@ + guard + "` on transition `"@
            + transition + "` is false"@,
        FailureView::NotAttested { transition, bind, value } => "transition `"@ + transition
            + "` takes "@ + bind + " = "@ + value
            + " from earlier evidence, but no presented certificate attests it"@,
    }
}

impl Failure {
    /// The failure as a reader sees it.
    pub fn render(&self) -> (r: String)
        ensures
            r@ == failure_text(self.deep_view()),
    {
        match self {
            Failure::UnknownStep { step } => cat3(
                "step `",
                step.as_str(),
                "` is not a transition of this workflow",
            ),
            Failure::IdentityMismatch { step, principal, expected } => cat7(
                "`",
                step.as_str(),
                "` was performed by `",
                principal.as_str(),
                "` but the transition admits only `",
                expected.as_str(),
                "`",
            ),
            Failure::NotEnabled { step, place } => cat5(
                "`",
                step.as_str(),
                "` is not enabled: no token available in place `",
                place.as_str(),
                "`",
            ),
            Failure::EffectShapeMismatch { step, detail } => cat4(
                "`",
                step.as_str(),
                "` emitted effects the schema does not permit: ",
                detail.as_str(),
            ),
            Failure::EffectArgMismatch { step, effect, arg, expected, observed } => {
                let head = cat9(
                    "`",
                    step.as_str(),
                    "` emitted ",
                    effect.as_str(),
                    " with ",
                    arg.as_str(),
                    "=",
                    observed.as_str(),
                    " where the schema requires ",
                );
                cat2(head.as_str(), expected.as_str())
            },
            Failure::ObligationUnmet { transition, relation, effect, target, detail } => {
                let head = cat7(
                    "transition `",
                    transition.as_str(),
                    "` requires ",
                    relation.as_str(),
                    "(",
                    effect.as_str(),
                    " -> ",
                );
                cat4(
                    head.as_str(),
                    target.as_str(),
                    ") which the observation does not contain: ",
                    detail.as_str(),
                )
            },
            Failure::UnmatchedEffect { effect, kind, detail } => cat5(
                kind.as_str(),
                " `",
                effect.as_str(),
                "` has no producing transition: ",
                detail.as_str(),
            ),
            Failure::EdgeIllTyped { relation, from, to, detail } => {
                let head = cat7(
                    "edge ",
                    relation.as_str(),
                    "(",
                    from.as_str(),
                    " -> ",
                    to.as_str(),
                    ") is ill-typed: ",
                );
                cat2(head.as_str(), detail.as_str())
            },
            Failure::ConstraintViolated { relation, from, to, constraint } => cat9(
                "edge ",
                relation.as_str(),
                "(",
                from.as_str(),
                " -> ",
                to.as_str(),
                ") violates the declared constraint `",
                constraint.as_str(),
                "`",
            ),
            Failure::StepNotExplained { step, record } => cat5(
                "no accepting path of the workflow explains record `",
                record.as_str(),
                "` (`",
                step.as_str(),
                "`)",
            ),
            Failure::NoFinalMarking { detail } => cat2(
                "no accepting path reaches a final marking: ",
                detail.as_str(),
            ),
            Failure::GuardFalse { transition, guard } => cat5(
                "guard `",
                guard.as_str(),
                "` on transition `",
                transition.as_str(),
                "` is false",
            ),
            Failure::NotAttested { transition, bind, value } => cat7(
                "transition `",
                transition.as_str(),
                "` takes ",
                bind.as_str(),
                " = ",
                value.as_str(),
                " from earlier evidence, but no presented certificate attests it",
            ),
        }
    }
}

// ---------------------------------------------------------------------------
// Compilation
// ---------------------------------------------------------------------------
/// The position of each of the first `n` places; of two with one id, the later.
pub open spec fn index_upto(ps: Seq<PlaceView>, n: int) -> Seq<(Str, usize)>
    decreases n,
{
    if n <= 0 {
        Seq::empty()
    } else {
        assigned(index_upto(ps, n - 1), ps[n - 1].id, (n - 1) as usize)
    }
}

/// The positions of those of the first `n` names that are places.
pub open spec fn positions(index: Seq<(Str, usize)>, names: Seq<Str>, n: int) -> Seq<usize>
    decreases n,
{
    if n <= 0 {
        Seq::empty()
    } else {
        match lookup(index, names[n - 1]) {
            Some(p) => positions(index, names, n - 1).push(p),
            None => positions(index, names, n - 1),
        }
    }
}

/// An initial token.
pub open spec fn initial_token(t: TokenSpecView) -> Seq<(Str, Str)> {
    put(put(Seq::empty(), "_type"@, t.ty), "_value"@, t.value)
}

/// The initial tokens of a place.
pub open spec fn initial_tokens(ts: Seq<TokenSpecView>) -> Seq<Seq<(Str, Str)>> {
    Seq::new(ts.len(), |i: int| initial_token(ts[i]))
}

/// The names of those of the first `n` bound variables that need a certificate.
pub open spec fn attested_upto(binds: Seq<(Str, BindMode)>, n: int) -> Seq<Str>
    decreases n,
{
    if n <= 0 {
        Seq::empty()
    } else if binds[n - 1].1 == BindMode::Attested {
        attested_upto(binds, n - 1).push(binds[n - 1].0)
    } else {
        attested_upto(binds, n - 1)
    }
}

pub open spec fn compiled_transition(
    index: Seq<(Str, usize)>,
    t: TransitionView,
    i: int,
) -> CompiledTransitionView {
    CompiledTransitionView {
        id: t.id,
        index: i as usize,
        principal: t.principal,
        consumes: positions(index, t.consumes, t.consumes.len() as int),
        produces: positions(index, t.produces, t.produces.len() as int),
        binds: keys_of(t.binds),
        attested: attested_upto(t.binds, t.binds.len() as int),
        guard: t.guard,
        emits: t.emits,
    }
}

/// The net of a specification.
pub open spec fn compiled(spec: SpecView) -> NetView {
    let index = index_upto(spec.places, spec.places.len() as int);
    NetView {
        spec,
        place_names: Seq::new(spec.places.len(), |i: int| spec.places[i].id),
        place_index: index,
        place_carries: Seq::new(spec.places.len(), |i: int| spec.places[i].carries),
        finals: positions(index, spec.final_places, spec.final_places.len() as int),
        initial: Seq::new(spec.places.len(), |i: int| initial_tokens(spec.places[i].tokens)),
        transitions: Seq::new(
            spec.transitions.len(),
            |i: int| compiled_transition(index, spec.transitions[i], i),
        ),
        evidence: Seq::empty(),
    }
}

/// Whether every position in `ps` is one of `n` places.
pub open spec fn within(ps: Seq<usize>, n: int) -> bool {
    forall|i: int| 0 <= i < ps.len() ==> #[trigger] ps[i] < n
}

/// Whether a transition speaks only of the first `n` places.
pub open spec fn transition_ok(t: CompiledTransitionView, n: int) -> bool {
    within(t.consumes, n) && within(t.produces, n)
}

/// Whether a net speaks only of its own places.
pub open spec fn net_ok(net: NetView) -> bool {
    let n = net.place_names.len() as int;
    &&& net.place_carries.len() == n
    &&& net.initial.len() == n
    &&& within(net.finals, n)
    &&& forall|i: int| 0 <= i < net.transitions.len() ==> transition_ok(
        #[trigger] net.transitions[i],
        n,
    )
}

/// The first transition at or after position `i` with the id `id`.
pub open spec fn compiled_from(
    ts: Seq<CompiledTransitionView>,
    id: Str,
    i: int,
) -> Option<CompiledTransitionView>
    decreases ts.len() - i,
{
    if i < 0 || i >= ts.len() {
        None
    } else if ts[i].id == id {
        Some(ts[i])
    } else {
        compiled_from(ts, id, i + 1)
    }
}

pub proof fn lemma_compiled_from(ts: Seq<CompiledTransitionView>, id: Str, i: int)
    requires
        0 <= i,
    ensures
        compiled_from(ts, id, i) matches Some(t) ==> t.id == id && exists|j: int|
            i <= j < ts.len() && #[trigger] ts[j] == t,
    decreases ts.len() - i,
{
    if i < ts.len() && ts[i].id != id {
        lemma_compiled_from(ts, id, i + 1);
    }
}

proof fn lemma_assigned_values(m: Seq<(Str, usize)>, k: Str, v: usize, n: int)
    requires
        v < n,
        forall|i: int| 0 <= i < m.len() ==> (#[trigger] m[i]).1 < n,
    ensures
        forall|i: int| 0 <= i < assigned(m, k, v).len() ==> (#[trigger] assigned(m, k, v)[i]).1 < n,
    decreases m.len(),
{
    if m.len() > 0 && m[0].0 != k {
        let d = m.drop_first();
        assert forall|i: int| 0 <= i < d.len() implies (#[trigger] d[i]).1 < n by {
            assert(d[i] == m[i + 1]);
        }
        lemma_assigned_values(d, k, v, n);
        let a = assigned(m, k, v);
        assert forall|i: int| 0 <= i < a.len() implies (#[trigger] a[i]).1 < n by {
            if i > 0 {
                assert(a[i] == assigned(d, k, v)[i - 1]);
            } else {
                assert(a[0] == m[0]);
            }
        }
    } else if m.len() > 0 {
        let a = assigned(m, k, v);
        assert forall|i: int| 0 <= i < a.len() implies (#[trigger] a[i]).1 < n by {
            if i > 0 {
                assert(a[i] == m[i]);
            }
        }
    }
}

proof fn lemma_index_within(ps: Seq<PlaceView>, n: int)
    requires
        0 <= n <= ps.len() <= usize::MAX,
    ensures
        forall|i: int| 0 <= i < index_upto(ps, n).len() ==> (#[trigger] index_upto(ps, n)[i]).1 < n,
    decreases n,
{
    if n > 0 {
        lemma_index_within(ps, n - 1);
        lemma_assigned_values(index_upto(ps, n - 1), ps[n - 1].id, (n - 1) as usize, n);
    }
}

proof fn lemma_lookup_within(m: Seq<(Str, usize)>, k: Str, n: int)
    requires
        forall|i: int| 0 <= i < m.len() ==> (#[trigger] m[i]).1 < n,
    ensures
        lookup(m, k) matches Some(v) ==> v < n,
    decreases m.len(),
{
    if m.len() > 0 && m[0].0 != k {
        let d = m.drop_first();
        assert forall|i: int| 0 <= i < d.len() implies (#[trigger] d[i]).1 < n by {
            assert(d[i] == m[i + 1]);
        }
        lemma_lookup_within(d, k, n);
    }
}

proof fn lemma_positions_within(m: Seq<(Str, usize)>, names: Seq<Str>, k: int, n: int)
    requires
        forall|i: int| 0 <= i < m.len() ==> (#[trigger] m[i]).1 < n,
    ensures
        within(positions(m, names, k), n),
    decreases k,
{
    if k > 0 {
        lemma_positions_within(m, names, k - 1, n);
        lemma_lookup_within(m, names[k - 1], n);
    }
}

/// The net of a specification speaks only of its own places.
pub proof fn lemma_compiled_ok(spec: SpecView)
    requires
        spec.places.len() <= usize::MAX,
    ensures
        net_ok(compiled(spec)),
{
    let n = spec.places.len() as int;
    let index = index_upto(spec.places, n);
    lemma_index_within(spec.places, n);
    lemma_positions_within(index, spec.final_places, spec.final_places.len() as int, n);
    assert forall|i: int| 0 <= i < spec.transitions.len() implies transition_ok(
        #[trigger] compiled(spec).transitions[i],
        n,
    ) by {
        let t = spec.transitions[i];
        lemma_positions_within(index, t.consumes, t.consumes.len() as int, n);
        lemma_positions_within(index, t.produces, t.produces.len() as int, n);
    }
}

fn find_positions(index: &Table<usize>, names: &Vec<String>) -> (r: Vec<usize>)
    ensures
        r.deep_view() == positions(index.deep_view(), names.deep_view(), names.len() as int),
{
    let mut out: Vec<usize> = empty_vec();
    let mut i: usize = 0;
    while i < names.len()
        invariant
            i <= names.len(),
            out.deep_view() == positions(index.deep_view(), names.deep_view(), i as int),
        decreases names.len() - i,
    {
        match index.get(names[i].as_str()) {
            Some(p) => {
                push_to(&mut out, *p);
            },
            None => {},
        }
        i = i + 1;
    }
    out
}

fn make_tokens(ts: &Vec<TokenSpec>) -> (r: Vec<Token>)
    ensures
        r.deep_view() == initial_tokens(ts.deep_view()),
{
    let mut out: Vec<Token> = empty_vec();
    let mut i: usize = 0;
    while i < ts.len()
        invariant
            i <= ts.len(),
            out.deep_view() =~= initial_tokens(ts.deep_view()).take(i as int),
        decreases ts.len() - i,
    {
        let mut token: Token = StrMap::new();
        token.insert("_type".to_string(), ts[i].ty.clone());
        token.insert("_value".to_string(), ts[i].value.clone());
        assert(token.deep_view() == initial_token(ts.deep_view()[i as int]));
        push_to(&mut out, token);
        i = i + 1;
    }
    assert(initial_tokens(ts.deep_view()).take(i as int) =~= initial_tokens(ts.deep_view()));
    out
}

fn table_keys(t: &Table<BindMode>) -> (r: Vec<String>)
    ensures
        r.deep_view() == keys_of(t.deep_view()),
{
    let mut out: Vec<String> = empty_vec();
    let mut i: usize = 0;
    while i < t.len()
        invariant
            i <= t.deep_view().len(),
            out.deep_view() =~= keys_of(t.deep_view()).take(i as int),
        decreases t.deep_view().len() - i,
    {
        push_to(&mut out, t.key_at(i).clone());
        i = i + 1;
    }
    assert(keys_of(t.deep_view()).take(i as int) =~= keys_of(t.deep_view()));
    out
}

fn attested_keys(t: &Table<BindMode>) -> (r: Vec<String>)
    ensures
        r.deep_view() == attested_upto(t.deep_view(), t.deep_view().len() as int),
{
    let mut out: Vec<String> = empty_vec();
    let mut i: usize = 0;
    while i < t.len()
        invariant
            i <= t.deep_view().len(),
            out.deep_view() == attested_upto(t.deep_view(), i as int),
        decreases t.deep_view().len() - i,
    {
        if *t.value_at(i) == BindMode::Attested {
            push_to(&mut out, t.key_at(i).clone());
        }
        i = i + 1;
    }
    out
}

impl Net {
    /// The net of a specification.
    pub fn compile(spec: &Spec) -> (net: Net)
        ensures
            net.deep_view() == compiled(spec.deep_view()),
            net_ok(net.deep_view()),
    {
        let ghost sv = spec.deep_view();
        let mut place_index: Table<usize> = Table::new();
        let mut place_names: Vec<String> = empty_vec();
        let mut place_carries: Vec<Vec<String>> = empty_vec();
        let mut initial: Marking = empty_vec();
        let mut i: usize = 0;
        while i < spec.places.len()
            invariant
                i <= spec.places.len(),
                sv == spec.deep_view(),
                place_index.deep_view() == index_upto(sv.places, i as int),
                place_names.deep_view() =~= compiled(sv).place_names.take(i as int),
                place_carries.deep_view() =~= compiled(sv).place_carries.take(i as int),
                initial.deep_view() =~= compiled(sv).initial.take(i as int),
            decreases spec.places.len() - i,
        {
            let p = &spec.places[i];
            assert(sv.places[i as int] == p.deep_view());
            place_index.insert(p.id.clone(), i);
            push_to(&mut place_names, p.id.clone());
            push_to(&mut place_carries, p.carries.dup());
            push_to(&mut initial, make_tokens(&p.tokens));
            i = i + 1;
        }
        let finals = find_positions(&place_index, &spec.final_places);
        let mut transitions: Vec<CompiledTransition> = empty_vec();
        let mut k: usize = 0;
        while k < spec.transitions.len()
            invariant
                k <= spec.transitions.len(),
                sv == spec.deep_view(),
                place_index.deep_view() == index_upto(sv.places, sv.places.len() as int),
                transitions.deep_view() =~= compiled(sv).transitions.take(k as int),
            decreases spec.transitions.len() - k,
        {
            let t = &spec.transitions[k];
            assert(sv.transitions[k as int] == t.deep_view());
            push_to(
                &mut transitions,
                CompiledTransition {
                    id: t.id.clone(),
                    index: k,
                    principal: t.principal.clone(),
                    consumes: find_positions(&place_index, &t.consumes),
                    produces: find_positions(&place_index, &t.produces),
                    binds: table_keys(&t.binds),
                    attested: attested_keys(&t.binds),
                    guard: t.guard.dup(),
                    emits: t.emits.dup(),
                },
            );
            k = k + 1;
        }
        proof {
            lemma_compiled_ok(sv);
            assert(compiled(sv).place_names.take(i as int) =~= compiled(sv).place_names);
            assert(compiled(sv).place_carries.take(i as int) =~= compiled(sv).place_carries);
            assert(compiled(sv).initial.take(i as int) =~= compiled(sv).initial);
            assert(compiled(sv).transitions.take(k as int) =~= compiled(sv).transitions);
        }
        Net {
            spec: spec.dup(),
            place_names,
            place_index,
            place_carries,
            finals,
            initial,
            transitions,
            evidence: StrSet::new(),
        }
    }

    /// Adds the digests that presented certificates attest.
    pub fn present_evidence(&mut self, digests: &Vec<String>)
        ensures
            final(self).deep_view() == (NetView {
                evidence: put_items(old(self).deep_view().evidence, digests.deep_view()),
                ..old(self).deep_view()
            }),
    {
        self.evidence.insert_all(digests);
    }

    /// The first transition with the given id.
    pub fn transition_by_id(&self, id: &str) -> (r: Option<&CompiledTransition>)
        ensures
            match r {
                Some(t) => compiled_from(self.deep_view().transitions, id@, 0) == Some(
                    t.deep_view(),
                ),
                None => compiled_from(self.deep_view().transitions, id@, 0) is None,
            },
    {
        let mut i: usize = 0;
        while i < self.transitions.len()
            invariant
                i <= self.transitions.len(),
                compiled_from(self.transitions.deep_view(), id@, 0) == compiled_from(
                    self.transitions.deep_view(),
                    id@,
                    i as int,
                ),
            decreases self.transitions.len() - i,
        {
            if same_text(self.transitions[i].id.as_str(), id) {
                return Some(&self.transitions[i]);
            }
            i = i + 1;
        }
        None
    }
}

// ---------------------------------------------------------------------------
// Enabling
// ---------------------------------------------------------------------------
/// How often `p` occurs among the first `n` of `ps`.
pub open spec fn occurrences(ps: Seq<usize>, p: int, n: int) -> nat
    decreases n,
{
    if n <= 0 {
        0
    } else if ps[n - 1] == p {
        occurrences(ps, p, n - 1) + 1
    } else {
        occurrences(ps, p, n - 1)
    }
}

/// The first place at or after `p` that holds fewer tokens than the transition takes from it.
pub open spec fn lacking_from(
    m: Seq<Seq<Seq<(Str, Str)>>>,
    consumes: Seq<usize>,
    p: int,
) -> Option<int>
    decreases m.len() - p,
{
    if p < 0 || p >= m.len() {
        None
    } else if m[p].len() < occurrences(consumes, p, consumes.len() as int) {
        Some(p)
    } else {
        lacking_from(m, consumes, p + 1)
    }
}

fn count_of(ps: &Vec<usize>, p: usize) -> (n: usize)
    ensures
        n == occurrences(ps.deep_view(), p as int, ps.len() as int),
        n <= ps.len(),
{
    let mut n: usize = 0;
    let mut i: usize = 0;
    while i < ps.len()
        invariant
            i <= ps.len(),
            n <= i,
            n == occurrences(ps.deep_view(), p as int, i as int),
        decreases ps.len() - i,
    {
        if ps[i] == p {
            n = n + 1;
        }
        i = i + 1;
    }
    n
}

impl Net {
    /// The name of the first place that lacks tokens for `t` to fire.
    pub fn missing_place(&self, marking: &Marking, t: &CompiledTransition) -> (r: Option<String>)
        requires
            marking.len() == self.place_names.len(),
        ensures
            r.deep_view() == (match lacking_from(
                marking.deep_view(),
                t.deep_view().consumes,
                0,
            ) {
                Some(p) => Some(self.deep_view().place_names[p]),
                None => None::<Str>,
            }),
    {
        let ghost m = marking.deep_view();
        let ghost cs = t.consumes.deep_view();
        let mut p: usize = 0;
        while p < marking.len()
            invariant
                p <= marking.len(),
                marking.len() == self.place_names.len(),
                m == marking.deep_view(),
                cs == t.consumes.deep_view(),
                lacking_from(m, cs, 0) == lacking_from(m, cs, p as int),
            decreases marking.len() - p,
        {
            if marking[p].len() < count_of(&t.consumes, p) {
                return Some(self.place_names[p].clone());
            }
            p = p + 1;
        }
        None
    }
}

// ---------------------------------------------------------------------------
// Choices of tokens
// ---------------------------------------------------------------------------
/// Whether token `k` of place `p` is one that the slots of `chosen` take.
pub open spec fn taken(consumes: Seq<usize>, chosen: Seq<usize>, p: int, k: int) -> bool {
    exists|s: int|
        0 <= s < chosen.len() && s < consumes.len() && consumes[s] == p && #[trigger] chosen[s] == k
}

/// Every way to extend `chosen` to a choice of one token for each slot, no token twice, in
/// dictionary order.
pub open spec fn all_choices(
    m: Seq<Seq<Seq<(Str, Str)>>>,
    consumes: Seq<usize>,
    chosen: Seq<usize>,
) -> Seq<Seq<usize>>
    decreases consumes.len() - chosen.len(), m[consumes[chosen.len() as int] as int].len() + 1,
{
    if chosen.len() >= consumes.len() {
        seq![chosen]
    } else {
        choices_upto(m, consumes, chosen, m[consumes[chosen.len() as int] as int].len() as int)
    }
}

/// Those extensions of `chosen` whose next slot takes one of the first `n` tokens of its place.
pub open spec fn choices_upto(
    m: Seq<Seq<Seq<(Str, Str)>>>,
    consumes: Seq<usize>,
    chosen: Seq<usize>,
    n: int,
) -> Seq<Seq<usize>>
    decreases consumes.len() - chosen.len(), n,
{
    if n <= 0 || chosen.len() >= consumes.len() {
        Seq::empty()
    } else if taken(consumes, chosen, consumes[chosen.len() as int] as int, n - 1) {
        choices_upto(m, consumes, chosen, n - 1)
    } else {
        choices_upto(m, consumes, chosen, n - 1) + all_choices(
            m,
            consumes,
            chosen.push((n - 1) as usize),
        )
    }
}

/// How many choices are looked at.
pub const CHOICE_LIMIT: usize = 512;

/// The first choices, no more than `limit`.
pub open spec fn first_choices(cs: Seq<Seq<usize>>, limit: nat) -> Seq<Seq<usize>> {
    if cs.len() <= limit {
        cs
    } else {
        cs.take(limit as int)
    }
}

/// The first choices, as many as are looked at.
pub open spec fn capped(cs: Seq<Seq<usize>>) -> Seq<Seq<usize>> {
    first_choices(cs, CHOICE_LIMIT as nat)
}

/// Whether there are more choices than are looked at.
pub open spec fn too_many_choices(
    m: Seq<Seq<Seq<(Str, Str)>>>,
    t: CompiledTransitionView,
) -> bool {
    all_choices(m, t.consumes, Seq::empty()).len() > CHOICE_LIMIT
}

/// Whether `choice` takes one token for each slot and no token twice.
pub open spec fn valid_choice(
    m: Seq<Seq<Seq<(Str, Str)>>>,
    consumes: Seq<usize>,
    choice: Seq<usize>,
) -> bool {
    &&& choice.len() == consumes.len()
    &&& forall|s: int| 0 <= s < choice.len() ==> #[trigger] choice[s] < m[consumes[s] as int].len()
    &&& forall|s: int, u: int|
        0 <= s < u < choice.len() && consumes[s] == consumes[u] ==> #[trigger] choice[s]
            != #[trigger] choice[u]
}

/// Whether `chosen` takes tokens that are there, none of them twice, for the first slots.
pub open spec fn valid_prefix(
    m: Seq<Seq<Seq<(Str, Str)>>>,
    consumes: Seq<usize>,
    chosen: Seq<usize>,
) -> bool {
    &&& chosen.len() <= consumes.len()
    &&& forall|s: int| 0 <= s < chosen.len() ==> #[trigger] chosen[s] < m[consumes[s] as int].len()
    &&& forall|s: int, u: int|
        0 <= s < u < chosen.len() && consumes[s] == consumes[u] ==> #[trigger] chosen[s]
            != #[trigger] chosen[u]
}

/// Whether `choice` names a token that is there for each slot.
pub open spec fn tokens_there(
    m: Seq<Seq<Seq<(Str, Str)>>>,
    consumes: Seq<usize>,
    choice: Seq<usize>,
) -> bool {
    &&& choice.len() >= consumes.len()
    &&& forall|s: int|
        0 <= s < consumes.len() ==> #[trigger] choice[s] < m[consumes[s] as int].len()
}

proof fn lemma_first_choices(a: Seq<Seq<usize>>, b: Seq<Seq<usize>>, limit: nat)
    ensures
        first_choices(first_choices(a, limit) + b, limit) == first_choices(a + b, limit),
{
    assert(first_choices(first_choices(a, limit) + b, limit) =~= first_choices(a + b, limit));
}

/// The choices that extend `chosen` are the valid choices that begin with it.
pub proof fn lemma_all_choices(
    m: Seq<Seq<Seq<(Str, Str)>>>,
    consumes: Seq<usize>,
    chosen: Seq<usize>,
    c: Seq<usize>,
)
    requires
        valid_prefix(m, consumes, chosen),
        forall|p: int| 0 <= p < m.len() ==> (#[trigger] m[p]).len() <= usize::MAX,
        within(consumes, m.len() as int),
    ensures
        all_choices(m, consumes, chosen).contains(c) <==> (valid_choice(m, consumes, c)
            && c.len() >= chosen.len() && c.take(chosen.len() as int) == chosen),
    decreases consumes.len() - chosen.len(), 1int, 0int,
{
    if chosen.len() >= consumes.len() {
        let s = seq![chosen];
        assert(s[0] == chosen);
        if valid_choice(m, consumes, c) && c.take(chosen.len() as int) == chosen {
            assert(c.take(chosen.len() as int) =~= c);
        }
        assert(chosen.take(chosen.len() as int) =~= chosen);
    } else {
        let p = consumes[chosen.len() as int] as int;
        lemma_choices_upto(m, consumes, chosen, m[p].len() as int, c);
    }
}

proof fn lemma_choices_upto(
    m: Seq<Seq<Seq<(Str, Str)>>>,
    consumes: Seq<usize>,
    chosen: Seq<usize>,
    n: int,
    c: Seq<usize>,
)
    requires
        valid_prefix(m, consumes, chosen),
        chosen.len() < consumes.len(),
        forall|p: int| 0 <= p < m.len() ==> (#[trigger] m[p]).len() <= usize::MAX,
        within(consumes, m.len() as int),
        0 <= n <= m[consumes[chosen.len() as int] as int].len(),
    ensures
        choices_upto(m, consumes, chosen, n).contains(c) <==> (valid_choice(m, consumes, c)
            && c.len() > chosen.len() && c.take(chosen.len() as int) == chosen
            && c[chosen.len() as int] < n),
    decreases consumes.len() - chosen.len(), 0int, n,
{
    let k = chosen.len() as int;
    if n > 0 {
        lemma_choices_upto(m, consumes, chosen, n - 1, c);
        let p = consumes[k] as int;
        let rest = choices_upto(m, consumes, chosen, n - 1);
        if taken(consumes, chosen, p, n - 1) {
            if valid_choice(m, consumes, c) && c.take(k) == chosen && c[k] == n - 1 {
                let s = choose|s: int|
                    0 <= s < chosen.len() && s < consumes.len() && consumes[s] == p
                        && #[trigger] chosen[s] == n - 1;
                assert(c.take(k)[s] == c[s]);
            }
        } else {
            let next = chosen.push((n - 1) as usize);
            assert(valid_prefix(m, consumes, next)) by {
                assert forall|s: int, u: int|
                    0 <= s < u < next.len() && consumes[s] == consumes[u] implies #[trigger] next[s]
                    != #[trigger] next[u] by {
                    if u == k {
                        assert(next[s] == chosen[s]);
                    }
                }
            }
            lemma_all_choices(m, consumes, next, c);
            let more = all_choices(m, consumes, next);
            assert((rest + more).contains(c) <==> rest.contains(c) || more.contains(c)) by {
                if rest.contains(c) {
                    let i = rest.index_of(c);
                    assert((rest + more)[i] == c);
                }
                if more.contains(c) {
                    let i = more.index_of(c);
                    assert((rest + more)[rest.len() + i] == c);
                }
            }
            if valid_choice(m, consumes, c) && c.len() > k {
                if c.take(k) == chosen && c[k] == n - 1 {
                    assert(c.take(k + 1) =~= next);
                }
                if c.take(k + 1) == next {
                    assert(c.take(k) =~= c.take(k + 1).take(k));
                    assert(next.take(k) =~= chosen);
                    assert(c[k] == c.take(k + 1)[k]);
                }
            }
        }
    } else {
        assert(choices_upto(m, consumes, chosen, n) =~= Seq::empty());
    }
}

impl Net {
    /// The choices of tokens that let `t` fire, as many as are looked at.
    pub fn choices(&self, marking: &Marking, t: &CompiledTransition) -> (r: Vec<Vec<usize>>)
        requires
            within(t.deep_view().consumes, marking.len() as int),
        ensures
            r.deep_view() == capped(
                all_choices(marking.deep_view(), t.deep_view().consumes, Seq::empty()),
            ),
    {
        let mut out: Vec<Vec<usize>> = empty_vec();
        let current: Vec<usize> = empty_vec();
        let ghost m = marking.deep_view();
        let ghost all = all_choices(m, t.consumes.deep_view(), Seq::empty());
        assert(out.deep_view() + all =~= all);
        walk_choices(marking, &t.consumes, &current, CHOICE_LIMIT, &mut out);
        out
    }

    /// Whether there are more choices of tokens that let `t` fire than are looked at.
    pub fn leaves_choices_out(&self, marking: &Marking, t: &CompiledTransition) -> (r: bool)
        requires
            within(t.deep_view().consumes, marking.len() as int),
        ensures
            r == too_many_choices(marking.deep_view(), t.deep_view()),
    {
        let mut out: Vec<Vec<usize>> = empty_vec();
        let current: Vec<usize> = empty_vec();
        let ghost m = marking.deep_view();
        let ghost all = all_choices(m, t.consumes.deep_view(), Seq::empty());
        assert(out.deep_view() + all =~= all);
        walk_choices(marking, &t.consumes, &current, CHOICE_LIMIT + 1, &mut out);
        assert(out.len() == out.deep_view().len());
        out.len() > CHOICE_LIMIT
    }
}

fn is_taken(consumes: &Vec<usize>, chosen: &Vec<usize>, p: usize, k: usize) -> (r: bool)
    requires
        chosen.len() <= consumes.len(),
    ensures
        r == taken(consumes.deep_view(), chosen.deep_view(), p as int, k as int),
{
    let ghost cs = consumes.deep_view();
    let ghost ch = chosen.deep_view();
    let mut s: usize = 0;
    while s < chosen.len()
        invariant
            s <= chosen.len(),
            chosen.len() <= consumes.len(),
            cs == consumes.deep_view(),
            ch == chosen.deep_view(),
            forall|u: int| 0 <= u < s ==> !(cs[u] == p && #[trigger] ch[u] == k),
        decreases chosen.len() - s,
    {
        assert(cs[s as int] == consumes[s as int]);
        assert(ch[s as int] == chosen[s as int]);
        if consumes[s] == p && chosen[s] == k {
            return true;
        }
        s = s + 1;
    }
    false
}

fn walk_choices(
    marking: &Marking,
    consumes: &Vec<usize>,
    chosen: &Vec<usize>,
    limit: usize,
    out: &mut Vec<Vec<usize>>,
)
    requires
        within(consumes.deep_view(), marking.len() as int),
        chosen.len() <= consumes.len(),
        old(out).len() <= limit,
    ensures
        final(out).deep_view() == first_choices(
            old(out).deep_view() + all_choices(
                marking.deep_view(),
                consumes.deep_view(),
                chosen.deep_view(),
            ),
            limit as nat,
        ),
        final(out).len() <= limit,
    decreases consumes.len() - chosen.len(),
{
    let ghost m = marking.deep_view();
    let ghost cs = consumes.deep_view();
    let ghost ch = chosen.deep_view();
    let ghost start = out.deep_view();
    if out.len() >= limit {
        assert(first_choices(start + all_choices(m, cs, ch), limit as nat) =~= start);
        return;
    }
    if chosen.len() == consumes.len() {
        push_to(out, chosen.dup());
        assert(first_choices(start + all_choices(m, cs, ch), limit as nat) =~= out.deep_view());
        return;
    }
    let slot = chosen.len();
    let place = consumes[slot];
    assert(cs[slot as int] == place);
    let mut k: usize = 0;
    assert(first_choices(start + choices_upto(m, cs, ch, 0), limit as nat) =~= start);
    while k < marking[place].len()
        invariant
            within(cs, marking.len() as int),
            m == marking.deep_view(),
            cs == consumes.deep_view(),
            ch == chosen.deep_view(),
            slot == chosen.len(),
            slot < consumes.len(),
            place == cs[slot as int],
            place < marking.len(),
            k <= marking[place as int].len(),
            out.len() <= limit,
            out.deep_view() == first_choices(
                start + choices_upto(m, cs, ch, k as int),
                limit as nat,
            ),
        decreases marking[place as int].len() - k,
    {
        let ghost so_far = choices_upto(m, cs, ch, k as int);
        if !is_taken(consumes, chosen, place, k) {
            let mut next = chosen.dup();
            push_to(&mut next, k);
            assert(next.len() == next.deep_view().len());
            assert(chosen.len() == ch.len());
            walk_choices(marking, consumes, &next, limit, out);
            proof {
                let more = all_choices(m, cs, ch.push(k));
                lemma_first_choices(start + so_far, more, limit as nat);
                assert(start + so_far + more =~= start + (so_far + more));
            }
        }
        k = k + 1;
    }
    assert(m[place as int].len() == marking[place as int].len());
}

// ---------------------------------------------------------------------------
// The environment of a choice
// ---------------------------------------------------------------------------
/// `env` with the first `n` values that a token carries, unless they contradict it; names that
/// begin with an underscore are not variables.
pub open spec fn joined_token(
    env: Seq<(Str, Str)>,
    token: Seq<(Str, Str)>,
    n: int,
) -> Option<Seq<(Str, Str)>>
    decreases n,
{
    if n <= 0 {
        Some(env)
    } else {
        match joined_token(env, token, n - 1) {
            None => None,
            Some(e) => if has_prefix(token[n - 1].0, "_"@) {
                Some(e)
            } else {
                match lookup(e, token[n - 1].0) {
                    Some(w) => if w != token[n - 1].1 {
                        None
                    } else {
                        Some(put(e, token[n - 1].0, token[n - 1].1))
                    },
                    None => Some(put(e, token[n - 1].0, token[n - 1].1)),
                }
            },
        }
    }
}

/// What the tokens chosen for the first `n` slots say together, unless they contradict each
/// other.
pub open spec fn joined_tokens(
    m: Seq<Seq<Seq<(Str, Str)>>>,
    consumes: Seq<usize>,
    choice: Seq<usize>,
    n: int,
) -> Option<Seq<(Str, Str)>>
    decreases n,
{
    if n <= 0 {
        Some(Seq::empty())
    } else {
        match joined_tokens(m, consumes, choice, n - 1) {
            None => None,
            Some(e) => {
                let token = m[consumes[n - 1] as int][choice[n - 1] as int];
                joined_token(e, token, token.len() as int)
            },
        }
    }
}

/// What an environment and a token say together; none where they contradict each other.
pub fn add_token(env: Env, token: &Token) -> (r: Option<Env>)
    ensures
        r.deep_view() == joined_token(
            env.deep_view(),
            token.deep_view(),
            token.deep_view().len() as int,
        ),
{
    let ghost start = env.deep_view();
    let ghost tv = token.deep_view();
    let mut out = env;
    let mut i: usize = 0;
    while i < token.len()
        invariant
            i <= tv.len(),
            tv == token.deep_view(),
            start == env.deep_view(),
            joined_token(start, tv, i as int) == Some(out.deep_view()),
        decreases tv.len() - i,
    {
        let k = token.key_at(i);
        let v = token.value_at(i);
        if !starts_with_text(k.as_str(), "_") {
            let clash = match out.get(k.as_str()) {
                Some(w) => *w != *v,
                None => false,
            };
            if clash {
                assert(joined_token(start, tv, i + 1) is None);
                proof {
                    lemma_joined_token_none(start, tv, i + 1, tv.len() as int);
                }
                return None;
            }
            out.insert(k.clone(), v.clone());
        }
        i = i + 1;
    }
    Some(out)
}

proof fn lemma_joined_token_none(
    env: Seq<(Str, Str)>,
    token: Seq<(Str, Str)>,
    i: int,
    n: int,
)
    requires
        0 <= i <= n,
        joined_token(env, token, i) is None,
    ensures
        joined_token(env, token, n) is None,
    decreases n - i,
{
    if i < n {
        lemma_joined_token_none(env, token, i + 1, n);
    }
}

pub proof fn lemma_joined_tokens_none(
    m: Seq<Seq<Seq<(Str, Str)>>>,
    consumes: Seq<usize>,
    choice: Seq<usize>,
    i: int,
    n: int,
)
    requires
        0 <= i <= n,
        joined_tokens(m, consumes, choice, i) is None,
    ensures
        joined_tokens(m, consumes, choice, n) is None,
    decreases n - i,
{
    if i < n {
        lemma_joined_tokens_none(m, consumes, choice, i + 1, n);
    }
}

impl Net {
    /// What the chosen tokens say together; none where they contradict each other.
    pub fn merge_env(
        &self,
        marking: &Marking,
        t: &CompiledTransition,
        choice: &Vec<usize>,
    ) -> (r: Option<Env>)
        requires
            within(t.deep_view().consumes, marking.len() as int),
            tokens_there(marking.deep_view(), t.deep_view().consumes, choice.deep_view()),
        ensures
            r.deep_view() == joined_tokens(
                marking.deep_view(),
                t.deep_view().consumes,
                choice.deep_view(),
                t.deep_view().consumes.len() as int,
            ),
    {
        let ghost m = marking.deep_view();
        let ghost cs = t.consumes.deep_view();
        let ghost ch = choice.deep_view();
        let mut env: Env = StrMap::new();
        let mut s: usize = 0;
        while s < t.consumes.len()
            invariant
                s <= t.consumes.len(),
                m == marking.deep_view(),
                cs == t.consumes.deep_view(),
                ch == choice.deep_view(),
                within(cs, marking.len() as int),
                tokens_there(m, cs, ch),
                joined_tokens(m, cs, ch, s as int) == Some(env.deep_view()),
            decreases t.consumes.len() - s,
        {
            let place = t.consumes[s];
            assert(cs[s as int] == place);
            assert(ch[s as int] < m[place as int].len());
            let k = choice[s];
            assert(m[place as int] == marking[place as int].deep_view());
            let token = &marking[place][k];
            assert(m[place as int][k as int] == token.deep_view());
            match add_token(env, token) {
                Some(e) => {
                    env = e;
                },
                None => {
                    proof {
                        assert(joined_tokens(m, cs, ch, s + 1) is None);
                        lemma_joined_tokens_none(m, cs, ch, s + 1, cs.len() as int);
                    }
                    return None;
                },
            }
            s = s + 1;
        }
        Some(env)
    }
}

// ---------------------------------------------------------------------------
// Firing
// ---------------------------------------------------------------------------
/// Those of the first `n` tokens of place `p` that the choice leaves there.
pub open spec fn left_tokens(
    tokens: Seq<Seq<(Str, Str)>>,
    consumes: Seq<usize>,
    choice: Seq<usize>,
    p: int,
    n: int,
) -> Seq<Seq<(Str, Str)>>
    decreases n,
{
    if n <= 0 {
        Seq::empty()
    } else if taken(consumes, choice, p, n - 1) {
        left_tokens(tokens, consumes, choice, p, n - 1)
    } else {
        left_tokens(tokens, consumes, choice, p, n - 1).push(tokens[n - 1])
    }
}

/// The marking without the tokens that the choice takes.
pub open spec fn left_marking(
    m: Seq<Seq<Seq<(Str, Str)>>>,
    consumes: Seq<usize>,
    choice: Seq<usize>,
) -> Seq<Seq<Seq<(Str, Str)>>> {
    Seq::new(m.len(), |p: int| left_tokens(m[p], consumes, choice, p, m[p].len() as int))
}

/// A token with the values of the first `n` of `carries`, as far as `env` has them.
pub open spec fn made_token(carries: Seq<Str>, env: Seq<(Str, Str)>, n: int) -> Seq<(Str, Str)>
    decreases n,
{
    if n <= 0 {
        Seq::empty()
    } else {
        match lookup(env, carries[n - 1]) {
            Some(v) => put(made_token(carries, env, n - 1), carries[n - 1], v),
            None => made_token(carries, env, n - 1),
        }
    }
}

/// `m` with one more token in each of the first `n` places of `produces`.
pub open spec fn with_tokens(
    m: Seq<Seq<Seq<(Str, Str)>>>,
    carries: Seq<Seq<Str>>,
    produces: Seq<usize>,
    env: Seq<(Str, Str)>,
    n: int,
) -> Seq<Seq<Seq<(Str, Str)>>>
    decreases n,
{
    if n <= 0 {
        m
    } else {
        let prior = with_tokens(m, carries, produces, env, n - 1);
        let p = produces[n - 1] as int;
        prior.update(p, prior[p].push(made_token(carries[p], env, carries[p].len() as int)))
    }
}

/// The marking after `t` has fired with the chosen tokens: they are gone, and each place that
/// it produces to holds one token more.
pub open spec fn fired(
    net: NetView,
    m: Seq<Seq<Seq<(Str, Str)>>>,
    t: CompiledTransitionView,
    choice: Seq<usize>,
    env: Seq<(Str, Str)>,
) -> Seq<Seq<Seq<(Str, Str)>>> {
    with_tokens(
        left_marking(m, t.consumes, choice),
        net.place_carries,
        t.produces,
        env,
        t.produces.len() as int,
    )
}

fn make_token(carries: &Vec<String>, env: &Env) -> (r: Token)
    ensures
        r.deep_view() == made_token(
            carries.deep_view(),
            env.deep_view(),
            carries.deep_view().len() as int,
        ),
{
    let mut token: Token = StrMap::new();
    let mut i: usize = 0;
    while i < carries.len()
        invariant
            i <= carries.len(),
            token.deep_view() == made_token(carries.deep_view(), env.deep_view(), i as int),
        decreases carries.len() - i,
    {
        match env.get(carries[i].as_str()) {
            Some(v) => {
                token.insert(carries[i].clone(), v.clone());
            },
            None => {},
        }
        i = i + 1;
    }
    token
}

fn remaining(tokens: &Vec<Token>, consumes: &Vec<usize>, choice: &Vec<usize>, p: usize) -> (r: Vec<
    Token,
>)
    requires
        choice.len() <= consumes.len(),
    ensures
        r.deep_view() == left_tokens(
            tokens.deep_view(),
            consumes.deep_view(),
            choice.deep_view(),
            p as int,
            tokens.len() as int,
        ),
{
    let mut out: Vec<Token> = empty_vec();
    let mut i: usize = 0;
    while i < tokens.len()
        invariant
            i <= tokens.len(),
            choice.len() <= consumes.len(),
            out.deep_view() == left_tokens(
                tokens.deep_view(),
                consumes.deep_view(),
                choice.deep_view(),
                p as int,
                i as int,
            ),
        decreases tokens.len() - i,
    {
        if !is_taken(consumes, choice, p, i) {
            push_to(&mut out, tokens[i].dup());
        }
        i = i + 1;
    }
    out
}

proof fn lemma_with_tokens_len(
    m: Seq<Seq<Seq<(Str, Str)>>>,
    carries: Seq<Seq<Str>>,
    produces: Seq<usize>,
    env: Seq<(Str, Str)>,
    n: int,
)
    requires
        n <= produces.len(),
        within(produces, m.len() as int),
    ensures
        with_tokens(m, carries, produces, env, n).len() == m.len(),
    decreases n,
{
    if n > 0 {
        lemma_with_tokens_len(m, carries, produces, env, n - 1);
    }
}

/// Firing keeps the number of places.
pub proof fn lemma_fired_len(
    net: NetView,
    m: Seq<Seq<Seq<(Str, Str)>>>,
    t: CompiledTransitionView,
    choice: Seq<usize>,
    env: Seq<(Str, Str)>,
)
    requires
        within(t.produces, m.len() as int),
    ensures
        fired(net, m, t, choice, env).len() == m.len(),
{
    lemma_with_tokens_len(
        left_marking(m, t.consumes, choice),
        net.place_carries,
        t.produces,
        env,
        t.produces.len() as int,
    );
}

impl Net {
    /// The marking after `t` has fired with the chosen tokens.
    pub fn fire(
        &self,
        marking: &Marking,
        t: &CompiledTransition,
        choice: &Vec<usize>,
        env: &Env,
    ) -> (next: Marking)
        requires
            net_ok(self.deep_view()),
            marking.len() == self.place_names.len(),
            transition_ok(t.deep_view(), marking.len() as int),
            valid_choice(marking.deep_view(), t.deep_view().consumes, choice.deep_view()),
        ensures
            next.deep_view() == fired(
                self.deep_view(),
                marking.deep_view(),
                t.deep_view(),
                choice.deep_view(),
                env.deep_view(),
            ),
            next.len() == marking.len(),
    {
        let ghost m = marking.deep_view();
        let ghost cs = t.consumes.deep_view();
        let ghost ch = choice.deep_view();
        let ghost ps = t.produces.deep_view();
        let ghost ev = env.deep_view();
        let ghost cv = self.place_carries.deep_view();
        let mut next: Marking = empty_vec();
        let mut p: usize = 0;
        while p < marking.len()
            invariant
                p <= marking.len(),
                choice.len() == t.consumes.len(),
                m == marking.deep_view(),
                cs == t.consumes.deep_view(),
                ch == choice.deep_view(),
                next.deep_view() =~= left_marking(m, cs, ch).take(p as int),
            decreases marking.len() - p,
        {
            push_to(&mut next, remaining(&marking[p], &t.consumes, choice, p));
            p = p + 1;
        }
        let ghost left = left_marking(m, cs, ch);
        assert(left.take(p as int) =~= left);
        let mut i: usize = 0;
        while i < t.produces.len()
            invariant
                i <= t.produces.len(),
                ps == t.produces.deep_view(),
                ev == env.deep_view(),
                cv == self.place_carries.deep_view(),
                cv.len() == left.len(),
                within(ps, left.len() as int),
                next.deep_view() == with_tokens(left, cv, ps, ev, i as int),
                next.len() == left.len(),
            decreases t.produces.len() - i,
        {
            let q = t.produces[i];
            assert(ps[i as int] == q);
            let token = make_token(&self.place_carries[q], env);
            let ghost prior = next.deep_view();
            let mut tokens: Vec<Token> = Vec::new();
            std::mem::swap(&mut tokens, &mut next[q]);
            push_to(&mut tokens, token);
            next.set(q, tokens);
            assert(next.deep_view() =~= prior.update(
                q as int,
                prior[q as int].push(made_token(cv[q as int], ev, cv[q as int].len() as int)),
            ));
            i = i + 1;
        }
        next
    }
}

// ---------------------------------------------------------------------------
// Final and canonical markings
// ---------------------------------------------------------------------------
/// Whether some final place holds a token.
pub open spec fn is_final_marking(finals: Seq<usize>, m: Seq<Seq<Seq<(Str, Str)>>>) -> bool {
    exists|i: int| 0 <= i < finals.len() && m[(#[trigger] finals[i]) as int].len() > 0
}

/// A token as text.
pub open spec fn token_text(t: Seq<(Str, Str)>) -> Str {
    joined(assignments(t, t.len() as int), ","@)
}

/// The tokens of a place as text, in an order that does not depend on theirs.
pub open spec fn place_text(name: Str, tokens: Seq<Seq<(Str, Str)>>) -> Str {
    name + ":["@ + joined(
        sorted_texts(Seq::new(tokens.len(), |i: int| token_text(tokens[i]))),
        "|"@,
    ) + "]"@
}

/// A marking as text, in an order that does not depend on that of the tokens.
pub open spec fn canonical_text(names: Seq<Str>, m: Seq<Seq<Seq<(Str, Str)>>>) -> Str {
    joined(Seq::new(m.len(), |i: int| place_text(names[i], m[i])), ";"@)
}

fn render_place(name: &str, tokens: &Vec<Token>) -> (r: String)
    ensures
        r@ == place_text(name@, tokens.deep_view()),
{
    let ghost tv = tokens.deep_view();
    let ghost all = Seq::new(tv.len(), |i: int| token_text(tv[i]));
    let mut texts: Vec<String> = empty_vec();
    let mut i: usize = 0;
    while i < tokens.len()
        invariant
            i <= tokens.len(),
            tv == tokens.deep_view(),
            all == Seq::new(tv.len(), |i: int| token_text(tv[i])),
            texts.deep_view() =~= all.take(i as int),
        decreases tokens.len() - i,
    {
        let parts = assignment_texts(&tokens[i]);
        push_to(&mut texts, join(&parts, ","));
        i = i + 1;
    }
    assert(all.take(i as int) =~= all);
    let sorted = sort_texts(&texts);
    let inner = join(&sorted, "|");
    cat4(name, ":[", inner.as_str(), "]")
}

impl Net {
    /// Whether some final place holds a token.
    pub fn is_final(&self, marking: &Marking) -> (r: bool)
        requires
            within(self.deep_view().finals, marking.len() as int),
        ensures
            r == is_final_marking(self.deep_view().finals, marking.deep_view()),
    {
        let ghost fs = self.finals.deep_view();
        let ghost m = marking.deep_view();
        let mut i: usize = 0;
        while i < self.finals.len()
            invariant
                i <= self.finals.len(),
                fs == self.finals.deep_view(),
                m == marking.deep_view(),
                within(fs, marking.len() as int),
                forall|j: int| 0 <= j < i ==> !(m[(#[trigger] fs[j]) as int].len() > 0),
            decreases self.finals.len() - i,
        {
            assert(fs[i as int] == self.finals[i as int]);
            if marking[self.finals[i]].len() > 0 {
                return true;
            }
            i = i + 1;
        }
        false
    }

    /// The marking as text, in an order that does not depend on that of the tokens.
    pub fn canonical(&self, marking: &Marking) -> (r: String)
        requires
            marking.len() == self.place_names.len(),
        ensures
            r@ == canonical_text(self.deep_view().place_names, marking.deep_view()),
    {
        let ghost names = self.place_names.deep_view();
        let ghost m = marking.deep_view();
        let ghost all = Seq::new(m.len(), |i: int| place_text(names[i], m[i]));
        let mut parts: Vec<String> = empty_vec();
        let mut i: usize = 0;
        while i < marking.len()
            invariant
                i <= marking.len(),
                marking.len() == self.place_names.len(),
                names == self.place_names.deep_view(),
                m == marking.deep_view(),
                all == Seq::new(m.len(), |i: int| place_text(names[i], m[i])),
                parts.deep_view() =~= all.take(i as int),
            decreases marking.len() - i,
        {
            push_to(&mut parts, render_place(self.place_names[i].as_str(), &marking[i]));
            i = i + 1;
        }
        assert(all.take(i as int) =~= all);
        join(&parts, ";")
    }
}

} // verus!
