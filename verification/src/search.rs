//! The states of a run, and what each leads to: by an observed step, or by a step that was not
//! logged.

use crate::matching::{
    check_obligations, eval_guard, gaps_upto, guard_holds, match_template, matched_effect, resolve,
    resolved, structural_gaps, unmet_from,
};
use crate::model::{admits, EffectTemplate, EffectTemplateView};
use crate::net::{
    compiled_from, fired, joined_tokens, lacking_from, lemma_compiled_from, lemma_fired_len, net_ok,
    transition_ok, valid_choice, within,
    CompiledTransition, CompiledTransitionView, Env, Failure, FailureView, Marking, Net, NetView,
};
use crate::observation::{
    carried, dangling_upto, effect_named, EffectInstance, EffectInstanceView, Observation,
    ObservationView,
};
use crate::ordered::{
    append_to, empty_vec, lookup, push_to, put, put_item, put_items, values_of, Dup, StrMap, StrSet,
};
use crate::text::{decimal, decimal_text, same_text, Str};
use vstd::prelude::*;

verus! {

/// One step of a path: the transition that fires, for whom, the record that shows it where one
/// does, and the values of the variables.
#[derive(Debug)]
pub struct WitnessStep {
    pub transition: String,
    pub principal: String,
    pub record: Option<String>,
    pub observed: bool,
    pub bindings: StrMap<String>,
}

/// What a [`WitnessStep`] holds.
pub struct WitnessStepView {
    pub transition: Str,
    pub principal: Str,
    pub record: Option<Str>,
    pub observed: bool,
    pub bindings: Seq<(Str, Str)>,
}

impl DeepView for WitnessStep {
    type V = WitnessStepView;

    open spec fn deep_view(&self) -> WitnessStepView {
        WitnessStepView {
            transition: self.transition.deep_view(),
            principal: self.principal.deep_view(),
            record: self.record.deep_view(),
            observed: self.observed,
            bindings: self.bindings.deep_view(),
        }
    }
}

impl Dup for WitnessStep {
    fn dup(&self) -> (r: Self) {
        WitnessStep {
            transition: self.transition.dup(),
            principal: self.principal.dup(),
            record: self.record.dup(),
            observed: self.observed,
            bindings: self.bindings.dup(),
        }
    }
}

// ---------------------------------------------------------------------------
// States
// ---------------------------------------------------------------------------
/// A state of the search: the marking, which records and effects are explained, how many
/// unlogged steps were used, how many steps were taken, how many fresh values were minted, the
/// path, and the guards that held on it, each with the values that it held for.
pub struct StateView {
    pub marking: Seq<Seq<Seq<(Str, Str)>>>,
    pub consumed: Seq<bool>,
    pub matched: Seq<Str>,
    pub slack_used: nat,
    pub depth: nat,
    pub fresh: nat,
    pub path: Seq<WitnessStepView>,
    pub pledges: Seq<(Str, Seq<(Str, Str)>)>,
}

/// A state of the search.
#[derive(Debug)]
pub struct SearchState {
    pub marking: Marking,
    pub consumed: Vec<bool>,
    pub matched: StrSet,
    pub slack_used: usize,
    pub depth: usize,
    pub fresh: usize,
    pub path: Vec<WitnessStep>,
    pub pledges: Vec<(String, Env)>,
}

impl DeepView for SearchState {
    type V = StateView;

    open spec fn deep_view(&self) -> StateView {
        StateView {
            marking: self.marking.deep_view(),
            consumed: self.consumed@,
            matched: self.matched.deep_view(),
            slack_used: self.slack_used as nat,
            depth: self.depth as nat,
            fresh: self.fresh as nat,
            path: self.path.deep_view(),
            pledges: self.pledges.deep_view(),
        }
    }
}

/// A copy of these flags.
pub fn copy_flags(v: &Vec<bool>) -> (r: Vec<bool>)
    ensures
        r@ == v@,
{
    let mut out: Vec<bool> = Vec::new();
    let mut i: usize = 0;
    while i < v.len()
        invariant
            i <= v.len(),
            out@ =~= v@.take(i as int),
        decreases v.len() - i,
    {
        out.push(v[i]);
        i = i + 1;
    }
    assert(v@.take(i as int) =~= v@);
    out
}

impl Dup for SearchState {
    fn dup(&self) -> (r: Self) {
        SearchState {
            marking: self.marking.dup(),
            consumed: copy_flags(&self.consumed),
            matched: self.matched.dup(),
            slack_used: self.slack_used,
            depth: self.depth,
            fresh: self.fresh,
            path: self.path.dup(),
            pledges: self.pledges.dup(),
        }
    }
}

/// Whether a state is one of this net and this observation.
pub open spec fn state_ok(net: NetView, obs: ObservationView, s: StateView) -> bool {
    s.marking.len() == net.place_names.len() && s.consumed.len() == obs.records.len()
}

/// How many of the first `n` flags are set.
pub open spec fn set_flags(v: Seq<bool>, n: int) -> nat
    decreases n,
{
    if n <= 0 {
        0
    } else if v[n - 1] {
        set_flags(v, n - 1) + 1
    } else {
        set_flags(v, n - 1)
    }
}

/// How far a state has come: the records and the effects that it explains.
pub open spec fn score(s: StateView) -> (nat, nat) {
    (set_flags(s.consumed, s.consumed.len() as int), s.matched.len())
}

/// Whether one state has come further than another: records count before effects.
pub open spec fn further(a: (nat, nat), b: (nat, nat)) -> bool {
    a.0 > b.0 || (a.0 == b.0 && a.1 > b.1)
}

/// What a firing is to explain: a record, or, where it went unlogged, nothing or one effect.
pub enum AimView {
    Record(int),
    Target(Option<Str>),
}

/// What a firing is to explain.
pub enum Aim {
    Record(usize),
    Target(Option<String>),
}

impl DeepView for Aim {
    type V = AimView;

    open spec fn deep_view(&self) -> AimView {
        match self {
            Aim::Record(ix) => AimView::Record(*ix as int),
            Aim::Target(target) => AimView::Target(target.deep_view()),
        }
    }
}

/// Whether `aim` is one that `t` can be held against.
pub open spec fn aim_ok(obs: ObservationView, t: CompiledTransitionView, aim: AimView) -> bool {
    match aim {
        AimView::Record(ix) => 0 <= ix < obs.records.len() && obs.records[ix].step is Some
            && t.emits.len() == obs.records[ix].effects.len(),
        AimView::Target(target) => target is Some ==> t.emits.len() > 0,
    }
}

/// What is tried of an explanation: it does not apply, it fails for a reason worth telling, or
/// it leads to a state. There, the count of fresh values is that of the names that were used.
pub enum AttemptView {
    Skip,
    Fail(FailureView),
    Go(StateView),
}

/// What became of an attempt.
pub enum Attempt {
    Skip,
    Fail(Failure),
    Go(SearchState),
}

impl DeepView for Attempt {
    type V = AttemptView;

    open spec fn deep_view(&self) -> AttemptView {
        match self {
            Attempt::Skip => AttemptView::Skip,
            Attempt::Fail(f) => AttemptView::Fail(f.deep_view()),
            Attempt::Go(s) => AttemptView::Go(s.deep_view()),
        }
    }
}

impl SearchState {
    /// How far the state has come.
    pub fn score(&self) -> (r: (usize, usize))
        ensures
            (r.0 as nat, r.1 as nat) == score(self.deep_view()),
    {
        let mut n: usize = 0;
        let mut i: usize = 0;
        while i < self.consumed.len()
            invariant
                i <= self.consumed.len(),
                n <= i,
                n == set_flags(self.consumed@, i as int),
            decreases self.consumed.len() - i,
        {
            if self.consumed[i] {
                n = n + 1;
            }
            i = i + 1;
        }
        (n, self.matched.len())
    }
}

// ---------------------------------------------------------------------------
// Binding variables
// ---------------------------------------------------------------------------
/// The environment after the effects from position `i` on have been held against their
/// templates, or the first failure.
pub open spec fn matched_effects(
    emits: Seq<EffectTemplateView>,
    effects: Seq<EffectInstanceView>,
    env: Seq<(Str, Str)>,
    step: Str,
    i: int,
) -> Result<Seq<(Str, Str)>, FailureView>
    decreases emits.len() - i,
{
    if i < 0 || i >= emits.len() {
        Ok(env)
    } else {
        match matched_effect(emits[i], effects[i], env, step) {
            Ok(next) => matched_effects(emits, effects, next, step, i + 1),
            Err(f) => Err(f),
        }
    }
}

/// The first variable at or after position `i` whose value no presented certificate attests,
/// with that value.
pub open spec fn unattested_from(
    names: Seq<Str>,
    env: Seq<(Str, Str)>,
    evidence: Seq<Str>,
    i: int,
) -> Option<(Str, Str)>
    decreases names.len() - i,
{
    if i < 0 || i >= names.len() {
        None
    } else {
        match lookup(env, names[i]) {
            None => Some((names[i], "no value"@)),
            Some(v) => if evidence.contains(v) {
                unattested_from(names, env, evidence, i + 1)
            } else {
                Some((names[i], v))
            },
        }
    }
}

/// `env` with a value for each of the first `n` variables that it does not bind, taken from
/// `names` in turn, and how many were taken.
pub open spec fn minted(
    env: Seq<(Str, Str)>,
    binds: Seq<Str>,
    names: Seq<Str>,
    n: int,
) -> (Seq<(Str, Str)>, nat)
    decreases n,
{
    if n <= 0 {
        (env, 0)
    } else {
        let p = minted(env, binds, names, n - 1);
        if lookup(p.0, binds[n - 1]) is Some {
            p
        } else {
            (put(p.0, binds[n - 1], names[p.1 as int]), p.1 + 1)
        }
    }
}

pub proof fn lemma_minted_used(env: Seq<(Str, Str)>, binds: Seq<Str>, names: Seq<Str>, n: int)
    requires
        0 <= n,
    ensures
        minted(env, binds, names, n).1 <= n,
    decreases n,
{
    if n > 0 {
        lemma_minted_used(env, binds, names, n - 1);
    }
}

fn match_effects(
    emits: &Vec<EffectTemplate>,
    effects: &Vec<EffectInstance>,
    env: Env,
    step: &str,
) -> (r: Result<Env, Failure>)
    requires
        emits.len() == effects.len(),
    ensures
        match r {
            Ok(e) => matched_effects(
                emits.deep_view(),
                effects.deep_view(),
                env.deep_view(),
                step@,
                0,
            ) == Ok::<Seq<(Str, Str)>, FailureView>(e.deep_view()),
            Err(f) => matched_effects(
                emits.deep_view(),
                effects.deep_view(),
                env.deep_view(),
                step@,
                0,
            ) == Err::<Seq<(Str, Str)>, FailureView>(f.deep_view()),
        },
{
    let ghost ev = emits.deep_view();
    let ghost fv = effects.deep_view();
    let ghost goal = matched_effects(ev, fv, env.deep_view(), step@, 0);
    let mut cur = env;
    let mut i: usize = 0;
    while i < emits.len()
        invariant
            i <= emits.len(),
            emits.len() == effects.len(),
            ev == emits.deep_view(),
            fv == effects.deep_view(),
            goal == matched_effects(ev, fv, env.deep_view(), step@, 0),
            goal == matched_effects(ev, fv, cur.deep_view(), step@, i as int),
        decreases emits.len() - i,
    {
        match match_template(&emits[i], &effects[i], &cur, step) {
            Ok(next) => {
                cur = next;
            },
            Err(f) => {
                return Err(f);
            },
        }
        i = i + 1;
    }
    Ok(cur)
}

fn find_unattested(names: &Vec<String>, env: &Env, evidence: &StrSet) -> (r: Option<
    (String, String),
>)
    ensures
        match r {
            Some(p) => unattested_from(
                names.deep_view(),
                env.deep_view(),
                evidence.deep_view(),
                0,
            ) == Some((p.0@, p.1@)),
            None => unattested_from(
                names.deep_view(),
                env.deep_view(),
                evidence.deep_view(),
                0,
            ) is None,
        },
{
    let ghost nv = names.deep_view();
    let ghost ev = env.deep_view();
    let ghost sv = evidence.deep_view();
    let mut i: usize = 0;
    while i < names.len()
        invariant
            i <= names.len(),
            nv == names.deep_view(),
            ev == env.deep_view(),
            sv == evidence.deep_view(),
            unattested_from(nv, ev, sv, 0) == unattested_from(nv, ev, sv, i as int),
        decreases names.len() - i,
    {
        match env.get(names[i].as_str()) {
            None => {
                return Some((names[i].clone(), "no value".to_string()));
            },
            Some(v) => {
                if !evidence.contains(v.as_str()) {
                    return Some((names[i].clone(), v.clone()));
                }
            },
        }
        i = i + 1;
    }
    None
}

fn mint(env: Env, binds: &Vec<String>, names: &Vec<String>) -> (r: (Env, usize))
    requires
        names.len() == binds.len(),
    ensures
        (r.0.deep_view(), r.1 as nat) == minted(
            env.deep_view(),
            binds.deep_view(),
            names.deep_view(),
            binds.deep_view().len() as int,
        ),
{
    let ghost bv = binds.deep_view();
    let ghost nv = names.deep_view();
    let mut cur = env;
    let mut used: usize = 0;
    let mut i: usize = 0;
    while i < binds.len()
        invariant
            i <= binds.len(),
            names.len() == binds.len(),
            bv == binds.deep_view(),
            nv == names.deep_view(),
            used <= i,
            (cur.deep_view(), used as nat) == minted(env.deep_view(), bv, nv, i as int),
        decreases binds.len() - i,
    {
        if !cur.contains_key(binds[i].as_str()) {
            assert(nv[used as int] == names[used as int]@);
            cur.insert(binds[i].clone(), names[used].clone());
            used = used + 1;
        }
        i = i + 1;
    }
    assert(binds.len() == bv.len());
    (cur, used)
}

// ---------------------------------------------------------------------------
// Counting fresh values
// ---------------------------------------------------------------------------
/// How many fresh values have been minted when the first `n` arguments of a template have been
/// resolved.
pub open spec fn spent_on_args(raws: Seq<Str>, env: Seq<(Str, Str)>, fresh: nat, n: int) -> nat
    decreases n,
{
    if n <= 0 {
        fresh
    } else {
        resolved(raws[n - 1], env, spent_on_args(raws, env, fresh, n - 1)).1
    }
}

/// How many fresh values have been minted when the arguments of the first `n` templates have
/// been resolved.
pub open spec fn spent_on(
    emits: Seq<EffectTemplateView>,
    env: Seq<(Str, Str)>,
    fresh: nat,
    n: int,
) -> nat
    decreases n,
{
    if n <= 0 {
        fresh
    } else {
        spent_on_args(
            values_of(emits[n - 1].args),
            env,
            spent_on(emits, env, fresh, n - 1),
            emits[n - 1].args.len() as int,
        )
    }
}

/// The arguments of the first `n` templates, counted.
pub open spec fn arg_count(emits: Seq<EffectTemplateView>, n: int) -> nat
    decreases n,
{
    if n <= 0 {
        0
    } else {
        arg_count(emits, n - 1) + emits[n - 1].args.len()
    }
}

/// How many fresh values a firing of `t` mints at most.
pub open spec fn growth(t: CompiledTransitionView) -> nat {
    t.binds.len() + arg_count(t.emits, t.emits.len() as int)
}

/// How many fresh values one firing mints at most.
pub open spec fn max_growth(ts: Seq<CompiledTransitionView>, n: int) -> nat
    decreases n,
{
    if n <= 0 {
        0
    } else if growth(ts[n - 1]) > max_growth(ts, n - 1) {
        growth(ts[n - 1])
    } else {
        max_growth(ts, n - 1)
    }
}

pub proof fn lemma_max_growth(ts: Seq<CompiledTransitionView>, n: int, i: int)
    requires
        0 <= i < n <= ts.len(),
    ensures
        growth(ts[i]) <= max_growth(ts, n),
    decreases n,
{
    if i < n - 1 {
        lemma_max_growth(ts, n - 1, i);
    }
}

proof fn lemma_spent_on_args(raws: Seq<Str>, env: Seq<(Str, Str)>, fresh: nat, n: int)
    requires
        0 <= n,
    ensures
        fresh <= spent_on_args(raws, env, fresh, n) <= fresh + n,
    decreases n,
{
    if n > 0 {
        lemma_spent_on_args(raws, env, fresh, n - 1);
    }
}

pub proof fn lemma_spent_on(emits: Seq<EffectTemplateView>, env: Seq<(Str, Str)>, fresh: nat, n: int)
    requires
        0 <= n,
    ensures
        fresh <= spent_on(emits, env, fresh, n) <= fresh + arg_count(emits, n),
    decreases n,
{
    if n > 0 {
        lemma_spent_on(emits, env, fresh, n - 1);
        lemma_spent_on_args(
            values_of(emits[n - 1].args),
            env,
            spent_on(emits, env, fresh, n - 1),
            emits[n - 1].args.len() as int,
        );
    }
}

/// How many fresh values have been minted when the arguments of the templates have been
/// resolved.
pub fn spend(emits: &Vec<EffectTemplate>, env: &Env, fresh: usize) -> (r: usize)
    requires
        fresh + arg_count(emits.deep_view(), emits.deep_view().len() as int) <= usize::MAX,
    ensures
        r as nat == spent_on(
            emits.deep_view(),
            env.deep_view(),
            fresh as nat,
            emits.deep_view().len() as int,
        ),
{
    let ghost ev = emits.deep_view();
    let ghost nv = env.deep_view();
    let mut f = fresh;
    let mut i: usize = 0;
    while i < emits.len()
        invariant
            i <= emits.len(),
            ev == emits.deep_view(),
            nv == env.deep_view(),
            fresh + arg_count(ev, ev.len() as int) <= usize::MAX,
            f as nat == spent_on(ev, nv, fresh as nat, i as int),
        decreases emits.len() - i,
    {
        let args = &emits[i].args;
        let ghost raws = values_of(args.deep_view());
        let ghost start = f as nat;
        proof {
            lemma_spent_on(ev, nv, fresh as nat, i as int);
            lemma_arg_count(ev, i + 1, ev.len() as int);
        }
        let mut j: usize = 0;
        while j < args.len()
            invariant
                j <= args.deep_view().len(),
                raws == values_of(args.deep_view()),
                nv == env.deep_view(),
                start + args.deep_view().len() <= usize::MAX,
                f as nat == spent_on_args(raws, nv, start, j as int),
            decreases args.deep_view().len() - j,
        {
            proof {
                lemma_spent_on_args(raws, nv, start, j as int);
            }
            let _ = resolve(args.value_at(j).as_str(), env, &mut f);
            j = j + 1;
        }
        i = i + 1;
    }
    f
}

proof fn lemma_arg_count(emits: Seq<EffectTemplateView>, i: int, n: int)
    requires
        0 <= i <= n,
    ensures
        arg_count(emits, i) <= arg_count(emits, n),
    decreases n - i,
{
    if i < n {
        lemma_arg_count(emits, i + 1, n);
    }
}

/// Whether there is room for the fresh values that one more firing may mint.
pub open spec fn room_for(net: NetView, fresh: int) -> bool {
    fresh + max_growth(net.transitions, net.transitions.len() as int) <= usize::MAX
}

fn growth_of(t: &CompiledTransition) -> (r: Option<usize>)
    ensures
        match r {
            Some(n) => n == growth(t.deep_view()),
            None => growth(t.deep_view()) > usize::MAX,
        },
{
    let ghost tv = t.deep_view();
    assert(t.binds.len() == tv.binds.len());
    assert(t.emits.len() == tv.emits.len());
    let mut n: usize = t.binds.len();
    let mut i: usize = 0;
    while i < t.emits.len()
        invariant
            i <= t.emits.len(),
            tv == t.deep_view(),
            t.emits.len() == tv.emits.len(),
            n == tv.binds.len() + arg_count(tv.emits, i as int),
        decreases t.emits.len() - i,
    {
        assert(tv.emits[i as int] == t.emits[i as int].deep_view());
        match n.checked_add(t.emits[i].args.len()) {
            Some(m) => {
                n = m;
            },
            None => {
                proof {
                    lemma_arg_count(tv.emits, i + 1, tv.emits.len() as int);
                }
                return None;
            },
        }
        i = i + 1;
    }
    Some(n)
}

/// Whether so many firings can mint their fresh values without a counter overflowing.
pub fn has_room(net: &Net, firings: usize) -> (r: bool)
    ensures
        r == (firings * max_growth(
            net.deep_view().transitions,
            net.deep_view().transitions.len() as int,
        ) <= usize::MAX),
{
    let ghost ts = net.deep_view().transitions;
    assert(net.transitions.len() == ts.len());
    let mut most: usize = 0;
    let mut i: usize = 0;
    while i < net.transitions.len()
        invariant
            i <= net.transitions.len(),
            ts == net.deep_view().transitions,
            net.transitions.len() == ts.len(),
            most == max_growth(ts, i as int),
        decreases net.transitions.len() - i,
    {
        assert(ts[i as int] == net.transitions[i as int].deep_view());
        match growth_of(&net.transitions[i]) {
            Some(n) => {
                if n > most {
                    most = n;
                }
            },
            None => {
                proof {
                    let all = max_growth(ts, ts.len() as int);
                    lemma_max_growth(ts, ts.len() as int, i as int);
                    if firings > 0 {
                        assert(firings * all >= all) by (nonlinear_arith)
                            requires
                                firings >= 1,
                                all >= 0,
                        ;
                    } else {
                        assert(firings * all == 0) by (nonlinear_arith)
                            requires
                                firings == 0,
                        ;
                    }
                }
                return firings == 0;
            },
        }
        i = i + 1;
    }
    firings.checked_mul(most).is_some()
}

// ---------------------------------------------------------------------------
// Obligations
// ---------------------------------------------------------------------------
/// The first obligation that is not discharged, of the effects at or after position `i`.
pub open spec fn unmet_effect_from(
    emits: Seq<EffectTemplateView>,
    effects: Seq<EffectInstanceView>,
    transition: Str,
    env: Seq<(Str, Str)>,
    obs: ObservationView,
    matched: Seq<Str>,
    i: int,
) -> Option<FailureView>
    decreases emits.len() - i,
{
    if i < 0 || i >= emits.len() {
        None
    } else {
        match unmet_from(
            emits[i].requires_relation,
            transition,
            effects[i].id,
            env,
            obs,
            matched,
            0,
        ) {
            Some(f) => Some(f),
            None => unmet_effect_from(emits, effects, transition, env, obs, matched, i + 1),
        }
    }
}

/// The obligations of the first `n` effects for which the observation has no edge at all.
pub open spec fn gaps_of(
    emits: Seq<EffectTemplateView>,
    effects: Seq<EffectInstanceView>,
    transition: Str,
    obs: ObservationView,
    n: int,
) -> Seq<FailureView>
    decreases n,
{
    if n <= 0 {
        Seq::empty()
    } else {
        gaps_of(emits, effects, transition, obs, n - 1) + gaps_upto(
            emits[n - 1].requires_relation,
            transition,
            effects[n - 1].id,
            obs,
            emits[n - 1].requires_relation.len() as int,
        )
    }
}

/// The ids of a record's effects.
pub open spec fn ids_of(es: Seq<EffectInstanceView>) -> Seq<Str> {
    Seq::new(es.len(), |i: int| es[i].id)
}

fn find_unmet(
    emits: &Vec<EffectTemplate>,
    effects: &Vec<EffectInstance>,
    transition: &str,
    env: &Env,
    obs: &Observation,
    matched: &StrSet,
) -> (r: Option<Failure>)
    requires
        emits.len() == effects.len(),
    ensures
        r.deep_view() == unmet_effect_from(
            emits.deep_view(),
            effects.deep_view(),
            transition@,
            env.deep_view(),
            obs.deep_view(),
            matched.deep_view(),
            0,
        ),
{
    let ghost ev = emits.deep_view();
    let ghost fv = effects.deep_view();
    let mut i: usize = 0;
    while i < emits.len()
        invariant
            i <= emits.len(),
            emits.len() == effects.len(),
            ev == emits.deep_view(),
            fv == effects.deep_view(),
            unmet_effect_from(
                ev,
                fv,
                transition@,
                env.deep_view(),
                obs.deep_view(),
                matched.deep_view(),
                0,
            ) == unmet_effect_from(
                ev,
                fv,
                transition@,
                env.deep_view(),
                obs.deep_view(),
                matched.deep_view(),
                i as int,
            ),
        decreases emits.len() - i,
    {
        assert(fv[i as int] == effects[i as int].deep_view());
        match check_obligations(
            &emits[i],
            transition,
            effects[i].id.as_str(),
            env,
            obs,
            matched,
        ) {
            Err(f) => {
                return Some(f);
            },
            Ok(_) => {},
        }
        i = i + 1;
    }
    None
}

/// The obligations for which the observation has no edge at all.
pub fn all_gaps(
    emits: &Vec<EffectTemplate>,
    effects: &Vec<EffectInstance>,
    transition: &str,
    obs: &Observation,
) -> (r: Vec<Failure>)
    requires
        emits.len() == effects.len(),
    ensures
        r.deep_view() == gaps_of(
            emits.deep_view(),
            effects.deep_view(),
            transition@,
            obs.deep_view(),
            emits.deep_view().len() as int,
        ),
{
    let mut out: Vec<Failure> = empty_vec();
    let mut i: usize = 0;
    while i < emits.len()
        invariant
            i <= emits.len(),
            emits.len() == effects.len(),
            out.deep_view() == gaps_of(
                emits.deep_view(),
                effects.deep_view(),
                transition@,
                obs.deep_view(),
                i as int,
            ),
        decreases emits.len() - i,
    {
        assert(effects.deep_view()[i as int] == effects[i as int].deep_view());
        append_to(&mut out, structural_gaps(&emits[i], transition, effects[i].id.as_str(), obs));
        i = i + 1;
    }
    out
}

fn effect_id_list(es: &Vec<EffectInstance>) -> (r: Vec<String>)
    ensures
        r.deep_view() == ids_of(es.deep_view()),
{
    let mut out: Vec<String> = empty_vec();
    let mut i: usize = 0;
    while i < es.len()
        invariant
            i <= es.len(),
            out.deep_view() =~= ids_of(es.deep_view()).take(i as int),
        decreases es.len() - i,
    {
        push_to(&mut out, es[i].id.clone());
        i = i + 1;
    }
    assert(ids_of(es.deep_view()).take(i as int) =~= ids_of(es.deep_view()));
    out
}

// ---------------------------------------------------------------------------
// Firing
// ---------------------------------------------------------------------------
/// The environment after what is to be explained has been held against the templates, or why it
/// does not fit, where that is worth telling.
pub open spec fn bound_for(
    obs: ObservationView,
    t: CompiledTransitionView,
    aim: AimView,
    base: Seq<(Str, Str)>,
) -> Result<Seq<(Str, Str)>, Option<FailureView>> {
    match aim {
        AimView::Record(ix) => match matched_effects(
            t.emits,
            obs.records[ix].effects,
            base,
            obs.records[ix].step->Some_0,
            0,
        ) {
            Ok(env) => Ok(env),
            Err(f) => Err(Some(f)),
        },
        AimView::Target(Some(id)) => match effect_named(obs.records, id) {
            None => Err(None),
            Some(effect) => match matched_effect(t.emits[0], effect, base, t.id) {
                Ok(env) => Ok(env),
                Err(f) => Err(Some(f)),
            },
        },
        AimView::Target(None) => Ok(base),
    }
}

/// The first obligation that explaining this leaves open.
pub open spec fn unmet_for(
    obs: ObservationView,
    t: CompiledTransitionView,
    aim: AimView,
    env: Seq<(Str, Str)>,
    matched: Seq<Str>,
) -> Option<FailureView> {
    match aim {
        AimView::Record(ix) => unmet_effect_from(
            t.emits,
            obs.records[ix].effects,
            t.id,
            env,
            obs,
            matched,
            0,
        ),
        AimView::Target(Some(id)) => unmet_from(
            t.emits[0].requires_relation,
            t.id,
            id,
            env,
            obs,
            matched,
            0,
        ),
        AimView::Target(None) => None,
    }
}

/// A failure that is worth telling of a record only.
pub open spec fn told_of(aim: AimView, f: FailureView) -> Option<FailureView> {
    match aim {
        AimView::Record(_) => Some(f),
        AimView::Target(_) => None,
    }
}

/// Whether the guard of a transition holds, if it has one.
pub open spec fn guard_ok(t: CompiledTransitionView, env: Seq<(Str, Str)>) -> bool {
    t.guard matches Some(g) ==> guard_holds(g, env)
}

/// The values of the variables when `t` fires to explain `aim`, where the chosen tokens give
/// `base` and `names` are the values for what is left unbound, and how many of these were used;
/// or why it cannot fire so.
pub open spec fn env_for(
    net: NetView,
    obs: ObservationView,
    t: CompiledTransitionView,
    aim: AimView,
    matched: Seq<Str>,
    base: Seq<(Str, Str)>,
    names: Seq<Str>,
) -> Result<(Seq<(Str, Str)>, nat), Option<FailureView>> {
    match bound_for(obs, t, aim, base) {
        Err(f) => Err(f),
        Ok(bound) => match unattested_from(t.attested, bound, net.evidence, 0) {
            Some(p) => Err(
                told_of(
                    aim,
                    FailureView::NotAttested { transition: t.id, bind: p.0, value: p.1 },
                ),
            ),
            None => {
                let p = minted(bound, t.binds, names, t.binds.len() as int);
                if !guard_ok(t, p.0) {
                    Err(
                        told_of(
                            aim,
                            FailureView::GuardFalse { transition: t.id, guard: t.guard->Some_0 },
                        ),
                    )
                } else {
                    match unmet_for(obs, t, aim, p.0, matched) {
                        Some(f) => Err(Some(f)),
                        None => Ok(p),
                    }
                }
            },
        },
    }
}

/// The state after `t` has fired with the chosen tokens and the values `env`.
pub open spec fn stepped(
    net: NetView,
    obs: ObservationView,
    s: StateView,
    t: CompiledTransitionView,
    choice: Seq<usize>,
    aim: AimView,
    env: Seq<(Str, Str)>,
    fresh: nat,
) -> StateView {
    StateView {
        marking: fired(net, s.marking, t, choice, env),
        consumed: match aim {
            AimView::Record(ix) => s.consumed.update(ix, true),
            AimView::Target(_) => s.consumed,
        },
        matched: match aim {
            AimView::Record(ix) => put_items(s.matched, ids_of(obs.records[ix].effects)),
            AimView::Target(Some(id)) => put_item(s.matched, id),
            AimView::Target(None) => s.matched,
        },
        slack_used: match aim {
            AimView::Record(_) => s.slack_used,
            AimView::Target(_) => s.slack_used + 1,
        },
        depth: s.depth + 1,
        fresh,
        path: s.path.push(
            match aim {
                AimView::Record(ix) => WitnessStepView {
                    transition: t.id,
                    principal: obs.records[ix].principal,
                    record: Some(obs.records[ix].id),
                    observed: true,
                    bindings: env,
                },
                AimView::Target(_) => WitnessStepView {
                    transition: t.id,
                    principal: t.principal,
                    record: None,
                    observed: false,
                    bindings: env,
                },
            },
        ),
        pledges: match t.guard {
            Some(g) => s.pledges.push((g, env)),
            None => s.pledges,
        },
    }
}

/// What comes of explaining `aim` by a firing of `t` with the chosen tokens, with these values
/// for the variables that nothing else binds.
pub open spec fn attempt(
    net: NetView,
    obs: ObservationView,
    s: StateView,
    t: CompiledTransitionView,
    choice: Seq<usize>,
    aim: AimView,
    names: Seq<Str>,
) -> AttemptView {
    match joined_tokens(s.marking, t.consumes, choice, t.consumes.len() as int) {
        None => AttemptView::Skip,
        Some(base) => match env_for(net, obs, t, aim, s.matched, base, names) {
            Err(None) => AttemptView::Skip,
            Err(Some(f)) => AttemptView::Fail(f),
            Ok(p) => AttemptView::Go(stepped(net, obs, s, t, choice, aim, p.0, p.1)),
        },
    }
}

fn bind_for(
    obs: &Observation,
    t: &CompiledTransition,
    aim: &Aim,
    base: Env,
) -> (r: Result<Env, Option<Failure>>)
    requires
        aim_ok(obs.deep_view(), t.deep_view(), aim.deep_view()),
    ensures
        match r {
            Ok(e) => bound_for(obs.deep_view(), t.deep_view(), aim.deep_view(), base.deep_view())
                == Ok::<Seq<(Str, Str)>, Option<FailureView>>(e.deep_view()),
            Err(f) => bound_for(obs.deep_view(), t.deep_view(), aim.deep_view(), base.deep_view())
                == Err::<Seq<(Str, Str)>, Option<FailureView>>(f.deep_view()),
        },
{
    match aim {
        Aim::Record(ix) => {
            let record = &obs.records[*ix];
            assert(obs.deep_view().records[*ix as int] == record.deep_view());
            assert(t.emits.len() == t.deep_view().emits.len());
            assert(record.effects.len() == record.deep_view().effects.len());
            match &record.step {
                Some(step) => match match_effects(&t.emits, &record.effects, base, step.as_str()) {
                    Ok(e) => Ok(e),
                    Err(f) => Err(Some(f)),
                },
                None => Err(None),
            }
        },
        Aim::Target(Some(id)) => {
            assert(t.emits.len() == t.deep_view().emits.len());
            match obs.effect(id.as_str()) {
                None => Err(None),
                Some(effect) => {
                    assert(t.deep_view().emits[0] == t.emits[0].deep_view());
                    match match_template(&t.emits[0], effect, &base, t.id.as_str()) {
                        Ok(e) => Ok(e),
                        Err(f) => Err(Some(f)),
                    }
                },
            }
        },
        Aim::Target(None) => Ok(base),
    }
}

fn unmet_of(
    obs: &Observation,
    t: &CompiledTransition,
    aim: &Aim,
    env: &Env,
    matched: &StrSet,
) -> (r: Option<Failure>)
    requires
        aim_ok(obs.deep_view(), t.deep_view(), aim.deep_view()),
    ensures
        r.deep_view() == unmet_for(
            obs.deep_view(),
            t.deep_view(),
            aim.deep_view(),
            env.deep_view(),
            matched.deep_view(),
        ),
{
    match aim {
        Aim::Record(ix) => {
            let record = &obs.records[*ix];
            assert(obs.deep_view().records[*ix as int] == record.deep_view());
            assert(t.emits.len() == t.deep_view().emits.len());
            assert(record.effects.len() == record.deep_view().effects.len());
            find_unmet(&t.emits, &record.effects, t.id.as_str(), env, obs, matched)
        },
        Aim::Target(Some(id)) => {
            assert(t.emits.len() == t.deep_view().emits.len());
            assert(t.deep_view().emits[0] == t.emits[0].deep_view());
            match check_obligations(&t.emits[0], t.id.as_str(), id.as_str(), env, obs, matched) {
                Err(f) => Some(f),
                Ok(_) => None,
            }
        },
        Aim::Target(None) => None,
    }
}

fn tell_of(aim: &Aim, f: Failure) -> (r: Option<Failure>)
    ensures
        r.deep_view() == told_of(aim.deep_view(), f.deep_view()),
{
    match aim {
        Aim::Record(_) => Some(f),
        Aim::Target(_) => None,
    }
}

/// The values of a firing, and how many of the names it takes; or what stands in its way.
pub fn find_env(
    net: &Net,
    obs: &Observation,
    t: &CompiledTransition,
    aim: &Aim,
    matched: &StrSet,
    base: Env,
    names: &Vec<String>,
) -> (r: Result<(Env, usize), Option<Failure>>)
    requires
        aim_ok(obs.deep_view(), t.deep_view(), aim.deep_view()),
        names.len() == t.binds.len(),
    ensures
        match r {
            Ok(p) => env_for(
                net.deep_view(),
                obs.deep_view(),
                t.deep_view(),
                aim.deep_view(),
                matched.deep_view(),
                base.deep_view(),
                names.deep_view(),
            ) == Ok::<(Seq<(Str, Str)>, nat), Option<FailureView>>((p.0.deep_view(), p.1 as nat)),
            Err(f) => env_for(
                net.deep_view(),
                obs.deep_view(),
                t.deep_view(),
                aim.deep_view(),
                matched.deep_view(),
                base.deep_view(),
                names.deep_view(),
            ) == Err::<(Seq<(Str, Str)>, nat), Option<FailureView>>(f.deep_view()),
        },
{
    let bound = match bind_for(obs, t, aim, base) {
        Ok(e) => e,
        Err(f) => {
            return Err(f);
        },
    };
    match find_unattested(&t.attested, &bound, &net.evidence) {
        Some(p) => {
            return Err(
                tell_of(
                    aim,
                    Failure::NotAttested { transition: t.id.clone(), bind: p.0, value: p.1 },
                ),
            );
        },
        None => {},
    }
    let (env, used) = mint(bound, &t.binds, names);
    match &t.guard {
        Some(guard) => {
            if !eval_guard(guard.as_str(), &env) {
                return Err(
                    tell_of(
                        aim,
                        Failure::GuardFalse { transition: t.id.clone(), guard: guard.clone() },
                    ),
                );
            }
        },
        None => {},
    }
    match unmet_of(obs, t, aim, &env, matched) {
        Some(f) => Err(Some(f)),
        None => Ok((env, used)),
    }
}

fn take_step(
    net: &Net,
    obs: &Observation,
    s: &SearchState,
    t: &CompiledTransition,
    choice: &Vec<usize>,
    aim: &Aim,
    env: Env,
    fresh: usize,
) -> (r: SearchState)
    requires
        net_ok(net.deep_view()),
        state_ok(net.deep_view(), obs.deep_view(), s.deep_view()),
        transition_ok(t.deep_view(), net.deep_view().place_names.len() as int),
        valid_choice(s.deep_view().marking, t.deep_view().consumes, choice.deep_view()),
        aim_ok(obs.deep_view(), t.deep_view(), aim.deep_view()),
        s.depth < usize::MAX,
        s.slack_used < usize::MAX,
    ensures
        r.deep_view() == stepped(
            net.deep_view(),
            obs.deep_view(),
            s.deep_view(),
            t.deep_view(),
            choice.deep_view(),
            aim.deep_view(),
            env.deep_view(),
            fresh as nat,
        ),
{
    let marking = net.fire(&s.marking, t, choice, &env);
    let mut consumed = copy_flags(&s.consumed);
    let mut matched = s.matched.dup();
    let mut path = s.path.dup();
    let mut pledges = s.pledges.dup();
    match &t.guard {
        Some(g) => {
            push_to(&mut pledges, (g.clone(), env.dup()));
        },
        None => {},
    }
    let slack_used = match aim {
        Aim::Record(ix) => {
            let record = &obs.records[*ix];
            assert(obs.deep_view().records[*ix as int] == record.deep_view());
            consumed.set(*ix, true);
            let ids = effect_id_list(&record.effects);
            matched.insert_all(&ids);
            push_to(
                &mut path,
                WitnessStep {
                    transition: t.id.clone(),
                    principal: record.principal.clone(),
                    record: Some(record.id.clone()),
                    observed: true,
                    bindings: env,
                },
            );
            s.slack_used
        },
        Aim::Target(target) => {
            match target {
                Some(id) => {
                    let _ = matched.insert(id.clone());
                },
                None => {},
            }
            push_to(
                &mut path,
                WitnessStep {
                    transition: t.id.clone(),
                    principal: t.principal.clone(),
                    record: None,
                    observed: false,
                    bindings: env,
                },
            );
            s.slack_used + 1
        },
    };
    SearchState {
        marking,
        consumed,
        matched,
        slack_used,
        depth: s.depth + 1,
        fresh,
        path,
        pledges,
    }
}

/// Whether `aim` can be explained by a firing of `t` with the chosen tokens and these values for
/// the variables that nothing else binds.
pub fn can_step(
    net: &Net,
    obs: &Observation,
    s: &SearchState,
    t: &CompiledTransition,
    choice: &Vec<usize>,
    aim: &Aim,
    names: &Vec<String>,
) -> (r: bool)
    requires
        state_ok(net.deep_view(), obs.deep_view(), s.deep_view()),
        transition_ok(t.deep_view(), net.deep_view().place_names.len() as int),
        valid_choice(s.deep_view().marking, t.deep_view().consumes, choice.deep_view()),
        aim_ok(obs.deep_view(), t.deep_view(), aim.deep_view()),
        names.len() == t.binds.len(),
    ensures
        r == (attempt(
            net.deep_view(),
            obs.deep_view(),
            s.deep_view(),
            t.deep_view(),
            choice.deep_view(),
            aim.deep_view(),
            names.deep_view(),
        ) is Go),
{
    match net.merge_env(&s.marking, t, choice) {
        Some(base) => match find_env(net, obs, t, aim, &s.matched, base, names) {
            Ok(_) => true,
            Err(_) => false,
        },
        None => false,
    }
}

/// Tries to explain `aim` by a firing of `t` with the chosen tokens and these values for the
/// variables that nothing else binds.
pub fn try_step(
    net: &Net,
    obs: &Observation,
    s: &SearchState,
    t: &CompiledTransition,
    choice: &Vec<usize>,
    aim: &Aim,
    names: &Vec<String>,
) -> (r: Attempt)
    requires
        net_ok(net.deep_view()),
        state_ok(net.deep_view(), obs.deep_view(), s.deep_view()),
        transition_ok(t.deep_view(), net.deep_view().place_names.len() as int),
        valid_choice(s.deep_view().marking, t.deep_view().consumes, choice.deep_view()),
        aim_ok(obs.deep_view(), t.deep_view(), aim.deep_view()),
        names.len() == t.binds.len(),
        s.depth < usize::MAX,
        s.slack_used < usize::MAX,
    ensures
        r.deep_view() == attempt(
            net.deep_view(),
            obs.deep_view(),
            s.deep_view(),
            t.deep_view(),
            choice.deep_view(),
            aim.deep_view(),
            names.deep_view(),
        ),
{
    let base = match net.merge_env(&s.marking, t, choice) {
        Some(e) => e,
        None => {
            return Attempt::Skip;
        },
    };
    match find_env(net, obs, t, aim, &s.matched, base, names) {
        Err(None) => Attempt::Skip,
        Err(Some(f)) => Attempt::Fail(f),
        Ok(p) => Attempt::Go(take_step(net, obs, s, t, choice, aim, p.0, p.1)),
    }
}

// ---------------------------------------------------------------------------
// Which steps can be taken
// ---------------------------------------------------------------------------
/// Whether every record of `ps` is explained.
pub open spec fn all_consumed(consumed: Seq<bool>, ps: Seq<usize>) -> bool {
    forall|i: int| 0 <= i < ps.len() ==> consumed[(#[trigger] ps[i]) as int]
}

/// What can be said of explaining a record before any token is chosen.
pub enum CheckView {
    Skip,
    Fail(FailureView),
    Ready(CompiledTransitionView),
}

/// Whether record `ix` is next: it names a step, it is not explained yet, and what must come
/// before it is.
pub open spec fn is_next(
    obs: ObservationView,
    preds: Seq<Seq<usize>>,
    s: StateView,
    ix: int,
) -> bool {
    obs.records[ix].step is Some && !s.consumed[ix] && all_consumed(s.consumed, preds[ix])
}

/// What can be said of explaining record `ix` before any token is chosen: which transition it
/// names, whether the identity may fire it, whether it is enabled, and whether it emits as many
/// effects as were observed.
pub open spec fn record_check(
    net: NetView,
    obs: ObservationView,
    preds: Seq<Seq<usize>>,
    s: StateView,
    ix: int,
) -> CheckView {
    let record = obs.records[ix];
    if !is_next(obs, preds, s, ix) {
        CheckView::Skip
    } else {
        let step = record.step->Some_0;
        match compiled_from(net.transitions, step, 0) {
            None => CheckView::Fail(FailureView::UnknownStep { step }),
            Some(t) => if !admits(net.spec, t.principal, record.principal) {
                CheckView::Fail(
                    FailureView::IdentityMismatch {
                        step,
                        principal: record.principal,
                        expected: match lookup(net.spec.principals, t.principal) {
                            Some(p) => p.id_pattern,
                            None => Seq::empty(),
                        },
                    },
                )
            } else {
                match lacking_from(s.marking, t.consumes, 0) {
                    Some(p) => CheckView::Fail(
                        FailureView::NotEnabled { step, place: net.place_names[p] },
                    ),
                    None => if t.emits.len() != record.effects.len() {
                        CheckView::Fail(
                            FailureView::EffectShapeMismatch {
                                step,
                                detail: "transition emits "@ + decimal(t.emits.len())
                                    + " effect(s), record carries "@ + decimal(
                                    record.effects.len(),
                                ),
                            },
                        )
                    } else {
                        CheckView::Ready(t)
                    },
                }
            },
        }
    }
}

/// Whether every record of `preds` is explained.
pub fn preds_done(preds: &Vec<usize>, consumed: &Vec<bool>) -> (r: bool)
    requires
        within(preds.deep_view(), consumed.len() as int),
    ensures
        r == all_consumed(consumed@, preds.deep_view()),
{
    let ghost pv = preds.deep_view();
    let mut i: usize = 0;
    while i < preds.len()
        invariant
            i <= preds.len(),
            pv == preds.deep_view(),
            within(pv, consumed.len() as int),
            forall|j: int| 0 <= j < i ==> consumed@[(#[trigger] pv[j]) as int],
        decreases preds.len() - i,
    {
        assert(pv[i as int] == preds[i as int]);
        if !consumed[preds[i]] {
            return false;
        }
        i = i + 1;
    }
    true
}

/// Whether the order of the records is one of this observation.
pub open spec fn preds_ok(preds: Seq<Seq<usize>>, obs: ObservationView) -> bool {
    preds.len() == obs.records.len() && forall|i: int|
        0 <= i < preds.len() ==> within(#[trigger] preds[i], obs.records.len() as int)
}

/// The transition that can explain record `ix`, or what keeps it from being explained.
pub fn check_record<'a>(
    net: &'a Net,
    obs: &Observation,
    preds: &Vec<Vec<usize>>,
    s: &SearchState,
    ix: usize,
    faults: &mut Vec<Failure>,
) -> (r: Option<&'a CompiledTransition>)
    requires
        net_ok(net.deep_view()),
        state_ok(net.deep_view(), obs.deep_view(), s.deep_view()),
        preds_ok(preds.deep_view(), obs.deep_view()),
        ix < obs.records.len(),
    ensures
        match r {
            Some(t) => record_check(
                net.deep_view(),
                obs.deep_view(),
                preds.deep_view(),
                s.deep_view(),
                ix as int,
            ) == CheckView::Ready(t.deep_view()) && final(faults).deep_view() == old(
                faults,
            ).deep_view(),
            None => match record_check(
                net.deep_view(),
                obs.deep_view(),
                preds.deep_view(),
                s.deep_view(),
                ix as int,
            ) {
                CheckView::Ready(_) => false,
                CheckView::Skip => final(faults).deep_view() == old(faults).deep_view(),
                CheckView::Fail(f) => final(faults).deep_view() == old(faults).deep_view().push(f),
            },
        },
{
    let record = &obs.records[ix];
    assert(obs.deep_view().records[ix as int] == record.deep_view());
    let step = match &record.step {
        Some(step) => step,
        None => {
            return None;
        },
    };
    assert(preds.deep_view()[ix as int] == preds[ix as int].deep_view());
    if s.consumed[ix] || !preds_done(&preds[ix], &s.consumed) {
        return None;
    }
    let t = match net.transition_by_id(step.as_str()) {
        Some(t) => t,
        None => {
            push_to(faults, Failure::UnknownStep { step: step.clone() });
            return None;
        },
    };
    if !net.spec.principal_matches(t.principal.as_str(), record.principal.as_str()) {
        let expected = match net.spec.principals.get(t.principal.as_str()) {
            Some(p) => p.id_pattern.clone(),
            None => String::new(),
        };
        proof {
            if lookup(net.deep_view().spec.principals, t.principal@) is None {
                assert(expected@ =~= Seq::<char>::empty());
            }
        }
        push_to(
            faults,
            Failure::IdentityMismatch {
                step: step.clone(),
                principal: record.principal.clone(),
                expected,
            },
        );
        return None;
    }
    match net.missing_place(&s.marking, t) {
        Some(place) => {
            push_to(faults, Failure::NotEnabled { step: step.clone(), place });
            return None;
        },
        None => {},
    }
    if t.emits.len() != record.effects.len() {
        let a = decimal_text(t.emits.len() as u64);
        let b = decimal_text(record.effects.len() as u64);
        let head = crate::text::cat3(
            "transition emits ",
            a.as_str(),
            " effect(s), record carries ",
        );
        push_to(
            faults,
            Failure::EffectShapeMismatch {
                step: step.clone(),
                detail: crate::text::cat2(head.as_str(), b.as_str()),
            },
        );
        return None;
    }
    Some(t)
}

/// Whether a complete plane would have shown one of the first `n` effects.
pub open spec fn would_show(obs: ObservationView, emits: Seq<EffectTemplateView>) -> bool {
    exists|i: int| 0 <= i < emits.len() && carried(obs.planes, (#[trigger] emits[i]).effect)
}

/// Those of the first `n` effects without a step that are of this kind and not yet
/// explained.
pub open spec fn open_effects(
    es: Seq<EffectInstanceView>,
    kind: Str,
    matched: Seq<Str>,
    n: int,
) -> Seq<AimView>
    decreases n,
{
    if n <= 0 {
        Seq::empty()
    } else if es[n - 1].kind == kind && !matched.contains(es[n - 1].id) {
        open_effects(es, kind, matched, n - 1).push(
            AimView::Target(Some(es[n - 1].id)),
        )
    } else {
        open_effects(es, kind, matched, n - 1)
    }
}

/// What an unlogged firing may explain: nothing, or one of the effects without a step.
pub open spec fn targets_of(
    obs: ObservationView,
    s: StateView,
    t: CompiledTransitionView,
) -> Seq<AimView> {
    let none = seq![AimView::Target(None)];
    if t.emits.len() == 1 {
        let es = dangling_upto(obs.records, obs.records.len() as int);
        none + open_effects(es, t.emits[0].effect, s.matched, es.len() as int)
    } else {
        none
    }
}

/// Whether a firing of `t` can have gone unlogged here.
pub open spec fn may_go_unlogged(
    obs: ObservationView,
    s: StateView,
    t: CompiledTransitionView,
) -> bool {
    !would_show(obs, t.emits) && lacking_from(s.marking, t.consumes, 0) is None
}

/// Whether a complete plane would have shown one of the effects.
pub fn shows(obs: &Observation, emits: &Vec<EffectTemplate>) -> (r: bool)
    ensures
        r == would_show(obs.deep_view(), emits.deep_view()),
{
    let ghost ev = emits.deep_view();
    let mut i: usize = 0;
    while i < emits.len()
        invariant
            i <= emits.len(),
            ev == emits.deep_view(),
            forall|j: int|
                0 <= j < i ==> !carried(obs.deep_view().planes, (#[trigger] ev[j]).effect),
        decreases emits.len() - i,
    {
        assert(ev[i as int] == emits[i as int].deep_view());
        if obs.plane_carries(emits[i].effect.as_str()) {
            return true;
        }
        i = i + 1;
    }
    false
}

/// What an unlogged firing may explain.
pub fn find_targets(obs: &Observation, s: &SearchState, t: &CompiledTransition) -> (r: Vec<Aim>)
    ensures
        r.deep_view() == targets_of(obs.deep_view(), s.deep_view(), t.deep_view()),
{
    let mut out: Vec<Aim> = empty_vec();
    push_to(&mut out, Aim::Target(None));
    let ghost none = seq![AimView::Target(None)];
    assert(out.deep_view() =~= none);
    if t.emits.len() == 1 {
        let kind = &t.emits[0].effect;
        assert(t.deep_view().emits[0] == t.emits[0].deep_view());
        let es = obs.dangling_effects();
        let ghost ev = es.deep_view();
        let ghost mv = s.matched.deep_view();
        let mut i: usize = 0;
        assert(none + open_effects(ev, kind@, mv, 0) =~= none);
        while i < es.len()
            invariant
                i <= es.len(),
                ev == es.deep_view(),
                mv == s.matched.deep_view(),
                out.deep_view() == none + open_effects(ev, kind@, mv, i as int),
            decreases es.len() - i,
        {
            if same_text(es[i].kind.as_str(), kind.as_str()) && !s.matched.contains(
                es[i].id.as_str(),
            ) {
                push_to(&mut out, Aim::Target(Some(es[i].id.clone())));
            }
            assert(out.deep_view() =~= none + open_effects(ev, kind@, mv, i + 1));
            i = i + 1;
        }
    }
    out
}

// ---------------------------------------------------------------------------
// One step
// ---------------------------------------------------------------------------
/// Whether `t` can fire from `s` to `next` and explain `aim`: with some tokens, and with some
/// values for the variables that nothing else binds. A fresh binding may take any value.
pub open spec fn fires(
    net: NetView,
    obs: ObservationView,
    s: StateView,
    t: CompiledTransitionView,
    choice: Seq<usize>,
    aim: AimView,
    names: Seq<Str>,
    next: StateView,
) -> bool {
    &&& valid_choice(s.marking, t.consumes, choice)
    &&& names.len() == t.binds.len()
    &&& attempt(net, obs, s, t, choice, aim, names) matches AttemptView::Go(x) && next == (
    StateView { fresh: next.fresh, ..x })
}

/// Whether explaining record `ix` leads from `s` to `next`.
pub open spec fn by_record(
    net: NetView,
    obs: ObservationView,
    preds: Seq<Seq<usize>>,
    s: StateView,
    next: StateView,
    ix: int,
) -> bool {
    record_check(net, obs, preds, s, ix) matches CheckView::Ready(t) && exists|
        choice: Seq<usize>,
        names: Seq<Str>,
    | #[trigger]
        fires(net, obs, s, t, choice, AimView::Record(ix), names, next)
}

/// Whether an unlogged firing of transition `ti` leads from `s` to `next`.
pub open spec fn by_transition(
    net: NetView,
    obs: ObservationView,
    s: StateView,
    next: StateView,
    ti: int,
) -> bool {
    let t = net.transitions[ti];
    may_go_unlogged(obs, s, t) && exists|j: int, choice: Seq<usize>, names: Seq<Str>|
        0 <= j < targets_of(obs, s, t).len() && #[trigger] fires(
            net,
            obs,
            s,
            t,
            choice,
            targets_of(obs, s, t)[j],
            names,
            next,
        )
}

/// Whether one step leads from `s` to `next`: an observed one, or an unlogged one where there
/// is slack left.
pub open spec fn one_step(
    net: NetView,
    obs: ObservationView,
    preds: Seq<Seq<usize>>,
    slack: nat,
    s: StateView,
    next: StateView,
) -> bool {
    ||| exists|ix: int|
        0 <= ix < obs.records.len() && #[trigger] by_record(net, obs, preds, s, next, ix)
    ||| s.slack_used < slack && exists|ti: int|
        0 <= ti < net.transitions.len() && #[trigger] by_transition(net, obs, s, next, ti)
}

pub proof fn lemma_concat_contains<A>(a: Seq<A>, b: Seq<A>, x: A)
    ensures
        (a + b).contains(x) <==> a.contains(x) || b.contains(x),
{
    if a.contains(x) {
        let i = a.index_of(x);
        assert((a + b)[i] == x);
    }
    if b.contains(x) {
        let i = b.index_of(x);
        assert((a + b)[a.len() + i] == x);
    }
    if (a + b).contains(x) {
        let i = (a + b).index_of(x);
        if i < a.len() {
            assert(a[i] == x);
        } else {
            assert(b[i - a.len()] == x);
        }
    }
}

pub proof fn lemma_push_contains<A>(a: Seq<A>, y: A, x: A)
    ensures
        a.push(y).contains(x) <==> a.contains(x) || x == y,
{
    assert(a.push(y) =~= a + seq![y]);
    lemma_concat_contains(a, seq![y], x);
    assert(seq![y][0] == y);
    assert(seq![y].contains(x) <==> x == y);
}

/// What one step changes: it is one step deeper, uses at most one unlogged step, and keeps places
/// and records.
pub proof fn lemma_one_step(
    net: NetView,
    obs: ObservationView,
    preds: Seq<Seq<usize>>,
    slack: nat,
    s: StateView,
    next: StateView,
)
    requires
        net_ok(net),
        state_ok(net, obs, s),
        one_step(net, obs, preds, slack, s, next),
    ensures
        state_ok(net, obs, next),
        next.depth == s.depth + 1,
        s.slack_used <= next.slack_used <= s.slack_used + 1,
        next.slack_used > s.slack_used ==> s.slack_used < slack,
{
    let n = net.transitions.len() as int;
    if exists|ix: int|
        0 <= ix < obs.records.len() && #[trigger] by_record(net, obs, preds, s, next, ix) {
        let ix = choose|ix: int|
            0 <= ix < obs.records.len() && #[trigger] by_record(net, obs, preds, s, next, ix);
        match record_check(net, obs, preds, s, ix) {
            CheckView::Ready(t) => {
                let step = obs.records[ix].step->Some_0;
                lemma_compiled_from(net.transitions, step, 0);
                let j = choose|j: int| 0 <= j < n && #[trigger] net.transitions[j] == t;
                assert(transition_ok(net.transitions[j], net.place_names.len() as int));
                let (choice, names) = choose|choice: Seq<usize>, names: Seq<Str>| #[trigger]
                    fires(net, obs, s, t, choice, AimView::Record(ix), names, next);
                lemma_fires(net, obs, s, t, choice, AimView::Record(ix), names, next);
            },
            _ => {},
        }
    } else {
        let ti = choose|ti: int| 0 <= ti < n && #[trigger] by_transition(net, obs, s, next, ti);
        let t = net.transitions[ti];
        let (j, choice, names) = choose|j: int, choice: Seq<usize>, names: Seq<Str>|
            0 <= j < targets_of(obs, s, t).len() && #[trigger] fires(
                net,
                obs,
                s,
                t,
                choice,
                targets_of(obs, s, t)[j],
                names,
                next,
            );
        lemma_targets(obs, s, t, j);
        lemma_fires(net, obs, s, t, choice, targets_of(obs, s, t)[j], names, next);
    }
}

/// What a firing changes.
pub proof fn lemma_fires(
    net: NetView,
    obs: ObservationView,
    s: StateView,
    t: CompiledTransitionView,
    choice: Seq<usize>,
    aim: AimView,
    names: Seq<Str>,
    next: StateView,
)
    requires
        net_ok(net),
        state_ok(net, obs, s),
        transition_ok(t, net.place_names.len() as int),
        aim matches AimView::Record(ix) ==> 0 <= ix < obs.records.len(),
        fires(net, obs, s, t, choice, aim, names, next),
    ensures
        state_ok(net, obs, next),
        next.depth == s.depth + 1,
        next.slack_used == s.slack_used + (if aim is Record {
            0nat
        } else {
            1nat
        }),
{
    let base = joined_tokens(s.marking, t.consumes, choice, t.consumes.len() as int)->Some_0;
    let env = env_for(net, obs, t, aim, s.matched, base, names)->Ok_0.0;
    lemma_fired_len(net, s.marking, t, choice, env);
}

/// An unlogged firing explains no record, and an effect only where it emits one.
pub proof fn lemma_targets(obs: ObservationView, s: StateView, t: CompiledTransitionView, j: int)
    requires
        0 <= j < targets_of(obs, s, t).len(),
    ensures
        targets_of(obs, s, t)[j] is Target,
        aim_ok(obs, t, targets_of(obs, s, t)[j]),
{
    let es = dangling_upto(obs.records, obs.records.len() as int);
    if t.emits.len() == 1 {
        lemma_open_effects(es, t.emits[0].effect, s.matched, es.len() as int);
        if j > 0 {
            let open = open_effects(es, t.emits[0].effect, s.matched, es.len() as int);
            assert(targets_of(obs, s, t)[j] == open[j - 1]);
        }
    }
}

proof fn lemma_open_effects(es: Seq<EffectInstanceView>, kind: Str, matched: Seq<Str>, n: int)
    ensures
        forall|j: int|
            0 <= j < open_effects(es, kind, matched, n).len() ==> #[trigger] open_effects(
                es,
                kind,
                matched,
                n,
            )[j] is Target,
    decreases n,
{
    if n > 0 {
        lemma_open_effects(es, kind, matched, n - 1);
    }
}

} // verus!
