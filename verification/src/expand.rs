//! What the search looks at from a state. A value that nothing binds gets a minted name; where
//! the step cannot be taken so, the search tries every value that the minted names at hand may
//! turn out to stand for.

use crate::guess::{
    args_upto, as_map, chosen_marks, chosen_plains, distinct, few_guesses, guess_count, guess_ok,
    guesses, lemma_guess_complete, lemma_guess_sound, list_args, list_guesses, mark_of, rename_env,
    rename_marking, rename_values, renamed_env, renamed_marking, renamed_pledges, renamed_values,
    split_chosen, symbol, symbol_text,
};
use crate::matching::{eval_guard, guard_holds, guard_literals, literals_of};
use crate::net::{
    add_token, all_choices, capped, joined_tokens, lemma_all_choices, lemma_compiled_from,
    lemma_joined_tokens_none, net_ok, tokens_there, too_many_choices, transition_ok, valid_choice,
    within, CompiledTransition, CompiledTransitionView, Env, Failure, FailureView, Marking, Net,
    NetView, CHOICE_LIMIT,
};
use crate::observation::{
    effect_named, EffectInstance, EffectInstanceView, Observation, ObservationView,
};
use crate::ordered::{
    append_to, empty_vec, lookup, push_to, sorted_set, values_of, vec_contains, Dup, Same, StrMap,
};
use crate::search::{
    aim_ok, all_gaps, attempt, can_step, check_record, copy_flags, find_env, find_targets, gaps_of,
    growth, ids_of, lemma_concat_contains, lemma_max_growth, lemma_push_contains, lemma_spent_on,
    lemma_targets, may_go_unlogged, preds_ok, record_check, room_for, shows, spend, spent_on,
    state_ok, targets_of, try_step, Aim, AimView, Attempt, AttemptView, CheckView, SearchState,
    StateView, WitnessStep, WitnessStepView,
};
use crate::text::Str;
use vstd::prelude::*;

verus! {

// ---------------------------------------------------------------------------
// What a minted name may stand for
// ---------------------------------------------------------------------------
/// The effects that a firing is to explain.
pub open spec fn aim_effects(obs: ObservationView, aim: AimView) -> Seq<EffectInstanceView> {
    match aim {
        AimView::Record(ix) => obs.records[ix].effects,
        AimView::Target(Some(id)) => match effect_named(obs.records, id) {
            Some(e) => seq![e],
            None => Seq::empty(),
        },
        AimView::Target(None) => Seq::empty(),
    }
}

/// The arguments of the effects to which the first `n` edges lead from these effects.
pub open spec fn linked_values(obs: ObservationView, ids: Seq<Str>, n: int) -> Seq<Str>
    decreases n,
{
    if n <= 0 {
        Seq::empty()
    } else {
        let rest = linked_values(obs, ids, n - 1);
        if ids.contains(obs.edges[n - 1].from) {
            match effect_named(obs.records, obs.edges[n - 1].to) {
                Some(e) => rest + values_of(e.args),
                None => rest,
            }
        } else {
            rest
        }
    }
}

/// The values that a firing is held against: those of the effects that it is to explain, those
/// of the effects that these are linked to, the attested ones, and the literals of its guard.
pub open spec fn relevant(
    net: NetView,
    obs: ObservationView,
    t: CompiledTransitionView,
    aim: AimView,
) -> Seq<Str> {
    let es = aim_effects(obs, aim);
    args_upto(es, es.len() as int) + linked_values(obs, ids_of(es), obs.edges.len() as int) + (
    if t.attested.len() == 0 {
        Seq::empty()
    } else {
        net.evidence
    }) + guard_literals(t.guard)
}

fn find_aim_effects<'a>(obs: &'a Observation, aim: &Aim) -> (r: Vec<&'a EffectInstance>)
    requires
        aim matches Aim::Record(ix) ==> ix < obs.records.len(),
    ensures
        r.deep_view() == aim_effects(obs.deep_view(), aim.deep_view()),
{
    let mut out: Vec<&'a EffectInstance> = empty_vec();
    match aim {
        Aim::Record(ix) => {
            let es = &obs.records[*ix].effects;
            let ghost ev = obs.deep_view().records[*ix as int].effects;
            assert(ev == es.deep_view());
            let mut i: usize = 0;
            while i < es.len()
                invariant
                    i <= es.len(),
                    ev == es.deep_view(),
                    out.deep_view() =~= ev.take(i as int),
                decreases es.len() - i,
            {
                assert(ev[i as int] == es[i as int].deep_view());
                push_to(&mut out, &es[i]);
                i = i + 1;
            }
            assert(ev.take(ev.len() as int) =~= ev);
            assert(es.len() == ev.len());
        },
        Aim::Target(Some(id)) => {
            match obs.effect(id.as_str()) {
                Some(e) => {
                    push_to(&mut out, e);
                },
                None => {},
            }
            assert(out.deep_view() =~= aim_effects(obs.deep_view(), aim.deep_view()));
        },
        Aim::Target(None) => {},
    }
    out
}

fn list_ids(es: &Vec<&EffectInstance>) -> (r: Vec<String>)
    ensures
        r.deep_view() == ids_of(es.deep_view()),
{
    let mut out: Vec<String> = empty_vec();
    let mut i: usize = 0;
    while i < es.len()
        invariant
            i <= es.len(),
            out.deep_view() =~= ids_of(es.deep_view()).take(i as int),
        decreases es.len() - i,
    {
        push_to(&mut out, es[i].id.clone());
        i = i + 1;
    }
    assert(ids_of(es.deep_view()).take(i as int) =~= ids_of(es.deep_view()));
    out
}

fn list_arguments(e: &EffectInstance) -> (r: Vec<String>)
    ensures
        r.deep_view() == values_of(e.deep_view().args),
{
    let ghost mv = e.args.deep_view();
    let mut out: Vec<String> = empty_vec();
    let mut i: usize = 0;
    while i < e.args.len()
        invariant
            i <= mv.len(),
            mv == e.args.deep_view(),
            out.deep_view() =~= values_of(mv).take(i as int),
        decreases mv.len() - i,
    {
        push_to(&mut out, e.args.value_at(i).clone());
        i = i + 1;
    }
    assert(values_of(mv).take(i as int) =~= values_of(mv));
    out
}

fn list_linked(obs: &Observation, ids: &Vec<String>) -> (r: Vec<String>)
    ensures
        r.deep_view() == linked_values(
            obs.deep_view(),
            ids.deep_view(),
            obs.deep_view().edges.len() as int,
        ),
{
    let ghost ov = obs.deep_view();
    let ghost iv = ids.deep_view();
    let mut out: Vec<String> = empty_vec();
    let mut i: usize = 0;
    while i < obs.edges.len()
        invariant
            i <= obs.edges.len(),
            ov == obs.deep_view(),
            iv == ids.deep_view(),
            out.deep_view() == linked_values(ov, iv, i as int),
        decreases obs.edges.len() - i,
    {
        assert(ov.edges[i as int] == obs.edges[i as int].deep_view());
        if vec_contains(ids, obs.edges[i].from.as_str()) {
            match obs.effect(obs.edges[i].to.as_str()) {
                Some(e) => {
                    append_to(&mut out, list_arguments(e));
                },
                None => {},
            }
        }
        i = i + 1;
    }
    assert(obs.edges.len() == ov.edges.len());
    out
}

fn list_relevant(net: &Net, obs: &Observation, t: &CompiledTransition, aim: &Aim) -> (r: Vec<
    String,
>)
    requires
        aim matches Aim::Record(ix) ==> ix < obs.records.len(),
    ensures
        r.deep_view() == relevant(
            net.deep_view(),
            obs.deep_view(),
            t.deep_view(),
            aim.deep_view(),
        ),
{
    let es = find_aim_effects(obs, aim);
    let ghost ev = es.deep_view();
    let ids = list_ids(&es);
    let mut out = list_args(&es);
    append_to(&mut out, list_linked(obs, &ids));
    assert(t.attested.len() == t.deep_view().attested.len());
    if t.attested.len() != 0 {
        append_to(&mut out, net.evidence.to_vec());
    }
    append_to(&mut out, literals_of(&t.guard));
    assert(out.deep_view() =~= relevant(
        net.deep_view(),
        obs.deep_view(),
        t.deep_view(),
        aim.deep_view(),
    ));
    out
}

// ---------------------------------------------------------------------------
// States under a guess
// ---------------------------------------------------------------------------
/// A path with its values renamed.
pub open spec fn renamed_path(
    r: Map<Str, Str>,
    path: Seq<WitnessStepView>,
) -> Seq<WitnessStepView> {
    Seq::new(
        path.len(),
        |i: int| WitnessStepView { bindings: renamed_env(r, path[i].bindings), ..path[i] },
    )
}

/// A state with its values renamed.
pub open spec fn refined(r: Map<Str, Str>, s: StateView) -> StateView {
    StateView {
        marking: renamed_marking(r, s.marking),
        path: renamed_path(r, s.path),
        pledges: renamed_pledges(r, s.pledges),
        ..s
    }
}

/// Whether the guards hold for their values.
pub open spec fn pledges_hold(ps: Seq<(Str, Seq<(Str, Str)>)>) -> bool {
    forall|i: int| 0 <= i < ps.len() ==> guard_holds((#[trigger] ps[i]).0, ps[i].1)
}

fn rename_path(pairs: &StrMap<String>, path: &Vec<WitnessStep>) -> (r: Vec<WitnessStep>)
    ensures
        r.deep_view() == renamed_path(as_map(pairs.deep_view()), path.deep_view()),
{
    let ghost m = as_map(pairs.deep_view());
    let mut out: Vec<WitnessStep> = empty_vec();
    let mut i: usize = 0;
    while i < path.len()
        invariant
            i <= path.len(),
            m == as_map(pairs.deep_view()),
            out.deep_view() =~= renamed_path(m, path.deep_view()).take(i as int),
        decreases path.len() - i,
    {
        assert(path.deep_view()[i as int] == path[i as int].deep_view());
        push_to(
            &mut out,
            WitnessStep {
                transition: path[i].transition.clone(),
                principal: path[i].principal.clone(),
                record: path[i].record.dup(),
                observed: path[i].observed,
                bindings: rename_env(pairs, &path[i].bindings),
            },
        );
        i = i + 1;
    }
    assert(renamed_path(m, path.deep_view()).take(i as int) =~= renamed_path(m, path.deep_view()));
    out
}

fn rename_pledges(pairs: &StrMap<String>, ps: &Vec<(String, Env)>) -> (r: Vec<(String, Env)>)
    ensures
        r.deep_view() == renamed_pledges(as_map(pairs.deep_view()), ps.deep_view()),
{
    let ghost m = as_map(pairs.deep_view());
    let mut out: Vec<(String, Env)> = empty_vec();
    let mut i: usize = 0;
    while i < ps.len()
        invariant
            i <= ps.len(),
            m == as_map(pairs.deep_view()),
            out.deep_view() =~= renamed_pledges(m, ps.deep_view()).take(i as int),
        decreases ps.len() - i,
    {
        assert(ps.deep_view()[i as int] == ps[i as int].deep_view());
        push_to(&mut out, (ps[i].0.clone(), rename_env(pairs, &ps[i].1)));
        i = i + 1;
    }
    assert(renamed_pledges(m, ps.deep_view()).take(i as int) =~= renamed_pledges(m, ps.deep_view()));
    out
}

fn keeps_pledges(ps: &Vec<(String, Env)>) -> (r: bool)
    ensures
        r == pledges_hold(ps.deep_view()),
{
    let ghost pv = ps.deep_view();
    let mut i: usize = 0;
    while i < ps.len()
        invariant
            i <= ps.len(),
            pv == ps.deep_view(),
            forall|j: int| 0 <= j < i ==> guard_holds((#[trigger] pv[j]).0, pv[j].1),
        decreases ps.len() - i,
    {
        assert(pv[i as int] == ps[i as int].deep_view());
        if !eval_guard(ps[i].0.as_str(), &ps[i].1) {
            return false;
        }
        i = i + 1;
    }
    assert(ps.len() == pv.len());
    true
}

// ---------------------------------------------------------------------------
// One choice of tokens
// ---------------------------------------------------------------------------
/// What a search finds: states, reasons why there are not more, and whether something was left
/// out because there was too much of it.
pub struct HaulView {
    pub states: Seq<StateView>,
    pub faults: Seq<FailureView>,
    pub cut: bool,
}

/// What a search finds.
pub struct Haul {
    pub states: Vec<SearchState>,
    pub faults: Vec<Failure>,
    pub cut: bool,
}

impl DeepView for Haul {
    type V = HaulView;

    open spec fn deep_view(&self) -> HaulView {
        HaulView {
            states: self.states.deep_view(),
            faults: self.faults.deep_view(),
            cut: self.cut,
        }
    }
}

/// Nothing.
pub open spec fn no_haul() -> HaulView {
    HaulView { states: Seq::empty(), faults: Seq::empty(), cut: false }
}

/// One finding after another.
pub open spec fn merged(a: HaulView, b: HaulView) -> HaulView {
    HaulView { states: a.states + b.states, faults: a.faults + b.faults, cut: a.cut || b.cut }
}

/// The choices of tokens that are looked at.
pub open spec fn looked_at(s: StateView, t: CompiledTransitionView) -> Seq<Seq<usize>> {
    capped(all_choices(s.marking, t.consumes, Seq::empty()))
}

/// How many values have been minted before a firing mints its own.
pub open spec fn start_of(
    s: StateView,
    t: CompiledTransitionView,
    choice: Seq<usize>,
    aim: AimView,
) -> nat {
    match aim {
        AimView::Target(None) => match joined_tokens(
            s.marking,
            t.consumes,
            choice,
            t.consumes.len() as int,
        ) {
            Some(base) => spent_on(t.emits, base, s.fresh, t.emits.len() as int),
            None => s.fresh,
        },
        _ => s.fresh,
    }
}

/// The names of the next `n` values.
pub open spec fn next_names(mark: Str, start: nat, n: nat) -> Seq<Str> {
    Seq::new(n, |i: int| symbol(mark, (start + i + 1) as nat))
}

/// The minted names that a firing may learn something of: those in the chosen tokens and its
/// own.
pub open spec fn unknowns(
    mark: Str,
    s: StateView,
    t: CompiledTransitionView,
    choice: Seq<usize>,
    names: Seq<Str>,
) -> Seq<Str> {
    sorted_set(
        chosen_marks(mark, s.marking, t.consumes, choice, t.consumes.len() as int) + names,
    )
}

/// The values that such a name may turn out to stand for.
pub open spec fn candidates(
    net: NetView,
    obs: ObservationView,
    mark: Str,
    s: StateView,
    t: CompiledTransitionView,
    choice: Seq<usize>,
    aim: AimView,
) -> Seq<Str> {
    sorted_set(
        relevant(net, obs, t, aim) + chosen_plains(
            mark,
            s.marking,
            t.consumes,
            choice,
            t.consumes.len() as int,
        ),
    )
}

/// Where a firing leads if the names stand for what `r` says.
pub open spec fn tried(
    net: NetView,
    obs: ObservationView,
    s: StateView,
    t: CompiledTransitionView,
    choice: Seq<usize>,
    aim: AimView,
    names: Seq<Str>,
    r: Map<Str, Str>,
) -> Option<StateView> {
    let c = refined(r, s);
    if pledges_hold(c.pledges) {
        match attempt(net, obs, c, t, choice, aim, renamed_values(r, names)) {
            AttemptView::Go(x) => Some(x),
            _ => None,
        }
    } else {
        None
    }
}

/// Whether a firing with the chosen tokens goes with minted names alone.
pub open spec fn goes(
    net: NetView,
    obs: ObservationView,
    mark: Str,
    s: StateView,
    t: CompiledTransitionView,
    choice: Seq<usize>,
    aim: AimView,
) -> bool {
    let names = next_names(mark, start_of(s, t, choice, aim), t.binds.len());
    attempt(net, obs, s, t, choice, aim, names) is Go
}

/// Those of the first `n` choices that go with minted names alone.
pub open spec fn going(
    net: NetView,
    obs: ObservationView,
    mark: Str,
    s: StateView,
    t: CompiledTransitionView,
    aim: AimView,
    n: int,
) -> Seq<Seq<usize>>
    decreases n,
{
    if n <= 0 {
        Seq::empty()
    } else {
        let rest = going(net, obs, mark, s, t, aim, n - 1);
        if goes(net, obs, mark, s, t, looked_at(s, t)[n - 1], aim) {
            rest.push(looked_at(s, t)[n - 1])
        } else {
            rest
        }
    }
}

/// Whether two choices take the same tokens if the names stand for what `r` says.
pub open spec fn same_choice(
    r: Map<Str, Str>,
    m: Seq<Seq<Seq<(Str, Str)>>>,
    consumes: Seq<usize>,
    c: Seq<usize>,
    d: Seq<usize>,
) -> bool {
    forall|k: int|
        0 <= k < consumes.len() ==> renamed_env(
            r,
            m[(#[trigger] consumes[k]) as int][c[k] as int],
        ) == renamed_env(r, m[consumes[k] as int][d[k] as int])
}

/// Whether a guess makes a choice the same as one of these.
pub open spec fn spared(
    r: Map<Str, Str>,
    s: StateView,
    t: CompiledTransitionView,
    choice: Seq<usize>,
    others: Seq<Seq<usize>>,
) -> bool {
    exists|j: int|
        0 <= j < others.len() && same_choice(
            r,
            s.marking,
            t.consumes,
            choice,
            #[trigger] others[j],
        )
}

/// Where a firing leads under those of the first `n` guesses that do not make the choice the same
/// as another that needs no guess.
pub open spec fn tried_upto(
    net: NetView,
    obs: ObservationView,
    s: StateView,
    t: CompiledTransitionView,
    choice: Seq<usize>,
    aim: AimView,
    names: Seq<Str>,
    others: Seq<Seq<usize>>,
    fresh: nat,
    gs: Seq<Seq<(Str, Str)>>,
    n: int,
) -> Seq<StateView>
    decreases n,
{
    if n <= 0 {
        Seq::empty()
    } else {
        let rest = tried_upto(net, obs, s, t, choice, aim, names, others, fresh, gs, n - 1);
        if spared(as_map(gs[n - 1]), s, t, choice, others) {
            rest
        } else {
            match tried(net, obs, s, t, choice, aim, names, as_map(gs[n - 1])) {
                Some(x) => rest.push(StateView { fresh, ..x }),
                None => rest,
            }
        }
    }
}

/// Why an attempt failed, if that is worth telling.
pub open spec fn faults_of(a: AttemptView) -> Seq<FailureView> {
    match a {
        AttemptView::Fail(f) => seq![f],
        _ => Seq::empty(),
    }
}

/// What comes of the guesses where the names alone, `names` among them, do not do.
pub open spec fn guessed(
    net: NetView,
    obs: ObservationView,
    mark: Str,
    s: StateView,
    t: CompiledTransitionView,
    choice: Seq<usize>,
    aim: AimView,
    start: nat,
    names: Seq<Str>,
    others: Seq<Seq<usize>>,
    faults: Seq<FailureView>,
) -> HaulView {
    let un = unknowns(mark, s, t, choice, names);
    let vs = candidates(net, obs, mark, s, t, choice, aim) + un;
    if guess_count(vs.len(), un.len()) is None {
        HaulView { states: Seq::empty(), faults, cut: true }
    } else {
        let gs = guesses(un, vs, un.len() as int);
        let found = tried_upto(
            net,
            obs,
            s,
            t,
            choice,
            aim,
            names,
            others,
            start + t.binds.len(),
            gs,
            gs.len() as int,
        );
        HaulView {
            states: found,
            faults: if found.len() == 0 {
                faults
            } else {
                Seq::empty()
            },
            cut: false,
        }
    }
}

/// What comes of explaining `aim` by a firing of `t` with the chosen tokens.
#[verifier::opaque]
pub open spec fn outcome(
    net: NetView,
    obs: ObservationView,
    mark: Str,
    s: StateView,
    t: CompiledTransitionView,
    choice: Seq<usize>,
    aim: AimView,
) -> HaulView {
    let start = start_of(s, t, choice, aim);
    let names = next_names(mark, start, t.binds.len());
    let a = attempt(net, obs, s, t, choice, aim, names);
    match a {
        AttemptView::Go(x) => HaulView {
            states: seq![StateView { fresh: start + x.fresh, ..x }],
            faults: Seq::empty(),
            cut: false,
        },
        _ => guessed(
            net,
            obs,
            mark,
            s,
            t,
            choice,
            aim,
            start,
            names,
            going(net, obs, mark, s, t, aim, looked_at(s, t).len() as int),
            faults_of(a),
        ),
    }
}

fn find_start(
    net: &Net,
    s: &SearchState,
    t: &CompiledTransition,
    choice: &Vec<usize>,
    aim: &Aim,
) -> (r: usize)
    requires
        net_ok(net.deep_view()),
        s.deep_view().marking.len() == net.deep_view().place_names.len(),
        transition_ok(t.deep_view(), net.deep_view().place_names.len() as int),
        valid_choice(s.deep_view().marking, t.deep_view().consumes, choice.deep_view()),
        s.fresh + growth(t.deep_view()) <= usize::MAX,
    ensures
        r as nat == start_of(s.deep_view(), t.deep_view(), choice.deep_view(), aim.deep_view()),
        r + t.binds.len() <= s.fresh + growth(t.deep_view()),
{
    assert(t.binds.len() == t.deep_view().binds.len());
    match aim {
        Aim::Target(None) => {
            match net.merge_env(&s.marking, t, choice) {
                Some(base) => {
                    proof {
                        lemma_spent_on(
                            t.emits.deep_view(),
                            base.deep_view(),
                            s.fresh as nat,
                            t.emits.deep_view().len() as int,
                        );
                    }
                    spend(&t.emits, &base, s.fresh)
                },
                None => s.fresh,
            }
        },
        _ => s.fresh,
    }
}

fn list_names(mark: &str, start: usize, n: usize) -> (r: Vec<String>)
    requires
        start + n <= usize::MAX,
    ensures
        r.deep_view() == next_names(mark@, start as nat, n as nat),
        r.len() == n,
{
    let mut out: Vec<String> = empty_vec();
    assert(out.len() == out.deep_view().len());
    let mut i: usize = 0;
    while i < n
        invariant
            i <= n,
            start + n <= usize::MAX,
            out.len() == i,
            out.deep_view() =~= next_names(mark@, start as nat, i as nat),
        decreases n - i,
    {
        push_to(&mut out, symbol_text(mark, start + i + 1));
        assert(out.len() == out.deep_view().len());
        i = i + 1;
    }
    out
}

fn merge_renamed(
    pairs: &StrMap<String>,
    marking: &Marking,
    t: &CompiledTransition,
    choice: &Vec<usize>,
) -> (r: Option<Env>)
    requires
        within(t.deep_view().consumes, marking.len() as int),
        tokens_there(marking.deep_view(), t.deep_view().consumes, choice.deep_view()),
    ensures
        r.deep_view() == joined_tokens(
            renamed_marking(as_map(pairs.deep_view()), marking.deep_view()),
            t.deep_view().consumes,
            choice.deep_view(),
            t.deep_view().consumes.len() as int,
        ),
{
    let ghost m = marking.deep_view();
    let ghost rm = renamed_marking(as_map(pairs.deep_view()), m);
    let ghost cs = t.consumes.deep_view();
    let ghost ch = choice.deep_view();
    let mut env: Env = StrMap::new();
    let mut s: usize = 0;
    while s < t.consumes.len()
        invariant
            s <= t.consumes.len(),
            m == marking.deep_view(),
            rm == renamed_marking(as_map(pairs.deep_view()), m),
            cs == t.consumes.deep_view(),
            ch == choice.deep_view(),
            within(cs, marking.len() as int),
            tokens_there(m, cs, ch),
            joined_tokens(rm, cs, ch, s as int) == Some(env.deep_view()),
        decreases t.consumes.len() - s,
    {
        let place = t.consumes[s];
        assert(cs[s as int] == place);
        assert(ch[s as int] < m[place as int].len());
        let k = choice[s];
        assert(m[place as int] == marking[place as int].deep_view());
        let token = rename_env(pairs, &marking[place][k]);
        assert(rm[place as int][k as int] == token.deep_view());
        match add_token(env, &token) {
            Some(e) => {
                env = e;
            },
            None => {
                proof {
                    assert(joined_tokens(rm, cs, ch, s + 1) is None);
                    lemma_joined_tokens_none(rm, cs, ch, s + 1, cs.len() as int);
                }
                return None;
            },
        }
        s = s + 1;
    }
    Some(env)
}

fn try_guess(
    net: &Net,
    obs: &Observation,
    s: &SearchState,
    t: &CompiledTransition,
    choice: &Vec<usize>,
    aim: &Aim,
    names: &Vec<String>,
    pairs: &StrMap<String>,
) -> (r: Option<SearchState>)
    requires
        net_ok(net.deep_view()),
        state_ok(net.deep_view(), obs.deep_view(), s.deep_view()),
        transition_ok(t.deep_view(), net.deep_view().place_names.len() as int),
        valid_choice(s.deep_view().marking, t.deep_view().consumes, choice.deep_view()),
        aim_ok(obs.deep_view(), t.deep_view(), aim.deep_view()),
        names.len() == t.binds.len(),
        s.depth < usize::MAX,
        s.slack_used < usize::MAX,
    ensures
        r.deep_view() == tried(
            net.deep_view(),
            obs.deep_view(),
            s.deep_view(),
            t.deep_view(),
            choice.deep_view(),
            aim.deep_view(),
            names.deep_view(),
            as_map(pairs.deep_view()),
        ),
{
    let ghost r = as_map(pairs.deep_view());
    let own = rename_values(pairs, names);
    assert(own.len() == own.deep_view().len() && names.len() == names.deep_view().len());
    let base = match merge_renamed(pairs, &s.marking, t, choice) {
        Some(e) => e,
        None => {
            return None;
        },
    };
    match find_env(net, obs, t, aim, &s.matched, base, &own) {
        Ok(_) => {},
        Err(_) => {
            return None;
        },
    }
    let pledges = rename_pledges(pairs, &s.pledges);
    if !keeps_pledges(&pledges) {
        return None;
    }
    let c = SearchState {
        marking: rename_marking(pairs, &s.marking),
        path: rename_path(pairs, &s.path),
        pledges,
        consumed: copy_flags(&s.consumed),
        matched: s.matched.dup(),
        slack_used: s.slack_used,
        depth: s.depth,
        fresh: s.fresh,
    };
    proof {
        let m = s.deep_view().marking;
        let cs = t.deep_view().consumes;
        let ch = choice.deep_view();
        assert forall|k: int| 0 <= k < ch.len() implies #[trigger] ch[k] < renamed_marking(
            r,
            m,
        )[cs[k] as int].len() by {
            assert(cs[k] < m.len());
        }
        assert(valid_choice(c.deep_view().marking, cs, ch));
    }
    assert(c.deep_view() == refined(r, s.deep_view()));
    match try_step(net, obs, &c, t, choice, aim, &own) {
        Attempt::Go(x) => Some(x),
        _ => None,
    }
}

fn is_same_choice(
    pairs: &StrMap<String>,
    s: &SearchState,
    t: &CompiledTransition,
    c: &Vec<usize>,
    d: &Vec<usize>,
) -> (r: bool)
    requires
        within(t.deep_view().consumes, s.deep_view().marking.len() as int),
        valid_choice(s.deep_view().marking, t.deep_view().consumes, c.deep_view()),
        valid_choice(s.deep_view().marking, t.deep_view().consumes, d.deep_view()),
    ensures
        r == same_choice(
            as_map(pairs.deep_view()),
            s.deep_view().marking,
            t.deep_view().consumes,
            c.deep_view(),
            d.deep_view(),
        ),
{
    let ghost r = as_map(pairs.deep_view());
    let ghost m = s.deep_view().marking;
    let ghost cs = t.deep_view().consumes;
    let ghost cv = c.deep_view();
    let ghost dv = d.deep_view();
    assert(t.consumes.len() == cs.len() && c.len() == cv.len() && d.len() == dv.len());
    assert(s.marking.len() == m.len());
    let mut k: usize = 0;
    while k < t.consumes.len()
        invariant
            k <= t.consumes.len(),
            r == as_map(pairs.deep_view()),
            m == s.deep_view().marking,
            cs == t.deep_view().consumes,
            cv == c.deep_view(),
            dv == d.deep_view(),
            t.consumes.len() == cs.len(),
            c.len() == cs.len(),
            d.len() == cs.len(),
            s.marking.len() == m.len(),
            within(cs, m.len() as int),
            valid_choice(m, cs, cv),
            valid_choice(m, cs, dv),
            forall|j: int|
                0 <= j < k ==> renamed_env(r, m[(#[trigger] cs[j]) as int][cv[j] as int])
                    == renamed_env(r, m[cs[j] as int][dv[j] as int]),
        decreases t.consumes.len() - k,
    {
        assert(cs[k as int] == t.consumes[k as int] && cv[k as int] == c[k as int] && dv[k as int]
            == d[k as int]);
        assert(m[cs[k as int] as int] == s.marking[t.consumes[k as int] as int].deep_view());
        assert(cv[k as int] < m[cs[k as int] as int].len() && dv[k as int] < m[cs[k as int]
            as int].len());
        if c[k] != d[k] {
            let x = rename_env(pairs, &s.marking[t.consumes[k]][c[k]]);
            let y = rename_env(pairs, &s.marking[t.consumes[k]][d[k]]);
            if !x.same(&y) {
                return false;
            }
        }
        k = k + 1;
    }
    true
}

fn is_spared(
    pairs: &StrMap<String>,
    s: &SearchState,
    t: &CompiledTransition,
    choice: &Vec<usize>,
    others: &Vec<Vec<usize>>,
) -> (r: bool)
    requires
        within(t.deep_view().consumes, s.deep_view().marking.len() as int),
        valid_choice(s.deep_view().marking, t.deep_view().consumes, choice.deep_view()),
        forall|j: int|
            0 <= j < others.deep_view().len() ==> valid_choice(
                s.deep_view().marking,
                t.deep_view().consumes,
                #[trigger] others.deep_view()[j],
            ),
    ensures
        r == spared(
            as_map(pairs.deep_view()),
            s.deep_view(),
            t.deep_view(),
            choice.deep_view(),
            others.deep_view(),
        ),
{
    let ghost r = as_map(pairs.deep_view());
    let ghost sv = s.deep_view();
    let ghost tv = t.deep_view();
    let ghost hv = others.deep_view();
    let mut j: usize = 0;
    while j < others.len()
        invariant
            j <= others.len(),
            r == as_map(pairs.deep_view()),
            sv == s.deep_view(),
            tv == t.deep_view(),
            hv == others.deep_view(),
            within(tv.consumes, sv.marking.len() as int),
            valid_choice(sv.marking, tv.consumes, choice.deep_view()),
            forall|j: int|
                0 <= j < hv.len() ==> valid_choice(sv.marking, tv.consumes, #[trigger] hv[j]),
            forall|i: int|
                0 <= i < j ==> !same_choice(
                    r,
                    sv.marking,
                    tv.consumes,
                    choice.deep_view(),
                    #[trigger] hv[i],
                ),
        decreases others.len() - j,
    {
        assert(hv[j as int] == others[j as int].deep_view());
        if is_same_choice(pairs, s, t, choice, &others[j]) {
            return true;
        }
        j = j + 1;
    }
    assert(others.len() == hv.len());
    false
}

fn guess(
    net: &Net,
    obs: &Observation,
    mark: &str,
    s: &SearchState,
    t: &CompiledTransition,
    choice: &Vec<usize>,
    aim: &Aim,
    start: usize,
    names: &Vec<String>,
    others: &Vec<Vec<usize>>,
    faults: Vec<Failure>,
) -> (r: Haul)
    requires
        forall|j: int|
            0 <= j < others.deep_view().len() ==> valid_choice(
                s.deep_view().marking,
                t.deep_view().consumes,
                #[trigger] others.deep_view()[j],
            ),
        net_ok(net.deep_view()),
        state_ok(net.deep_view(), obs.deep_view(), s.deep_view()),
        transition_ok(t.deep_view(), net.deep_view().place_names.len() as int),
        valid_choice(s.deep_view().marking, t.deep_view().consumes, choice.deep_view()),
        aim_ok(obs.deep_view(), t.deep_view(), aim.deep_view()),
        names.len() == t.binds.len(),
        start + t.binds.len() <= usize::MAX,
        s.depth < usize::MAX,
        s.slack_used < usize::MAX,
    ensures
        r.deep_view() == guessed(
            net.deep_view(),
            obs.deep_view(),
            mark@,
            s.deep_view(),
            t.deep_view(),
            choice.deep_view(),
            aim.deep_view(),
            start as nat,
            names.deep_view(),
            others.deep_view(),
            faults.deep_view(),
        ),
{
    let ghost nv = net.deep_view();
    let ghost ov = obs.deep_view();
    let ghost sv = s.deep_view();
    let ghost tv = t.deep_view();
    let ghost cv = choice.deep_view();
    let ghost av = aim.deep_view();
    let ghost mv = names.deep_view();
    let ghost hv = others.deep_view();
    proof {
        assert forall|k: int| 0 <= k < t.consumes.len() implies (#[trigger] t.consumes[k])
            < s.marking.len() && choice[k] < s.marking[t.consumes[k] as int].len() by {
            assert(tv.consumes[k] == t.consumes[k]);
            assert(cv[k] == choice[k]);
            assert(tv.consumes[k] < sv.marking.len());
            assert(sv.marking[tv.consumes[k] as int] == s.marking[t.consumes[k] as int].deep_view());
        }
        assert(choice.len() == cv.len() && t.consumes.len() == tv.consumes.len());
        assert(s.marking.len() == sv.marking.len());
    }
    let (mut marks, mut plains) = split_chosen(mark, &s.marking, &t.consumes, choice);
    append_to(&mut marks, names.dup());
    let un = distinct(&marks);
    let mut held = list_relevant(net, obs, t, aim);
    append_to(&mut held, plains);
    let mut vs = distinct(&held);
    append_to(&mut vs, un.dup());
    let ghost uv = unknowns(mark@, sv, tv, cv, mv);
    let ghost vv = candidates(nv, ov, mark@, sv, tv, cv, av) + uv;
    assert(un.deep_view() == uv && vs.deep_view() == vv);
    assert(un.len() == uv.len() && vs.len() == vv.len());
    let mut states: Vec<SearchState> = empty_vec();
    if !few_guesses(vs.len(), un.len()) {
        let r = Haul { states, faults, cut: true };
        assert(r.deep_view().states =~= Seq::<StateView>::empty());
        return r;
    }
    let gs = list_guesses(&un, &vs);
    let ghost gv = guesses(uv, vv, uv.len() as int);
    let fresh = start + t.binds.len();
    assert(t.binds.len() == tv.binds.len());
    let mut i: usize = 0;
    while i < gs.len()
        invariant
            i <= gs.len(),
            nv == net.deep_view(),
            ov == obs.deep_view(),
            sv == s.deep_view(),
            tv == t.deep_view(),
            cv == choice.deep_view(),
            av == aim.deep_view(),
            mv == names.deep_view(),
            hv == others.deep_view(),
            gv == gs.deep_view(),
            forall|j: int|
                0 <= j < hv.len() ==> valid_choice(sv.marking, tv.consumes, #[trigger] hv[j]),
            net_ok(nv),
            state_ok(nv, ov, sv),
            transition_ok(tv, nv.place_names.len() as int),
            valid_choice(sv.marking, tv.consumes, cv),
            aim_ok(ov, tv, av),
            names.len() == t.binds.len(),
            s.depth < usize::MAX,
            s.slack_used < usize::MAX,
            states.deep_view() == tried_upto(
                nv,
                ov,
                sv,
                tv,
                cv,
                av,
                mv,
                hv,
                fresh as nat,
                gv,
                i as int,
            ),
        decreases gs.len() - i,
    {
        assert(gv[i as int] == gs[i as int].deep_view());
        if !is_spared(&gs[i], s, t, choice, others) {
            match try_guess(net, obs, s, t, choice, aim, names, &gs[i]) {
                Some(x) => {
                    let mut y = x;
                    y.fresh = fresh;
                    push_to(&mut states, y);
                },
                None => {},
            }
        }
        i = i + 1;
    }
    assert(gs.len() == gv.len());
    assert(states.len() == states.deep_view().len());
    let told: Vec<Failure> = if states.len() == 0 {
        faults
    } else {
        empty_vec()
    };
    Haul { states, faults: told, cut: false }
}

fn explore(
    net: &Net,
    obs: &Observation,
    mark: &str,
    s: &SearchState,
    t: &CompiledTransition,
    choice: &Vec<usize>,
    aim: &Aim,
    others: &Vec<Vec<usize>>,
) -> (r: Haul)
    requires
        others.deep_view() == going(
            net.deep_view(),
            obs.deep_view(),
            mark@,
            s.deep_view(),
            t.deep_view(),
            aim.deep_view(),
            looked_at(s.deep_view(), t.deep_view()).len() as int,
        ),
        forall|j: int|
            0 <= j < others.deep_view().len() ==> valid_choice(
                s.deep_view().marking,
                t.deep_view().consumes,
                #[trigger] others.deep_view()[j],
            ),
        net_ok(net.deep_view()),
        state_ok(net.deep_view(), obs.deep_view(), s.deep_view()),
        transition_ok(t.deep_view(), net.deep_view().place_names.len() as int),
        valid_choice(s.deep_view().marking, t.deep_view().consumes, choice.deep_view()),
        aim_ok(obs.deep_view(), t.deep_view(), aim.deep_view()),
        s.fresh + growth(t.deep_view()) <= usize::MAX,
        s.depth < usize::MAX,
        s.slack_used < usize::MAX,
    ensures
        r.deep_view() == outcome(
            net.deep_view(),
            obs.deep_view(),
            mark@,
            s.deep_view(),
            t.deep_view(),
            choice.deep_view(),
            aim.deep_view(),
        ),
{
    proof {
        reveal(outcome);
    }
    let start = find_start(net, s, t, choice, aim);
    let names = list_names(mark, start, t.binds.len());
    assert(t.binds.len() == t.deep_view().binds.len());
    let mut faults: Vec<Failure> = empty_vec();
    match try_step(net, obs, s, t, choice, aim, &names) {
        Attempt::Go(x) => {
            proof {
                lemma_used(
                    net.deep_view(),
                    obs.deep_view(),
                    s.deep_view(),
                    t.deep_view(),
                    choice.deep_view(),
                    aim.deep_view(),
                    names.deep_view(),
                    x.deep_view(),
                );
            }
            let mut y = x;
            y.fresh = start + y.fresh;
            let mut states: Vec<SearchState> = empty_vec();
            push_to(&mut states, y);
            let r = Haul { states, faults, cut: false };
            assert(r.deep_view().states =~= outcome(
                net.deep_view(),
                obs.deep_view(),
                mark@,
                s.deep_view(),
                t.deep_view(),
                choice.deep_view(),
                aim.deep_view(),
            ).states);
            return r;
        },
        Attempt::Fail(f) => {
            push_to(&mut faults, f);
        },
        Attempt::Skip => {},
    }
    assert(faults.deep_view() =~= faults_of(
        attempt(
            net.deep_view(),
            obs.deep_view(),
            s.deep_view(),
            t.deep_view(),
            choice.deep_view(),
            aim.deep_view(),
            names.deep_view(),
        ),
    ));
    guess(net, obs, mark, s, t, choice, aim, start, &names, others, faults)
}

/// A firing uses no more names than it has variables to bind.
pub proof fn lemma_used(
    net: NetView,
    obs: ObservationView,
    s: StateView,
    t: CompiledTransitionView,
    choice: Seq<usize>,
    aim: AimView,
    names: Seq<Str>,
    x: StateView,
)
    requires
        attempt(net, obs, s, t, choice, aim, names) == AttemptView::Go(x),
    ensures
        x.fresh <= t.binds.len(),
{
    let base = joined_tokens(s.marking, t.consumes, choice, t.consumes.len() as int)->Some_0;
    let bound = crate::search::bound_for(obs, t, aim, base)->Ok_0;
    crate::search::lemma_minted_used(bound, t.binds, names, t.binds.len() as int);
}

// ---------------------------------------------------------------------------
// All choices
// ---------------------------------------------------------------------------
/// Whether the tokens of every place can be counted.
pub open spec fn countable(m: Seq<Seq<Seq<(Str, Str)>>>) -> bool {
    forall|p: int| 0 <= p < m.len() ==> (#[trigger] m[p]).len() <= usize::MAX
}

/// Every choice that is looked at is valid.
pub proof fn lemma_looked_at(s: StateView, t: CompiledTransitionView, i: int)
    requires
        within(t.consumes, s.marking.len() as int),
        countable(s.marking),
        0 <= i < looked_at(s, t).len(),
    ensures
        valid_choice(s.marking, t.consumes, looked_at(s, t)[i]),
{
    let all = all_choices(s.marking, t.consumes, Seq::empty());
    let c = looked_at(s, t)[i];
    assert(all[i] == c);
    assert(all.contains(c));
    lemma_all_choices(s.marking, t.consumes, Seq::empty(), c);
}

/// Where there are not too many, every valid choice is looked at.
pub proof fn lemma_looked_at_all(s: StateView, t: CompiledTransitionView, c: Seq<usize>)
    requires
        within(t.consumes, s.marking.len() as int),
        countable(s.marking),
        !too_many_choices(s.marking, t),
        valid_choice(s.marking, t.consumes, c),
    ensures
        looked_at(s, t).contains(c),
{
    lemma_all_choices(s.marking, t.consumes, Seq::empty(), c);
    assert(c.take(0) =~= Seq::<usize>::empty());
}

/// What comes of one choice, for the first `n` things that it may explain.
pub open spec fn haul_at(
    net: NetView,
    obs: ObservationView,
    mark: Str,
    s: StateView,
    t: CompiledTransitionView,
    choice: Seq<usize>,
    aims: Seq<AimView>,
    n: int,
) -> HaulView
    decreases n,
{
    if n <= 0 {
        no_haul()
    } else {
        merged(
            haul_at(net, obs, mark, s, t, choice, aims, n - 1),
            outcome(net, obs, mark, s, t, choice, aims[n - 1]),
        )
    }
}

/// What comes of the first `n` choices.
pub open spec fn haul_of(
    net: NetView,
    obs: ObservationView,
    mark: Str,
    s: StateView,
    t: CompiledTransitionView,
    aims: Seq<AimView>,
    n: int,
) -> HaulView
    decreases n,
{
    if n <= 0 {
        no_haul()
    } else {
        merged(
            haul_of(net, obs, mark, s, t, aims, n - 1),
            haul_at(net, obs, mark, s, t, looked_at(s, t)[n - 1], aims, aims.len() as int),
        )
    }
}

/// What comes of firing `t`, with whatever tokens.
pub open spec fn firings(
    net: NetView,
    obs: ObservationView,
    mark: Str,
    s: StateView,
    t: CompiledTransitionView,
    aims: Seq<AimView>,
) -> HaulView {
    let all = haul_of(net, obs, mark, s, t, aims, looked_at(s, t).len() as int);
    if countable(s.marking) {
        HaulView { cut: all.cut || too_many_choices(s.marking, t), ..all }
    } else {
        HaulView { states: Seq::empty(), faults: Seq::empty(), cut: true }
    }
}

/// What comes of explaining one of the first `n` records.
pub open spec fn observed_haul(
    net: NetView,
    obs: ObservationView,
    mark: Str,
    preds: Seq<Seq<usize>>,
    s: StateView,
    n: int,
) -> HaulView
    decreases n,
{
    if n <= 0 {
        no_haul()
    } else {
        let rest = observed_haul(net, obs, mark, preds, s, n - 1);
        match record_check(net, obs, preds, s, n - 1) {
            CheckView::Skip => rest,
            CheckView::Fail(f) => HaulView { faults: rest.faults.push(f), ..rest },
            CheckView::Ready(t) => merged(
                HaulView {
                    faults: rest.faults + gaps_of(
                        t.emits,
                        obs.records[n - 1].effects,
                        t.id,
                        obs,
                        t.emits.len() as int,
                    ),
                    ..rest
                },
                firings(net, obs, mark, s, t, seq![AimView::Record(n - 1)]),
            ),
        }
    }
}

/// What comes of an unlogged firing of one of the first `n` transitions.
pub open spec fn slack_haul(
    net: NetView,
    obs: ObservationView,
    mark: Str,
    s: StateView,
    n: int,
) -> HaulView
    decreases n,
{
    if n <= 0 {
        no_haul()
    } else {
        let rest = slack_haul(net, obs, mark, s, n - 1);
        let t = net.transitions[n - 1];
        if may_go_unlogged(obs, s, t) {
            merged(rest, firings(net, obs, mark, s, t, targets_of(obs, s, t)))
        } else {
            rest
        }
    }
}

/// Everything that a state leads to.
#[verifier::opaque]
pub open spec fn expansion(
    net: NetView,
    obs: ObservationView,
    preds: Seq<Seq<usize>>,
    slack: nat,
    s: StateView,
) -> HaulView {
    let mark = mark_of(net, obs);
    let seen = observed_haul(net, obs, mark, preds, s, obs.records.len() as int);
    if s.slack_used < slack {
        merged(seen, slack_haul(net, obs, mark, s, net.transitions.len() as int))
    } else {
        seen
    }
}

fn add_to(haul: &mut Haul, mut more: Haul)
    ensures
        final(haul).deep_view() == merged(old(haul).deep_view(), more.deep_view()),
{
    append_to(&mut haul.states, more.states);
    append_to(&mut haul.faults, more.faults);
    haul.cut = haul.cut || more.cut;
}

fn empty_haul() -> (r: Haul)
    ensures
        r.deep_view() == no_haul(),
{
    let states: Vec<SearchState> = empty_vec();
    let faults: Vec<Failure> = empty_vec();
    Haul { states, faults, cut: false }
}

/// The choices that go with minted names alone are valid.
pub proof fn lemma_going(
    net: NetView,
    obs: ObservationView,
    mark: Str,
    s: StateView,
    t: CompiledTransitionView,
    aim: AimView,
    n: int,
)
    requires
        within(t.consumes, s.marking.len() as int),
        countable(s.marking),
        0 <= n <= looked_at(s, t).len(),
    ensures
        forall|j: int|
            0 <= j < going(net, obs, mark, s, t, aim, n).len() ==> {
                let c = #[trigger] going(net, obs, mark, s, t, aim, n)[j];
                &&& valid_choice(s.marking, t.consumes, c)
                &&& goes(net, obs, mark, s, t, c, aim)
                &&& looked_at(s, t).contains(c)
            },
    decreases n,
{
    if n > 0 {
        lemma_going(net, obs, mark, s, t, aim, n - 1);
        lemma_looked_at(s, t, n - 1);
        let last = looked_at(s, t)[n - 1];
        assert(looked_at(s, t).contains(last));
        let rest = going(net, obs, mark, s, t, aim, n - 1);
        let all = going(net, obs, mark, s, t, aim, n);
        assert forall|j: int| 0 <= j < all.len() implies {
            let c = #[trigger] all[j];
            &&& valid_choice(s.marking, t.consumes, c)
            &&& goes(net, obs, mark, s, t, c, aim)
            &&& looked_at(s, t).contains(c)
        } by {
            if j < rest.len() {
                assert(all[j] == rest[j]);
            } else {
                assert(all[j] == last);
            }
        }
    }
}

fn find_going(
    net: &Net,
    obs: &Observation,
    mark: &str,
    s: &SearchState,
    t: &CompiledTransition,
    choices: &Vec<Vec<usize>>,
    aim: &Aim,
) -> (r: Vec<Vec<usize>>)
    requires
        net_ok(net.deep_view()),
        state_ok(net.deep_view(), obs.deep_view(), s.deep_view()),
        transition_ok(t.deep_view(), net.deep_view().place_names.len() as int),
        choices.deep_view() == looked_at(s.deep_view(), t.deep_view()),
        countable(s.deep_view().marking),
        aim_ok(obs.deep_view(), t.deep_view(), aim.deep_view()),
        s.fresh + growth(t.deep_view()) <= usize::MAX,
        s.depth < usize::MAX,
        s.slack_used < usize::MAX,
    ensures
        r.deep_view() == going(
            net.deep_view(),
            obs.deep_view(),
            mark@,
            s.deep_view(),
            t.deep_view(),
            aim.deep_view(),
            looked_at(s.deep_view(), t.deep_view()).len() as int,
        ),
{
    let ghost nv = net.deep_view();
    let ghost ov = obs.deep_view();
    let ghost sv = s.deep_view();
    let ghost tv = t.deep_view();
    let ghost av = aim.deep_view();
    let ghost cv = looked_at(sv, tv);
    let mut out: Vec<Vec<usize>> = empty_vec();
    let mut k: usize = 0;
    while k < choices.len()
        invariant
            k <= choices.len(),
            nv == net.deep_view(),
            ov == obs.deep_view(),
            sv == s.deep_view(),
            tv == t.deep_view(),
            av == aim.deep_view(),
            cv == looked_at(sv, tv),
            choices.deep_view() == cv,
            net_ok(nv),
            state_ok(nv, ov, sv),
            transition_ok(tv, nv.place_names.len() as int),
            countable(sv.marking),
            aim_ok(ov, tv, av),
            s.fresh + growth(tv) <= usize::MAX,
            s.depth < usize::MAX,
            s.slack_used < usize::MAX,
            out.deep_view() == going(nv, ov, mark@, sv, tv, av, k as int),
        decreases choices.len() - k,
    {
        proof {
            lemma_looked_at(sv, tv, k as int);
        }
        assert(cv[k as int] == choices[k as int].deep_view());
        let start = find_start(net, s, t, &choices[k], aim);
        let names = list_names(mark, start, t.binds.len());
        assert(t.binds.len() == tv.binds.len());
        if can_step(net, obs, s, t, &choices[k], aim, &names) {
            push_to(&mut out, choices[k].dup());
        }
        k = k + 1;
    }
    assert(choices.len() == cv.len());
    out
}

fn fire_all(
    net: &Net,
    obs: &Observation,
    mark: &str,
    s: &SearchState,
    t: &CompiledTransition,
    aims: &Vec<Aim>,
) -> (r: Haul)
    requires
        net_ok(net.deep_view()),
        state_ok(net.deep_view(), obs.deep_view(), s.deep_view()),
        transition_ok(t.deep_view(), net.deep_view().place_names.len() as int),
        forall|j: int|
            0 <= j < aims.deep_view().len() ==> aim_ok(
                obs.deep_view(),
                t.deep_view(),
                #[trigger] aims.deep_view()[j],
            ),
        s.fresh + growth(t.deep_view()) <= usize::MAX,
        s.depth < usize::MAX,
        s.slack_used < usize::MAX,
    ensures
        r.deep_view() == firings(
            net.deep_view(),
            obs.deep_view(),
            mark@,
            s.deep_view(),
            t.deep_view(),
            aims.deep_view(),
        ),
{
    let ghost nv = net.deep_view();
    let ghost ov = obs.deep_view();
    let ghost sv = s.deep_view();
    let ghost tv = t.deep_view();
    let ghost av = aims.deep_view();
    let choices = net.choices(&s.marking, t);
    let ghost cv = looked_at(sv, tv);
    assert(choices.deep_view() == cv);
    assert(countable(sv.marking)) by {
        assert forall|p: int| 0 <= p < sv.marking.len() implies (#[trigger] sv.marking[p]).len()
            <= usize::MAX by {
            assert(sv.marking[p].len() == s.marking[p].len());
        }
    }
    let mut others: Vec<Vec<Vec<usize>>> = Vec::new();
    let mut i: usize = 0;
    while i < aims.len()
        invariant
            i <= aims.len(),
            others.len() == i,
            nv == net.deep_view(),
            ov == obs.deep_view(),
            sv == s.deep_view(),
            tv == t.deep_view(),
            av == aims.deep_view(),
            cv == looked_at(sv, tv),
            choices.deep_view() == cv,
            net_ok(nv),
            state_ok(nv, ov, sv),
            transition_ok(tv, nv.place_names.len() as int),
            forall|j: int| 0 <= j < av.len() ==> aim_ok(ov, tv, #[trigger] av[j]),
            s.fresh + growth(tv) <= usize::MAX,
            s.depth < usize::MAX,
            s.slack_used < usize::MAX,
            countable(sv.marking),
            forall|j: int|
                0 <= j < i ==> (#[trigger] others[j]).deep_view() == going(
                    nv,
                    ov,
                    mark@,
                    sv,
                    tv,
                    av[j],
                    cv.len() as int,
                ),
        decreases aims.len() - i,
    {
        assert(av[i as int] == aims[i as int].deep_view());
        others.push(find_going(net, obs, mark, s, t, &choices, &aims[i]));
        i = i + 1;
    }
    let mut haul = empty_haul();
    let mut k: usize = 0;
    while k < choices.len()
        invariant
            k <= choices.len(),
            nv == net.deep_view(),
            ov == obs.deep_view(),
            sv == s.deep_view(),
            tv == t.deep_view(),
            av == aims.deep_view(),
            cv == looked_at(sv, tv),
            choices.deep_view() == cv,
            net_ok(nv),
            state_ok(nv, ov, sv),
            transition_ok(tv, nv.place_names.len() as int),
            forall|j: int| 0 <= j < av.len() ==> aim_ok(ov, tv, #[trigger] av[j]),
            s.fresh + growth(tv) <= usize::MAX,
            s.depth < usize::MAX,
            s.slack_used < usize::MAX,
            countable(sv.marking),
            others.len() == aims.len(),
            forall|j: int|
                0 <= j < others.len() ==> (#[trigger] others[j]).deep_view() == going(
                    nv,
                    ov,
                    mark@,
                    sv,
                    tv,
                    av[j],
                    cv.len() as int,
                ),
            haul.deep_view() == haul_of(nv, ov, mark@, sv, tv, av, k as int),
        decreases choices.len() - k,
    {
        proof {
            lemma_looked_at(sv, tv, k as int);
        }
        let ghost c = cv[k as int];
        assert(c == choices[k as int].deep_view());
        let mut part = empty_haul();
        let mut j: usize = 0;
        while j < aims.len()
            invariant
                j <= aims.len(),
                k < choices.len(),
                nv == net.deep_view(),
                ov == obs.deep_view(),
                sv == s.deep_view(),
                tv == t.deep_view(),
                av == aims.deep_view(),
                c == choices[k as int].deep_view(),
                net_ok(nv),
                state_ok(nv, ov, sv),
                transition_ok(tv, nv.place_names.len() as int),
                valid_choice(sv.marking, tv.consumes, c),
                forall|j: int| 0 <= j < av.len() ==> aim_ok(ov, tv, #[trigger] av[j]),
                s.fresh + growth(tv) <= usize::MAX,
                s.depth < usize::MAX,
                s.slack_used < usize::MAX,
                cv == looked_at(sv, tv),
                countable(sv.marking),
                others.len() == aims.len(),
                forall|j: int|
                    0 <= j < others.len() ==> (#[trigger] others[j]).deep_view() == going(
                        nv,
                        ov,
                        mark@,
                        sv,
                        tv,
                        av[j],
                        cv.len() as int,
                    ),
                part.deep_view() == haul_at(nv, ov, mark@, sv, tv, c, av, j as int),
            decreases aims.len() - j,
        {
            assert(av[j as int] == aims[j as int].deep_view());
            proof {
                lemma_going(nv, ov, mark@, sv, tv, av[j as int], cv.len() as int);
            }
            let more = explore(net, obs, mark, s, t, &choices[k], &aims[j], &others[j]);
            add_to(&mut part, more);
            j = j + 1;
        }
        assert(aims.len() == av.len());
        add_to(&mut haul, part);
        k = k + 1;
    }
    assert(choices.len() == cv.len());
    if choices.len() >= CHOICE_LIMIT && net.leaves_choices_out(&s.marking, t) {
        haul.cut = true;
    }
    haul
}

/// What comes of explaining one more record.
fn expand_observed(
    net: &Net,
    obs: &Observation,
    mark: &str,
    preds: &Vec<Vec<usize>>,
    s: &SearchState,
) -> (r: Haul)
    requires
        net_ok(net.deep_view()),
        state_ok(net.deep_view(), obs.deep_view(), s.deep_view()),
        preds_ok(preds.deep_view(), obs.deep_view()),
        room_for(net.deep_view(), s.fresh as int),
        s.depth < usize::MAX,
        s.slack_used < usize::MAX,
    ensures
        r.deep_view() == observed_haul(
            net.deep_view(),
            obs.deep_view(),
            mark@,
            preds.deep_view(),
            s.deep_view(),
            obs.deep_view().records.len() as int,
        ),
{
    let ghost nv = net.deep_view();
    let ghost ov = obs.deep_view();
    let ghost pv = preds.deep_view();
    let ghost sv = s.deep_view();
    let mut haul = empty_haul();
    let mut ix: usize = 0;
    while ix < obs.records.len()
        invariant
            ix <= obs.records.len(),
            nv == net.deep_view(),
            ov == obs.deep_view(),
            pv == preds.deep_view(),
            sv == s.deep_view(),
            net_ok(nv),
            state_ok(nv, ov, sv),
            preds_ok(pv, ov),
            room_for(nv, s.fresh as int),
            s.depth < usize::MAX,
            s.slack_used < usize::MAX,
            haul.deep_view() == observed_haul(nv, ov, mark@, pv, sv, ix as int),
        decreases obs.records.len() - ix,
    {
        let ghost h0 = haul.deep_view();
        match check_record(net, obs, preds, s, ix, &mut haul.faults) {
            Some(t) => {
                let record = &obs.records[ix];
                assert(ov.records[ix as int] == record.deep_view());
                let ghost tv = t.deep_view();
                let ghost step = record.step.deep_view()->Some_0;
                proof {
                    lemma_compiled_from(nv.transitions, step, 0);
                    let j = choose|j: int|
                        0 <= j < nv.transitions.len() && #[trigger] nv.transitions[j] == tv;
                    lemma_max_growth(nv.transitions, nv.transitions.len() as int, j);
                    assert(t.emits.len() == tv.emits.len());
                    assert(record.effects.len() == ov.records[ix as int].effects.len());
                }
                append_to(&mut haul.faults, all_gaps(&t.emits, &record.effects, t.id.as_str(), obs));
                let mut aims: Vec<Aim> = empty_vec();
                push_to(&mut aims, Aim::Record(ix));
                assert(aims.deep_view() =~= seq![AimView::Record(ix as int)]);
                let more = fire_all(net, obs, mark, s, t, &aims);
                add_to(&mut haul, more);
            },
            None => {},
        }
        ix = ix + 1;
    }
    assert(obs.records.len() == ov.records.len());
    haul
}

/// What comes of an unlogged firing.
fn expand_slack(net: &Net, obs: &Observation, mark: &str, s: &SearchState) -> (r: Haul)
    requires
        net_ok(net.deep_view()),
        state_ok(net.deep_view(), obs.deep_view(), s.deep_view()),
        room_for(net.deep_view(), s.fresh as int),
        s.depth < usize::MAX,
        s.slack_used < usize::MAX,
    ensures
        r.deep_view() == slack_haul(
            net.deep_view(),
            obs.deep_view(),
            mark@,
            s.deep_view(),
            net.deep_view().transitions.len() as int,
        ),
{
    let ghost nv = net.deep_view();
    let ghost ov = obs.deep_view();
    let ghost sv = s.deep_view();
    let mut haul = empty_haul();
    let mut i: usize = 0;
    while i < net.transitions.len()
        invariant
            i <= net.transitions.len(),
            nv == net.deep_view(),
            ov == obs.deep_view(),
            sv == s.deep_view(),
            net_ok(nv),
            state_ok(nv, ov, sv),
            room_for(nv, s.fresh as int),
            s.depth < usize::MAX,
            s.slack_used < usize::MAX,
            haul.deep_view() == slack_haul(nv, ov, mark@, sv, i as int),
        decreases net.transitions.len() - i,
    {
        let t = &net.transitions[i];
        assert(nv.transitions[i as int] == t.deep_view());
        proof {
            lemma_max_growth(nv.transitions, nv.transitions.len() as int, i as int);
        }
        if !shows(obs, &t.emits) && net.missing_place(&s.marking, t).is_none() {
            let aims = find_targets(obs, s, t);
            proof {
                assert forall|j: int| 0 <= j < aims.deep_view().len() implies aim_ok(
                    ov,
                    t.deep_view(),
                    #[trigger] aims.deep_view()[j],
                ) by {
                    lemma_targets(ov, sv, t.deep_view(), j);
                }
            }
            let more = fire_all(net, obs, mark, s, t, &aims);
            add_to(&mut haul, more);
        }
        i = i + 1;
    }
    assert(net.transitions.len() == nv.transitions.len());
    haul
}

/// Everything that a state leads to.
pub fn expand(
    net: &Net,
    obs: &Observation,
    mark: &str,
    preds: &Vec<Vec<usize>>,
    slack: usize,
    s: &SearchState,
) -> (r: Haul)
    requires
        net_ok(net.deep_view()),
        mark@ == mark_of(net.deep_view(), obs.deep_view()),
        state_ok(net.deep_view(), obs.deep_view(), s.deep_view()),
        preds_ok(preds.deep_view(), obs.deep_view()),
        room_for(net.deep_view(), s.fresh as int),
        s.depth < usize::MAX,
        s.slack_used < usize::MAX,
    ensures
        r.deep_view() == expansion(
            net.deep_view(),
            obs.deep_view(),
            preds.deep_view(),
            slack as nat,
            s.deep_view(),
        ),
{
    proof {
        reveal(expansion);
    }
    let mut haul = expand_observed(net, obs, mark, preds, s);
    if s.slack_used < slack {
        let more = expand_slack(net, obs, mark, s);
        add_to(&mut haul, more);
    }
    haul
}

// ---------------------------------------------------------------------------
// What is among the findings
// ---------------------------------------------------------------------------
/// Whether firing `t` for one of these aims is found to lead to `next`.
pub open spec fn leads(
    net: NetView,
    obs: ObservationView,
    mark: Str,
    s: StateView,
    t: CompiledTransitionView,
    aims: Seq<AimView>,
    next: StateView,
) -> bool {
    countable(s.marking) && exists|k: int, j: int|
        0 <= k < looked_at(s, t).len() && 0 <= j < aims.len() && outcome(
            net,
            obs,
            mark,
            s,
            t,
            #[trigger] looked_at(s, t)[k],
            #[trigger] aims[j],
        ).states.contains(next)
}

proof fn lemma_haul_at(
    net: NetView,
    obs: ObservationView,
    mark: Str,
    s: StateView,
    t: CompiledTransitionView,
    choice: Seq<usize>,
    aims: Seq<AimView>,
    n: int,
    next: StateView,
)
    requires
        n <= aims.len(),
    ensures
        haul_at(net, obs, mark, s, t, choice, aims, n).states.contains(next) <==> exists|j: int|
            0 <= j < n && outcome(
                net,
                obs,
                mark,
                s,
                t,
                choice,
                #[trigger] aims[j],
            ).states.contains(next),
        !haul_at(net, obs, mark, s, t, choice, aims, n).cut ==> forall|j: int|
            0 <= j < n ==> !outcome(net, obs, mark, s, t, choice, #[trigger] aims[j]).cut,
    decreases n,
{
    if n > 0 {
        lemma_haul_at(net, obs, mark, s, t, choice, aims, n - 1, next);
        lemma_concat_contains(
            haul_at(net, obs, mark, s, t, choice, aims, n - 1).states,
            outcome(net, obs, mark, s, t, choice, aims[n - 1]).states,
            next,
        );
    }
}

proof fn lemma_haul_of(
    net: NetView,
    obs: ObservationView,
    mark: Str,
    s: StateView,
    t: CompiledTransitionView,
    aims: Seq<AimView>,
    n: int,
    next: StateView,
)
    requires
        n <= looked_at(s, t).len(),
    ensures
        haul_of(net, obs, mark, s, t, aims, n).states.contains(next) <==> exists|k: int, j: int|
            0 <= k < n && 0 <= j < aims.len() && outcome(
                net,
                obs,
                mark,
                s,
                t,
                #[trigger] looked_at(s, t)[k],
                #[trigger] aims[j],
            ).states.contains(next),
        !haul_of(net, obs, mark, s, t, aims, n).cut ==> forall|k: int, j: int|
            0 <= k < n && 0 <= j < aims.len() ==> !outcome(
                net,
                obs,
                mark,
                s,
                t,
                #[trigger] looked_at(s, t)[k],
                #[trigger] aims[j],
            ).cut,
    decreases n,
{
    if n > 0 {
        let m = aims.len() as int;
        let c = looked_at(s, t)[n - 1];
        lemma_haul_of(net, obs, mark, s, t, aims, n - 1, next);
        lemma_haul_at(net, obs, mark, s, t, c, aims, m, next);
        let a = haul_of(net, obs, mark, s, t, aims, n - 1).states;
        let b = haul_at(net, obs, mark, s, t, c, aims, m).states;
        lemma_concat_contains(a, b, next);
        if b.contains(next) {
            let j = choose|j: int|
                0 <= j < m && outcome(
                    net,
                    obs,
                    mark,
                    s,
                    t,
                    c,
                    #[trigger] aims[j],
                ).states.contains(next);
            assert(outcome(net, obs, mark, s, t, looked_at(s, t)[n - 1], aims[j]).states.contains(
                next,
            ));
        }
    }
}

/// What is found by firing one transition.
pub proof fn lemma_firings(
    net: NetView,
    obs: ObservationView,
    mark: Str,
    s: StateView,
    t: CompiledTransitionView,
    aims: Seq<AimView>,
    next: StateView,
)
    ensures
        firings(net, obs, mark, s, t, aims).states.contains(next) <==> leads(
            net,
            obs,
            mark,
            s,
            t,
            aims,
            next,
        ),
        !firings(net, obs, mark, s, t, aims).cut ==> countable(s.marking) && !too_many_choices(
            s.marking,
            t,
        ) && forall|k: int, j: int|
            0 <= k < looked_at(s, t).len() && 0 <= j < aims.len() ==> !outcome(
                net,
                obs,
                mark,
                s,
                t,
                #[trigger] looked_at(s, t)[k],
                #[trigger] aims[j],
            ).cut,
{
    lemma_haul_of(net, obs, mark, s, t, aims, looked_at(s, t).len() as int, next);
}

/// Whether explaining record `ix` is found to lead to `next`.
pub open spec fn found_by_record(
    net: NetView,
    obs: ObservationView,
    mark: Str,
    preds: Seq<Seq<usize>>,
    s: StateView,
    next: StateView,
    ix: int,
) -> bool {
    record_check(net, obs, preds, s, ix) matches CheckView::Ready(t) && leads(
        net,
        obs,
        mark,
        s,
        t,
        seq![AimView::Record(ix)],
        next,
    )
}

/// Whether an unlogged firing of transition `ti` is found to lead to `next`.
pub open spec fn found_by_transition(
    net: NetView,
    obs: ObservationView,
    mark: Str,
    s: StateView,
    next: StateView,
    ti: int,
) -> bool {
    let t = net.transitions[ti];
    may_go_unlogged(obs, s, t) && leads(net, obs, mark, s, t, targets_of(obs, s, t), next)
}

proof fn lemma_observed_haul(
    net: NetView,
    obs: ObservationView,
    mark: Str,
    preds: Seq<Seq<usize>>,
    s: StateView,
    n: int,
    next: StateView,
)
    ensures
        observed_haul(net, obs, mark, preds, s, n).states.contains(next) <==> exists|ix: int|
            0 <= ix < n && #[trigger] found_by_record(net, obs, mark, preds, s, next, ix),
        !observed_haul(net, obs, mark, preds, s, n).cut ==> forall|ix: int|
            0 <= ix < n ==> (#[trigger] record_check(net, obs, preds, s, ix) matches
                CheckView::Ready(t) ==> !firings(
                net,
                obs,
                mark,
                s,
                t,
                seq![AimView::Record(ix)],
            ).cut),
    decreases n,
{
    if n > 0 {
        lemma_observed_haul(net, obs, mark, preds, s, n - 1, next);
        let rest = observed_haul(net, obs, mark, preds, s, n - 1);
        match record_check(net, obs, preds, s, n - 1) {
            CheckView::Ready(t) => {
                let aims = seq![AimView::Record(n - 1)];
                lemma_firings(net, obs, mark, s, t, aims, next);
                lemma_concat_contains(
                    rest.states,
                    firings(net, obs, mark, s, t, aims).states,
                    next,
                );
            },
            _ => {},
        }
        assert(observed_haul(net, obs, mark, preds, s, n).states.contains(next)
            <==> rest.states.contains(next) || found_by_record(
            net,
            obs,
            mark,
            preds,
            s,
            next,
            n - 1,
        ));
    }
}

proof fn lemma_slack_haul(
    net: NetView,
    obs: ObservationView,
    mark: Str,
    s: StateView,
    n: int,
    next: StateView,
)
    ensures
        slack_haul(net, obs, mark, s, n).states.contains(next) <==> exists|ti: int|
            0 <= ti < n && #[trigger] found_by_transition(net, obs, mark, s, next, ti),
        !slack_haul(net, obs, mark, s, n).cut ==> forall|ti: int|
            0 <= ti < n && may_go_unlogged(obs, s, #[trigger] net.transitions[ti]) ==> !firings(
                net,
                obs,
                mark,
                s,
                net.transitions[ti],
                targets_of(obs, s, net.transitions[ti]),
            ).cut,
    decreases n,
{
    if n > 0 {
        lemma_slack_haul(net, obs, mark, s, n - 1, next);
        let rest = slack_haul(net, obs, mark, s, n - 1);
        let t = net.transitions[n - 1];
        if may_go_unlogged(obs, s, t) {
            let aims = targets_of(obs, s, t);
            lemma_firings(net, obs, mark, s, t, aims, next);
            lemma_concat_contains(rest.states, firings(net, obs, mark, s, t, aims).states, next);
        }
        assert(slack_haul(net, obs, mark, s, n).states.contains(next) <==> rest.states.contains(
            next,
        ) || found_by_transition(net, obs, mark, s, next, n - 1));
    }
}

/// Whether the search finds a step from `s` to `next`.
pub open spec fn found_step(
    net: NetView,
    obs: ObservationView,
    preds: Seq<Seq<usize>>,
    slack: nat,
    s: StateView,
    next: StateView,
) -> bool {
    let mark = mark_of(net, obs);
    ||| exists|ix: int|
        0 <= ix < obs.records.len() && #[trigger] found_by_record(
            net,
            obs,
            mark,
            preds,
            s,
            next,
            ix,
        )
    ||| s.slack_used < slack && exists|ti: int|
        0 <= ti < net.transitions.len() && #[trigger] found_by_transition(
            net,
            obs,
            mark,
            s,
            next,
            ti,
        )
}

/// What is found from a state.
pub proof fn lemma_expansion(
    net: NetView,
    obs: ObservationView,
    preds: Seq<Seq<usize>>,
    slack: nat,
    s: StateView,
    next: StateView,
)
    ensures
        expansion(net, obs, preds, slack, s).states.contains(next) <==> found_step(
            net,
            obs,
            preds,
            slack,
            s,
            next,
        ),
        !expansion(net, obs, preds, slack, s).cut ==> forall|ix: int|
            0 <= ix < obs.records.len() ==> (#[trigger] record_check(net, obs, preds, s, ix) matches
                CheckView::Ready(t) ==> !firings(
                net,
                obs,
                mark_of(net, obs),
                s,
                t,
                seq![AimView::Record(ix)],
            ).cut),
        !expansion(net, obs, preds, slack, s).cut && s.slack_used < slack ==> forall|ti: int|
            0 <= ti < net.transitions.len() && may_go_unlogged(
                obs,
                s,
                #[trigger] net.transitions[ti],
            ) ==> !firings(
                net,
                obs,
                mark_of(net, obs),
                s,
                net.transitions[ti],
                targets_of(obs, s, net.transitions[ti]),
            ).cut,
{
    reveal(expansion);
    let mark = mark_of(net, obs);
    let n = net.transitions.len() as int;
    lemma_observed_haul(net, obs, mark, preds, s, obs.records.len() as int, next);
    lemma_slack_haul(net, obs, mark, s, n, next);
    lemma_concat_contains(
        observed_haul(net, obs, mark, preds, s, obs.records.len() as int).states,
        slack_haul(net, obs, mark, s, n).states,
        next,
    );
}

// ---------------------------------------------------------------------------
// What is found for one choice
// ---------------------------------------------------------------------------
/// Whether a firing leads to `next` if the names stand for what `r` says.
pub open spec fn reached(
    net: NetView,
    obs: ObservationView,
    s: StateView,
    t: CompiledTransitionView,
    choice: Seq<usize>,
    aim: AimView,
    names: Seq<Str>,
    r: Map<Str, Str>,
    next: StateView,
) -> bool {
    tried(net, obs, s, t, choice, aim, names, r) matches Some(x) && next == (StateView {
        fresh: next.fresh,
        ..x
    })
}

/// Renaming nothing changes nothing.
pub proof fn lemma_refined_none(s: StateView)
    ensures
        refined(Map::empty(), s) == s,
{
    let r = Map::<Str, Str>::empty();
    assert forall|p: int| 0 <= p < s.marking.len() implies renamed_marking(r, s.marking)[p]
        == s.marking[p] by {
        assert forall|i: int| 0 <= i < s.marking[p].len() implies renamed_env(r, s.marking[p][i])
            == s.marking[p][i] by {
            assert(renamed_env(r, s.marking[p][i]) =~= s.marking[p][i]);
        }
        assert(renamed_marking(r, s.marking)[p] =~= s.marking[p]);
    }
    assert(renamed_marking(r, s.marking) =~= s.marking);
    assert forall|i: int| 0 <= i < s.path.len() implies renamed_path(r, s.path)[i]
        == s.path[i] by {
        assert(renamed_env(r, s.path[i].bindings) =~= s.path[i].bindings);
    }
    assert(renamed_path(r, s.path) =~= s.path);
    assert forall|i: int| 0 <= i < s.pledges.len() implies renamed_pledges(r, s.pledges)[i]
        == s.pledges[i] by {
        assert(renamed_env(r, s.pledges[i].1) =~= s.pledges[i].1);
    }
    assert(renamed_pledges(r, s.pledges) =~= s.pledges);
}

proof fn lemma_tried_upto(
    net: NetView,
    obs: ObservationView,
    s: StateView,
    t: CompiledTransitionView,
    choice: Seq<usize>,
    aim: AimView,
    names: Seq<Str>,
    others: Seq<Seq<usize>>,
    fresh: nat,
    gs: Seq<Seq<(Str, Str)>>,
    n: int,
    next: StateView,
)
    requires
        n <= gs.len(),
    ensures
        tried_upto(net, obs, s, t, choice, aim, names, others, fresh, gs, n).contains(next)
            <==> exists|j: int|
            0 <= j < n && !spared(as_map(gs[j]), s, t, choice, others) && (tried(
                net,
                obs,
                s,
                t,
                choice,
                aim,
                names,
                as_map(#[trigger] gs[j]),
            ) matches Some(x) && next == (StateView { fresh, ..x })),
    decreases n,
{
    if n > 0 {
        lemma_tried_upto(net, obs, s, t, choice, aim, names, others, fresh, gs, n - 1, next);
        let rest = tried_upto(net, obs, s, t, choice, aim, names, others, fresh, gs, n - 1);
        if !spared(as_map(gs[n - 1]), s, t, choice, others) {
            match tried(net, obs, s, t, choice, aim, names, as_map(gs[n - 1])) {
                Some(x) => {
                    lemma_push_contains(rest, StateView { fresh, ..x }, next);
                },
                None => {},
            }
        }
    }
}

/// How far the count of minted values goes.
pub proof fn lemma_start(s: StateView, t: CompiledTransitionView, choice: Seq<usize>, aim: AimView)
    ensures
        s.fresh <= start_of(s, t, choice, aim),
        start_of(s, t, choice, aim) + t.binds.len() <= s.fresh + growth(t),
{
    match aim {
        AimView::Target(None) => {
            match joined_tokens(s.marking, t.consumes, choice, t.consumes.len() as int) {
                Some(base) => {
                    lemma_spent_on(t.emits, base, s.fresh, t.emits.len() as int);
                },
                None => {},
            }
        },
        _ => {},
    }
}

/// What is found comes of a guess.
pub proof fn lemma_outcome(
    net: NetView,
    obs: ObservationView,
    mark: Str,
    s: StateView,
    t: CompiledTransitionView,
    choice: Seq<usize>,
    aim: AimView,
    next: StateView,
) -> (r: Map<Str, Str>)
    requires
        pledges_hold(s.pledges),
        outcome(net, obs, mark, s, t, choice, aim).states.contains(next),
    ensures
        ({
            let start = start_of(s, t, choice, aim);
            let names = next_names(mark, start, t.binds.len());
            let un = unknowns(mark, s, t, choice, names);
            &&& guess_ok(r, un, candidates(net, obs, mark, s, t, choice, aim) + un)
            &&& reached(net, obs, s, t, choice, aim, names, r, next)
            &&& next.fresh <= start + t.binds.len()
            &&& next.fresh == start + t.binds.len() || r == Map::<Str, Str>::empty() && attempt(
                net,
                obs,
                s,
                t,
                choice,
                aim,
                names,
            ) == AttemptView::Go(StateView { fresh: (next.fresh - start) as nat, ..next })
            &&& start <= next.fresh
        }),
{
    reveal(outcome);
    let start = start_of(s, t, choice, aim);
    let names = next_names(mark, start, t.binds.len());
    let un = unknowns(mark, s, t, choice, names);
    let vs = candidates(net, obs, mark, s, t, choice, aim) + un;
    match attempt(net, obs, s, t, choice, aim, names) {
        AttemptView::Go(x) => {
            let r = Map::<Str, Str>::empty();
            lemma_refined_none(s);
            assert(renamed_values(r, names) =~= names);
            lemma_used(net, obs, s, t, choice, aim, names, x);
            assert(next == StateView { fresh: start + x.fresh, ..x });
            r
        },
        _ => {
            let gs = guesses(un, vs, un.len() as int);
            let others = going(net, obs, mark, s, t, aim, looked_at(s, t).len() as int);
            lemma_tried_upto(
                net,
                obs,
                s,
                t,
                choice,
                aim,
                names,
                others,
                start + t.binds.len(),
                gs,
                gs.len() as int,
                next,
            );
            let j = choose|j: int|
                0 <= j < gs.len() && !spared(as_map(gs[j]), s, t, choice, others) && (tried(
                    net,
                    obs,
                    s,
                    t,
                    choice,
                    aim,
                    names,
                    as_map(#[trigger] gs[j]),
                ) matches Some(x) && next == (StateView { fresh: start + t.binds.len(), ..x }));
            lemma_guess_sound(un, vs, un.len() as int, j);
            as_map(gs[j])
        },
    }
}

/// What comes of a guess is found, unless the names alone do.
pub proof fn lemma_outcome_complete(
    net: NetView,
    obs: ObservationView,
    mark: Str,
    s: StateView,
    t: CompiledTransitionView,
    choice: Seq<usize>,
    aim: AimView,
    r: Map<Str, Str>,
    x: StateView,
)
    requires
        !outcome(net, obs, mark, s, t, choice, aim).cut,
        ({
            let names = next_names(mark, start_of(s, t, choice, aim), t.binds.len());
            let un = unknowns(mark, s, t, choice, names);
            &&& !(attempt(net, obs, s, t, choice, aim, names) is Go)
            &&& forall|v: Str| r.dom().contains(v) <==> #[trigger] un.contains(v)
            &&& guess_ok(r, un, candidates(net, obs, mark, s, t, choice, aim) + un)
            &&& !spared(
                r,
                s,
                t,
                choice,
                going(net, obs, mark, s, t, aim, looked_at(s, t).len() as int),
            )
            &&& tried(net, obs, s, t, choice, aim, names, r) == Some(x)
        }),
    ensures
        outcome(net, obs, mark, s, t, choice, aim).states.contains(
            (StateView { fresh: start_of(s, t, choice, aim) + t.binds.len(), ..x }),
        ),
{
    reveal(outcome);
    let start = start_of(s, t, choice, aim);
    let names = next_names(mark, start, t.binds.len());
    let un = unknowns(mark, s, t, choice, names);
    let vs = candidates(net, obs, mark, s, t, choice, aim) + un;
    let gs = guesses(un, vs, un.len() as int);
    let next = StateView { fresh: start + t.binds.len(), ..x };
    assert forall|i: int| 0 <= i < un.len() implies vs.contains(r[#[trigger] un[i]]) by {
        assert(un.contains(un[i]));
        assert(r.dom().contains(un[i]));
    }
    let j = lemma_guess_complete(un, vs, r, un.len() as int);
    assert(un.take(un.len() as int) =~= un);
    let m = as_map(gs[j]);
    assert forall|v: Str| #[trigger] m.dom().contains(v) <==> r.dom().contains(v) by {
        assert(lookup(gs[j], v) == (if un.contains(v) {
            Some(r[v])
        } else {
            None
        }));
    }
    assert forall|v: Str| #[trigger] m.dom().contains(v) implies m[v] == r[v] by {
        assert(lookup(gs[j], v) == (if un.contains(v) {
            Some(r[v])
        } else {
            None
        }));
    }
    assert(m =~= r);
    lemma_tried_upto(
        net,
        obs,
        s,
        t,
        choice,
        aim,
        names,
        going(net, obs, mark, s, t, aim, looked_at(s, t).len() as int),
        start + t.binds.len(),
        gs,
        gs.len() as int,
        next,
    );
}

} // verus!
