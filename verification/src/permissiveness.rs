//! How much a workflow permits: the distinct shapes of effects that its executions up to a
//! given length emit.

use crate::keys::{marking_key, pack_all, packed_all, write_marking};
use crate::matching::{resolve, resolved};
use crate::model::{EffectTemplate, EffectTemplateView};
use crate::net::{
    all_choices, capped, fired, is_final_marking, joined_tokens, lacking_from, lemma_all_choices,
    lemma_fired_len, net_ok, transition_ok, valid_choice, CompiledTransition,
    CompiledTransitionView, Env, Marking, Net, NetView,
};
use crate::ordered::{append_to, empty_vec, push_to, put, sort_texts, sorted_texts, Dup};
use crate::search::{growth, has_room, lemma_max_growth, max_growth};
use crate::text::{cat2, cat3, cat4, decimal, decimal_text, join, joined, Str};
use vstd::hash_set::StringHashSet;
use vstd::prelude::*;

verus! {

/// How many shapes of execution there are up to a depth, how many states were looked at, and
/// whether a limit cut the count short.
#[derive(Debug, Clone, Copy)]
pub struct Permissiveness {
    pub depth: usize,
    pub shapes: usize,
    pub states: usize,
    pub truncated: bool,
}

/// What a [`Permissiveness`] holds.
pub struct PermissivenessView {
    pub depth: usize,
    pub shapes: usize,
    pub states: usize,
    pub truncated: bool,
}

impl DeepView for Permissiveness {
    type V = PermissivenessView;

    open spec fn deep_view(&self) -> PermissivenessView {
        PermissivenessView {
            depth: self.depth,
            shapes: self.shapes,
            states: self.states,
            truncated: self.truncated,
        }
    }
}

impl Dup for Permissiveness {
    fn dup(&self) -> (r: Self) {
        Permissiveness {
            depth: self.depth,
            shapes: self.shapes,
            states: self.states,
            truncated: self.truncated,
        }
    }
}

/// A partial execution: its marking, the effects that it emitted, its length, and how many
/// values were minted.
pub struct PartialView {
    pub marking: Seq<Seq<Seq<(Str, Str)>>>,
    pub trace: Seq<Str>,
    pub level: nat,
    pub fresh: nat,
}

struct Partial {
    marking: Marking,
    trace: Vec<String>,
    level: usize,
    fresh: usize,
}

impl DeepView for Partial {
    type V = PartialView;

    closed spec fn deep_view(&self) -> PartialView {
        PartialView {
            marking: self.marking.deep_view(),
            trace: self.trace.deep_view(),
            level: self.level as nat,
            fresh: self.fresh as nat,
        }
    }
}

/// The name of the `n`-th minted value.
pub open spec fn value_name(n: nat) -> Str {
    "v"@ + decimal(n)
}

/// `env` with a new value for each of the first `n` variables.
pub open spec fn numbered(
    env: Seq<(Str, Str)>,
    binds: Seq<Str>,
    fresh: nat,
    n: int,
) -> Seq<(Str, Str)>
    decreases n,
{
    if n <= 0 {
        env
    } else {
        put(
            numbered(env, binds, fresh, n - 1),
            binds[n - 1],
            value_name((fresh + n) as nat),
        )
    }
}

/// The first `n` arguments of a template with the values that they stand for.
pub open spec fn shape_args(
    args: Seq<(Str, Str)>,
    env: Seq<(Str, Str)>,
    n: int,
) -> Seq<Str>
    decreases n,
{
    if n <= 0 {
        Seq::empty()
    } else {
        shape_args(args, env, n - 1).push(
            args[n - 1].0 + "="@ + resolved(args[n - 1].1, env, 0).0,
        )
    }
}

/// An effect with the values that its arguments stand for.
pub open spec fn effect_text(e: EffectTemplateView, env: Seq<(Str, Str)>) -> Str {
    e.effect + "("@ + joined(shape_args(e.args, env, e.args.len() as int), ","@) + ")"@
}

/// The effects of the first `n` templates.
pub open spec fn shape_effects(
    emits: Seq<EffectTemplateView>,
    env: Seq<(Str, Str)>,
    n: int,
) -> Seq<Str>
    decreases n,
{
    if n <= 0 {
        Seq::empty()
    } else {
        shape_effects(emits, env, n - 1).push(effect_text(emits[n - 1], env))
    }
}

/// The execution after one more firing of `t`, unless the chosen tokens contradict each other.
pub open spec fn continued(
    net: NetView,
    s: PartialView,
    t: CompiledTransitionView,
    choice: Seq<usize>,
) -> Option<PartialView> {
    match joined_tokens(s.marking, t.consumes, choice, t.consumes.len() as int) {
        None => None,
        Some(base) => {
            let env = numbered(base, t.binds, s.fresh, t.binds.len() as int);
            Some(
                PartialView {
                    marking: fired(net, s.marking, t, choice, env),
                    trace: s.trace + shape_effects(t.emits, env, t.emits.len() as int),
                    level: s.level + 1,
                    fresh: s.fresh + t.binds.len(),
                },
            )
        },
    }
}

/// The choices that are looked at.
pub open spec fn options_of(s: PartialView, t: CompiledTransitionView) -> Seq<Seq<usize>> {
    capped(all_choices(s.marking, t.consumes, Seq::empty()))
}

/// The executions that the first `n` choices lead to.
pub open spec fn continued_by(
    net: NetView,
    s: PartialView,
    t: CompiledTransitionView,
    n: int,
) -> Seq<PartialView>
    decreases n,
{
    if n <= 0 {
        Seq::empty()
    } else {
        let rest = continued_by(net, s, t, n - 1);
        match continued(net, s, t, options_of(s, t)[n - 1]) {
            Some(next) => rest.push(next),
            None => rest,
        }
    }
}

/// The executions that a firing of one of the first `n` transitions leads to.
pub open spec fn continuations(net: NetView, s: PartialView, n: int) -> Seq<PartialView>
    decreases n,
{
    if n <= 0 {
        Seq::empty()
    } else {
        let rest = continuations(net, s, n - 1);
        let t = net.transitions[n - 1];
        if lacking_from(s.marking, t.consumes, 0) is None {
            rest + continued_by(net, s, t, options_of(s, t).len() as int)
        } else {
            rest
        }
    }
}

/// The text by which partial executions are told apart: those that hold the same tokens, emitted
/// the same and are of one length have the same text, however many values they have minted.
pub open spec fn partial_key(s: PartialView) -> Str {
    packed_all(seq![marking_key(s.marking), packed_all(s.trace), decimal(s.level)])
}

/// The shape of an execution: the effects that it emitted, in whatever order.
pub open spec fn shape_of(trace: Seq<Str>) -> Str {
    joined(sorted_texts(trace), "+"@)
}

/// Where the count stands.
pub struct CountView {
    pub stack: Seq<PartialView>,
    pub shapes: Set<Str>,
    pub seen: Set<Str>,
    pub states: nat,
}

/// The count from here on, with whether a limit cut it short.
pub open spec fn counted(
    net: NetView,
    depth: nat,
    cap: nat,
    budget: nat,
    q: CountView,
) -> (CountView, bool)
    decreases budget + 1 - q.states,
{
    if q.stack.len() == 0 {
        (q, false)
    } else {
        let s = q.stack.last();
        let popped = CountView { stack: q.stack.drop_last(), states: q.states + 1, ..q };
        if popped.states > budget || q.shapes.len() >= cap {
            (popped, true)
        } else {
            let shapes = if is_final_marking(net.finals, s.marking) && s.trace.len() > 0 {
                q.shapes.insert(shape_of(s.trace))
            } else {
                q.shapes
            };
            if s.level >= depth {
                counted(net, depth, cap, budget, CountView { shapes, ..popped })
            } else if q.seen.contains(partial_key(s)) {
                counted(net, depth, cap, budget, CountView { shapes, ..popped })
            } else {
                counted(
                    net,
                    depth,
                    cap,
                    budget,
                    CountView {
                        stack: popped.stack + continuations(
                            net,
                            s,
                            net.transitions.len() as int,
                        ),
                        shapes,
                        seen: q.seen.insert(partial_key(s)),
                        ..popped
                    },
                )
            }
        }
    }
}

/// Where every execution begins.
pub open spec fn outset(net: NetView) -> PartialView {
    PartialView { marking: net.initial, trace: Seq::empty(), level: 0, fresh: 0 }
}

/// Where the count begins.
pub open spec fn first_count(net: NetView) -> CountView {
    CountView {
        stack: seq![outset(net)],
        shapes: Set::empty(),
        seen: Set::empty(),
        states: 0,
    }
}

/// How much a net permits up to a depth.
pub open spec fn measured(
    net: NetView,
    depth: usize,
    cap: usize,
    budget: usize,
) -> PermissivenessView {
    let r = counted(net, depth as nat, cap as nat, budget as nat, first_count(net));
    PermissivenessView {
        depth,
        shapes: r.0.shapes.len() as usize,
        states: r.0.states as usize,
        truncated: r.1,
    }
}

/// Whether the counters cannot overflow.
pub open spec fn count_fits(net: NetView, budget: usize) -> bool {
    budget < usize::MAX && budget * max_growth(net.transitions, net.transitions.len() as int)
        <= usize::MAX
}

/// Whether so many partial runs of this net can be counted.
pub fn can_count(net: &Net, budget: usize) -> (r: bool)
    ensures
        r == count_fits(net.deep_view(), budget),
{
    budget < usize::MAX && has_room(net, budget)
}

fn number(env: Env, binds: &Vec<String>, fresh: usize) -> (r: Env)
    requires
        fresh + binds.len() <= usize::MAX,
    ensures
        r.deep_view() == numbered(
            env.deep_view(),
            binds.deep_view(),
            fresh as nat,
            binds.deep_view().len() as int,
        ),
{
    let mut cur = env;
    let mut i: usize = 0;
    while i < binds.len()
        invariant
            i <= binds.len(),
            fresh + binds.len() <= usize::MAX,
            cur.deep_view() == numbered(
                env.deep_view(),
                binds.deep_view(),
                fresh as nat,
                i as int,
            ),
        decreases binds.len() - i,
    {
        let d = decimal_text((fresh + i + 1) as u64);
        cur.insert(binds[i].clone(), cat2("v", d.as_str()));
        i = i + 1;
    }
    cur
}

fn abstract_value(raw: &str, env: &Env) -> (r: String)
    ensures
        r@ == resolved(raw@, env.deep_view(), 0).0,
{
    let mut fresh: usize = 0;
    resolve(raw, env, &mut fresh)
}

fn render_shapes(emits: &Vec<EffectTemplate>, env: &Env) -> (r: Vec<String>)
    ensures
        r.deep_view() == shape_effects(
            emits.deep_view(),
            env.deep_view(),
            emits.deep_view().len() as int,
        ),
{
    let ghost ev = env.deep_view();
    let mut out: Vec<String> = empty_vec();
    let mut i: usize = 0;
    while i < emits.len()
        invariant
            i <= emits.len(),
            ev == env.deep_view(),
            out.deep_view() == shape_effects(emits.deep_view(), ev, i as int),
        decreases emits.len() - i,
    {
        let args = &emits[i].args;
        assert(emits.deep_view()[i as int] == emits[i as int].deep_view());
        let mut parts: Vec<String> = empty_vec();
        let mut j: usize = 0;
        while j < args.len()
            invariant
                j <= args.deep_view().len(),
                ev == env.deep_view(),
                parts.deep_view() == shape_args(args.deep_view(), ev, j as int),
            decreases args.deep_view().len() - j,
        {
            let v = abstract_value(args.value_at(j).as_str(), env);
            push_to(&mut parts, cat3(args.key_at(j).as_str(), "=", v.as_str()));
            j = j + 1;
        }
        let inner = join(&parts, ",");
        push_to(&mut out, cat4(emits[i].effect.as_str(), "(", inner.as_str(), ")"));
        i = i + 1;
    }
    out
}

fn continue_with(net: &Net, s: &Partial, t: &CompiledTransition, choice: &Vec<usize>) -> (r: Option<
    Partial,
>)
    requires
        net_ok(net.deep_view()),
        s.marking.len() == net.place_names.len(),
        transition_ok(t.deep_view(), net.deep_view().place_names.len() as int),
        valid_choice(s.deep_view().marking, t.deep_view().consumes, choice.deep_view()),
        s.fresh + growth(t.deep_view()) <= usize::MAX,
        s.level < usize::MAX,
    ensures
        r.deep_view() == continued(
            net.deep_view(),
            s.deep_view(),
            t.deep_view(),
            choice.deep_view(),
        ),
{
    let base = match net.merge_env(&s.marking, t, choice) {
        Some(e) => e,
        None => {
            return None;
        },
    };
    let env = number(base, &t.binds, s.fresh);
    let marking = net.fire(&s.marking, t, choice, &env);
    let mut trace = s.trace.dup();
    append_to(&mut trace, render_shapes(&t.emits, &env));
    Some(Partial { marking, trace, level: s.level + 1, fresh: s.fresh + t.binds.len() })
}

/// What holds of every partial execution that is looked at.
pub open spec fn partial_ok(net: NetView, s: PartialView) -> bool {
    &&& s.marking.len() == net.place_names.len()
    &&& s.fresh <= s.level * max_growth(net.transitions, net.transitions.len() as int)
}

fn expand_partial(net: &Net, s: &Partial) -> (r: Vec<Partial>)
    requires
        net_ok(net.deep_view()),
        partial_ok(net.deep_view(), s.deep_view()),
        s.fresh + max_growth(
            net.deep_view().transitions,
            net.deep_view().transitions.len() as int,
        ) <= usize::MAX,
        s.level < usize::MAX,
    ensures
        r.deep_view() == continuations(
            net.deep_view(),
            s.deep_view(),
            net.deep_view().transitions.len() as int,
        ),
        forall|i: int|
            0 <= i < r.deep_view().len() ==> partial_ok(net.deep_view(), #[trigger] r.deep_view()[i])
                && r.deep_view()[i].level == s.level + 1,
{
    let ghost nv = net.deep_view();
    let ghost sv = s.deep_view();
    let ghost g = max_growth(nv.transitions, nv.transitions.len() as int);
    let mut out: Vec<Partial> = empty_vec();
    proof {
        assert((s.level + 1) * g == s.level * g + g) by (nonlinear_arith);
        assert forall|p: int| 0 <= p < sv.marking.len() implies (#[trigger] sv.marking[p]).len()
            <= usize::MAX by {
            assert(sv.marking[p].len() == s.marking[p].len());
        }
    }
    let mut i: usize = 0;
    while i < net.transitions.len()
        invariant
            i <= net.transitions.len(),
            nv == net.deep_view(),
            sv == s.deep_view(),
            net_ok(nv),
            partial_ok(nv, sv),
            g == max_growth(nv.transitions, nv.transitions.len() as int),
            (s.level + 1) * g == s.level * g + g,
            s.fresh + g <= usize::MAX,
            s.level < usize::MAX,
            forall|p: int|
                0 <= p < sv.marking.len() ==> (#[trigger] sv.marking[p]).len() <= usize::MAX,
            out.deep_view() == continuations(nv, sv, i as int),
            forall|k: int|
                0 <= k < out.deep_view().len() ==> partial_ok(nv, #[trigger] out.deep_view()[k])
                    && out.deep_view()[k].level == s.level + 1,
        decreases net.transitions.len() - i,
    {
        let t = &net.transitions[i];
        let ghost tv = t.deep_view();
        assert(nv.transitions[i as int] == tv);
        proof {
            lemma_max_growth(nv.transitions, nv.transitions.len() as int, i as int);
        }
        if net.missing_place(&s.marking, t).is_none() {
            let choices = net.choices(&s.marking, t);
            let ghost cv = options_of(sv, tv);
            let ghost rest = out.deep_view();
            let mut k: usize = 0;
            assert(rest + continued_by(nv, sv, tv, 0) =~= rest);
            while k < choices.len()
                invariant
                    k <= choices.len(),
                    nv == net.deep_view(),
                    sv == s.deep_view(),
                    tv == t.deep_view(),
                    cv == options_of(sv, tv),
                    choices.deep_view() == cv,
                    net_ok(nv),
                    partial_ok(nv, sv),
                    transition_ok(tv, nv.place_names.len() as int),
                    growth(tv) <= g,
                    g == max_growth(nv.transitions, nv.transitions.len() as int),
                    (s.level + 1) * g == s.level * g + g,
                    s.fresh + g <= usize::MAX,
                    s.level < usize::MAX,
                    forall|p: int|
                        0 <= p < sv.marking.len() ==> (#[trigger] sv.marking[p]).len()
                            <= usize::MAX,
                    out.deep_view() == rest + continued_by(nv, sv, tv, k as int),
                    forall|k: int|
                        0 <= k < out.deep_view().len() ==> partial_ok(
                            nv,
                            #[trigger] out.deep_view()[k],
                        ) && out.deep_view()[k].level == s.level + 1,
                decreases choices.len() - k,
            {
                proof {
                    let all = all_choices(sv.marking, tv.consumes, Seq::empty());
                    assert(choices.deep_view().len() == choices.len());
                    assert(all[k as int] == cv[k as int]);
                    assert(all.contains(cv[k as int]));
                    lemma_all_choices(sv.marking, tv.consumes, Seq::empty(), cv[k as int]);
                    assert(cv[k as int] == choices[k as int].deep_view());
                }
                let ghost so_far = out.deep_view();
                match continue_with(net, s, t, &choices[k]) {
                    Some(next) => {
                        let ghost nx = next.deep_view();
                        proof {
                            let base = joined_tokens(
                                sv.marking,
                                tv.consumes,
                                cv[k as int],
                                tv.consumes.len() as int,
                            )->Some_0;
                            lemma_fired_len(
                                nv,
                                sv.marking,
                                tv,
                                cv[k as int],
                                numbered(base, tv.binds, sv.fresh, tv.binds.len() as int),
                            );
                            assert(partial_ok(nv, nx));
                        }
                        push_to(&mut out, next);
                        assert forall|j: int| 0 <= j < out.deep_view().len() implies partial_ok(
                            nv,
                            #[trigger] out.deep_view()[j],
                        ) && out.deep_view()[j].level == s.level + 1 by {
                            if j < so_far.len() {
                                assert(out.deep_view()[j] == so_far[j]);
                            } else {
                                assert(out.deep_view()[j] == nx);
                            }
                        }
                    },
                    None => {},
                }
                assert(out.deep_view() =~= rest + continued_by(nv, sv, tv, k + 1));
                k = k + 1;
            }
        }
        i = i + 1;
    }
    out
}

fn render_partial_key(s: &Partial) -> (r: String)
    ensures
        r@ == partial_key(s.deep_view()),
{
    let mut parts: Vec<String> = empty_vec();
    push_to(&mut parts, write_marking(&s.marking));
    push_to(&mut parts, pack_all(&s.trace));
    push_to(&mut parts, decimal_text(s.level as u64));
    let ghost v = s.deep_view();
    assert(parts.deep_view() =~= seq![
        marking_key(v.marking),
        packed_all(v.trace),
        decimal(v.level),
    ]);
    pack_all(&parts)
}

/// Counts the distinct shapes of executions that end in a final marking, up to `depth` firings,
/// looking at no more than `budget` states and stopping at `cap` shapes.
pub fn permissiveness(net: &Net, depth: usize, cap: usize, budget: usize) -> (r: Permissiveness)
    requires
        net_ok(net.deep_view()),
        count_fits(net.deep_view(), budget),
    ensures
        r.deep_view() == measured(net.deep_view(), depth, cap, budget),
{
    let ghost nv = net.deep_view();
    let ghost g = max_growth(nv.transitions, nv.transitions.len() as int);
    let mut shapes = StringHashSet::new();
    let mut seen = StringHashSet::new();
    let mut states: usize = 0;
    let mut stack: Vec<Partial> = empty_vec();
    push_to(
        &mut stack,
        Partial { marking: net.initial.dup(), trace: empty_vec(), level: 0, fresh: 0 },
    );
    let ghost goal = counted(nv, depth as nat, cap as nat, budget as nat, first_count(nv));
    proof {
        assert(stack.deep_view() =~= first_count(nv).stack);
        assert(0 * g == 0) by (nonlinear_arith);
    }
    loop
        invariant
            nv == net.deep_view(),
            net_ok(nv),
            count_fits(nv, budget),
            g == max_growth(nv.transitions, nv.transitions.len() as int),
            states <= budget,
            forall|i: int|
                0 <= i < stack.deep_view().len() ==> partial_ok(
                    nv,
                    #[trigger] stack.deep_view()[i],
                ) && stack.deep_view()[i].level <= states,
            goal == counted(nv, depth as nat, cap as nat, budget as nat, first_count(nv)),
            goal == counted(
                nv,
                depth as nat,
                cap as nat,
                budget as nat,
                (CountView {
                    stack: stack.deep_view(),
                    shapes: shapes@,
                    seen: seen@,
                    states: states as nat,
                }),
            ),
        decreases budget + 1 - states,
    {
        let ghost before_pop = stack.deep_view();
        let s = match stack.pop() {
            Some(s) => s,
            None => {
                assert(before_pop.len() == 0);
                return Permissiveness { depth, shapes: shapes.len(), states, truncated: false };
            },
        };
        let ghost sv = s.deep_view();
        let ghost rest = before_pop.drop_last();
        assert(stack.deep_view() =~= rest);
        assert(before_pop.last() == sv);
        assert(sv == before_pop[before_pop.len() - 1]);
        states = states + 1;
        if states > budget || shapes.len() >= cap {
            return Permissiveness { depth, shapes: shapes.len(), states, truncated: true };
        }
        assert forall|i: int| 0 <= i < rest.len() implies partial_ok(nv, #[trigger] rest[i])
            && rest[i].level <= states by {
            assert(rest[i] == before_pop[i]);
        }
        if net.is_final(&s.marking) && s.trace.len() > 0 {
            let sorted = sort_texts(&s.trace);
            let _ = shapes.insert(join(&sorted, "+"));
        }
        if s.level >= depth {
            continue ;
        }
        let ghost seen0 = seen@;
        if !seen.insert(render_partial_key(&s)) {
            assert(seen@ =~= seen0);
            continue ;
        }
        proof {
            let l = sv.level;
            let b = budget as nat;
            assert(l * g + g <= b * g) by (nonlinear_arith)
                requires
                    l + 1 <= b,
            ;
        }
        let more = expand_partial(net, &s);
        let ghost mv = more.deep_view();
        append_to(&mut stack, more);
        assert forall|i: int| 0 <= i < stack.deep_view().len() implies partial_ok(
            nv,
            #[trigger] stack.deep_view()[i],
        ) && stack.deep_view()[i].level <= states by {
            if i < rest.len() {
                assert(stack.deep_view()[i] == rest[i]);
            } else {
                assert(stack.deep_view()[i] == mv[i - rest.len()]);
            }
        }
    }
}

} // verus!
