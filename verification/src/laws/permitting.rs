//! Which executions a net permits, and by what shape they are told apart.
use crate::laws::nets::what_a_transition_lacks;
use crate::model::EffectTemplateView;
use crate::net::{
    all_choices, capped, fired, is_final_marking, joined_tokens, lacking_from, occurrences, CompiledTransitionView,
    NetView,
};
use crate::ordered::{a_lookup_gives_back_what_was_put, lookup, sorted_texts};
use crate::permissiveness::{
    continuations, continued, continued_by, counted, effect_text, first_count, measured, numbered,
    options_of, outset, partial_key, shape_args, shape_effects, shape_of, CountView, PartialView,
};
use crate::search::{lemma_concat_contains, lemma_push_contains};
use crate::shapes::{counted_shapes, cut_short};
use crate::text::{decimal, joined, Str};
use crate::matching::resolved;
use vstd::prelude::*;

verus! {

/// What a transition gives values of its own is numbered on from what was numbered before; all
/// else keeps its value.
pub proof fn values_are_numbered_on(
    env: Seq<(Str, Str)>,
    binds: Seq<Str>,
    fresh: nat,
    n: int,
    x: Str,
)
    requires
        0 <= n <= binds.len(),
    ensures
        (forall|i: int| 0 <= i < n ==> #[trigger] binds[i] != x) ==> lookup(
            numbered(env, binds, fresh, n),
            x,
        ) == lookup(env, x),
        forall|i: int|
            0 <= i < n && #[trigger] binds[i] == x && (forall|j: int|
                i < j < n ==> #[trigger] binds[j] != x) ==> lookup(
                numbered(env, binds, fresh, n),
                x,
            ) == Some("v"@ + decimal((fresh + i + 1) as nat)),
    decreases n,
{
    if n > 0 {
        values_are_numbered_on(env, binds, fresh, n - 1, x);
        a_lookup_gives_back_what_was_put(
            numbered(env, binds, fresh, n - 1),
            binds[n - 1],
            "v"@ + decimal((fresh + n) as nat),
            x,
        );
        assert forall|i: int|
            0 <= i < n && #[trigger] binds[i] == x && (forall|j: int|
                i < j < n ==> #[trigger] binds[j] != x) implies lookup(
            numbered(env, binds, fresh, n),
            x,
        ) == Some("v"@ + decimal((fresh + i + 1) as nat)) by {
            if i < n - 1 {
                assert(binds[n - 1] != x);
            }
        }
    }
}

proof fn lemma_args(args: Seq<(Str, Str)>, env: Seq<(Str, Str)>, n: int)
    requires
        0 <= n <= args.len(),
    ensures
        shape_args(args, env, n).len() == n,
        forall|i: int|
            0 <= i < n ==> #[trigger] shape_args(args, env, n)[i] == args[i].0 + "="@ + resolved(
                args[i].1,
                env,
                0,
            ).0,
    decreases n,
{
    if n > 0 {
        lemma_args(args, env, n - 1);
    }
}

proof fn lemma_effects(emits: Seq<EffectTemplateView>, env: Seq<(Str, Str)>, n: int)
    requires
        0 <= n <= emits.len(),
    ensures
        shape_effects(emits, env, n).len() == n,
        forall|i: int|
            0 <= i < n ==> is_effect_text(
                emits[i],
                env,
                #[trigger] shape_effects(emits, env, n)[i],
            ),
    decreases n,
{
    if n > 0 {
        lemma_effects(emits, env, n - 1);
        let e = emits[n - 1];
        lemma_args(e.args, env, e.args.len() as int);
        let args = shape_args(e.args, env, e.args.len() as int);
        assert(effect_text(e, env) == e.effect + "("@ + joined(args, ","@) + ")"@);
        assert(is_effect_text(e, env, effect_text(e, env)));
        assert forall|i: int| 0 <= i < n implies is_effect_text(
            emits[i],
            env,
            #[trigger] shape_effects(emits, env, n)[i],
        ) by {
            if i < n - 1 {
                assert(shape_effects(emits, env, n)[i] == shape_effects(emits, env, n - 1)[i]);
            }
        }
    }
}

/// Whether a text tells an effect: its kind, and each argument with what it stands for.
pub open spec fn is_effect_text(
    e: EffectTemplateView,
    env: Seq<(Str, Str)>,
    text: Str,
) -> bool {
    exists|args: Seq<Str>|
        #![trigger joined(args, ","@)]
        args.len() == e.args.len() && (forall|i: int|
            0 <= i < args.len() ==> #[trigger] args[i] == e.args[i].0 + "="@ + resolved(
                e.args[i].1,
                env,
                0,
            ).0) && text == e.effect + "("@ + joined(args, ","@) + ")"@
}

/// Whether one execution goes on from another by a firing: of a transition that has enough
/// tokens, with tokens that agree, whose effects are told behind what was told before.
pub open spec fn goes_on(
    net: NetView,
    s: PartialView,
    t: CompiledTransitionView,
    next: PartialView,
) -> bool {
    &&& forall|p: int|
        0 <= p < s.marking.len() ==> (#[trigger] s.marking[p]).len() >= occurrences(
            t.consumes,
            p,
            t.consumes.len() as int,
        )
    &&& exists|choice: Seq<usize>|
        options_of(s, t).contains(choice) && (#[trigger] joined_tokens(
            s.marking,
            t.consumes,
            choice,
            t.consumes.len() as int,
        ) matches Some(base) && {
            let env = numbered(base, t.binds, s.fresh, t.binds.len() as int);
            &&& next.marking == fired(net, s.marking, t, choice, env)
            &&& next.trace.len() == s.trace.len() + t.emits.len()
            &&& next.trace.take(s.trace.len() as int) == s.trace
            &&& forall|i: int|
                0 <= i < t.emits.len() ==> is_effect_text(
                    #[trigger] t.emits[i],
                    env,
                    next.trace[s.trace.len() + i],
                )
            &&& next.level == s.level + 1
            &&& next.fresh == s.fresh + t.binds.len()
        })
}

proof fn lemma_continued_by(
    net: NetView,
    s: PartialView,
    t: CompiledTransitionView,
    n: int,
    next: PartialView,
)
    requires
        0 <= n <= options_of(s, t).len(),
    ensures
        continued_by(net, s, t, n).contains(next) <==> exists|i: int|
            0 <= i < n && continued(net, s, t, #[trigger] options_of(s, t)[i]) == Some(next),
    decreases n,
{
    if n > 0 {
        lemma_continued_by(net, s, t, n - 1, next);
        let x = continued(net, s, t, options_of(s, t)[n - 1]);
        if x is Some {
            lemma_push_contains(continued_by(net, s, t, n - 1), x->0, next);
        }
    }
}

proof fn lemma_goes_on(
    net: NetView,
    s: PartialView,
    t: CompiledTransitionView,
    next: PartialView,
)
    requires
        lacking_from(s.marking, t.consumes, 0) is None,
        continued_by(net, s, t, options_of(s, t).len() as int).contains(next),
    ensures
        goes_on(net, s, t, next),
{
    what_a_transition_lacks(s.marking, t.consumes, 0);
    let all = options_of(s, t);
    lemma_continued_by(net, s, t, all.len() as int, next);
    let i = choose|i: int|
        0 <= i < all.len() && continued(net, s, t, #[trigger] options_of(s, t)[i]) == Some(next);
    let choice = all[i];
    assert(all.contains(choice));
    let base = joined_tokens(s.marking, t.consumes, choice, t.consumes.len() as int)->0;
    let env = numbered(base, t.binds, s.fresh, t.binds.len() as int);
    lemma_effects(t.emits, env, t.emits.len() as int);
    let told = shape_effects(t.emits, env, t.emits.len() as int);
    assert(next.trace == s.trace + told);
    assert(next.trace.take(s.trace.len() as int) =~= s.trace);
    assert forall|i: int| 0 <= i < t.emits.len() implies is_effect_text(
        #[trigger] t.emits[i],
        env,
        next.trace[s.trace.len() + i],
    ) by {
        assert(next.trace[s.trace.len() + i] == told[i]);
    }
}

/// Executions go on by firings alone, and by each transition of the net that has enough tokens
/// in every way in which its tokens agree.
pub proof fn executions_go_on_by_firings(
    net: NetView,
    s: PartialView,
    n: int,
    next: PartialView,
    t: int,
    choice: Seq<usize>,
)
    requires
        0 <= n <= net.transitions.len(),
    ensures
        continuations(net, s, n).contains(next) ==> exists|i: int|
            0 <= i < n && goes_on(net, s, #[trigger] net.transitions[i], next),
        0 <= t < n && lacking_from(s.marking, net.transitions[t].consumes, 0) is None
            && options_of(s, net.transitions[t]).contains(choice) && joined_tokens(
            s.marking,
            net.transitions[t].consumes,
            choice,
            net.transitions[t].consumes.len() as int,
        ) is Some ==> continuations(net, s, n).contains(
            continued(net, s, net.transitions[t], choice)->0,
        ),
    decreases n,
{
    if n > 0 {
        executions_go_on_by_firings(net, s, n - 1, next, t, choice);
        let tv = net.transitions[n - 1];
        let rest = continuations(net, s, n - 1);
        let all = options_of(s, tv).len() as int;
        let more = continued_by(net, s, tv, all);
        if lacking_from(s.marking, tv.consumes, 0) is None {
            lemma_concat_contains(rest, more, next);
            if more.contains(next) {
                lemma_goes_on(net, s, tv, next);
            }
            if 0 <= t < n && options_of(s, net.transitions[t]).contains(choice) {
                let x = continued(net, s, net.transitions[t], choice)->0;
                lemma_concat_contains(rest, more, x);
                if t == n - 1 && joined_tokens(
                    s.marking,
                    tv.consumes,
                    choice,
                    tv.consumes.len() as int,
                ) is Some {
                    lemma_continued_by(net, s, tv, all, x);
                    let i = options_of(s, tv).index_of(choice);
                    assert(continued(net, s, tv, options_of(s, tv)[i]) == Some(x));
                }
            }
        }
    }
}

/// An execution begins with the tokens of the start, and with nothing told; its shape is what
/// was told, in the order of the texts.
pub proof fn how_an_execution_begins(net: NetView, trace: Seq<Str>)
    ensures
        outset(net).marking == net.initial,
        outset(net).trace.len() == 0,
        outset(net).level == 0,
        outset(net).fresh == 0,
        shape_of(trace) == joined(sorted_texts(trace), "+"@),
{
}

proof fn lemma_looked_at(net: NetView, depth: nat, cap: nat, budget: nat, q: CountView)
    requires
        q.states <= budget,
        q.shapes.finite(),
        q.shapes.len() <= q.states,
    ensures
        ({
            let r = counted(net, depth, cap, budget, q);
            &&& r.0.shapes.finite()
            &&& r.0.shapes.len() <= r.0.states
            &&& r.1 ==> r.0.states == budget + 1 || r.0.shapes.len() >= cap
            &&& !r.1 ==> r.0.states <= budget && r.0.stack.len() == 0
            &&& r.0.states <= budget + 1
            &&& r.0.states >= q.states
        }),
    decreases budget + 1 - q.states,
{
    if q.stack.len() > 0 {
        let s = q.stack.last();
        let popped = CountView { stack: q.stack.drop_last(), states: q.states + 1, ..q };
        if popped.states <= budget && q.shapes.len() < cap {
            let shapes = if is_final_marking(net.finals, s.marking) && s.trace.len() > 0 {
                q.shapes.insert(shape_of(s.trace))
            } else {
                q.shapes
            };
            if s.level >= depth || q.seen.contains(partial_key(s)) {
                lemma_looked_at(net, depth, cap, budget, CountView { shapes, ..popped });
            } else {
                lemma_looked_at(
                    net,
                    depth,
                    cap,
                    budget,
                    CountView {
                        stack: popped.stack + continuations(net, s, net.transitions.len() as int),
                        shapes,
                        seen: q.seen.insert(partial_key(s)),
                        ..popped
                    },
                );
            }
        }
    }
}

/// A measure tells how many shapes were counted and whether the count was cut short. It is cut
/// short by one execution more than the budget, or by as many shapes as it may find; otherwise
/// nothing is left to look at, and the budget was enough. Where no execution may go on, only the
/// first is looked at.
pub proof fn how_much_is_looked_at(net: NetView, depth: usize, cap: usize, budget: usize)
    requires
        budget < usize::MAX,
    ensures
        measured(net, depth, cap, budget).depth == depth,
        measured(net, depth, cap, budget).shapes == counted_shapes(
            net,
            depth as nat,
            cap as nat,
            budget as nat,
        ).len(),
        measured(net, depth, cap, budget).truncated == cut_short(
            net,
            depth as nat,
            cap as nat,
            budget as nat,
        ),
        measured(net, depth, cap, budget).truncated ==> measured(net, depth, cap, budget).states
            == budget + 1 || measured(net, depth, cap, budget).shapes >= cap,
        !measured(net, depth, cap, budget).truncated ==> measured(net, depth, cap, budget).states
            <= budget,
        measured(net, depth, cap, budget).shapes <= measured(net, depth, cap, budget).states,
        measured(net, depth, cap, budget).states >= 1,
        depth == 0 && cap > 0 && budget > 0 ==> measured(net, depth, cap, budget).states == 1
            && !measured(net, depth, cap, budget).truncated,
{
    let q = first_count(net);
    lemma_looked_at(net, depth as nat, cap as nat, budget as nat, q);
    let popped = CountView { stack: q.stack.drop_last(), states: 1, ..q };
    assert(popped.stack.len() == 0);
    reveal_with_fuel(counted, 2);
    if budget > 0 && cap > 0 {
        let s = q.stack.last();
        assert(s.trace.len() == 0 && s.level == 0);
        if depth > 0 {
            let more = CountView {
                stack: popped.stack + continuations(net, s, net.transitions.len() as int),
                seen: q.seen.insert(partial_key(s)),
                ..popped
            };
            lemma_looked_at(net, depth as nat, cap as nat, budget as nat, more);
            assert(counted(net, depth as nat, cap as nat, budget as nat, q) == counted(
                net,
                depth as nat,
                cap as nat,
                budget as nat,
                more,
            ));
        } else {
            assert(counted(net, depth as nat, cap as nat, budget as nat, q) == (popped, false));
        }
    }
}

} // verus!
