//! Runs of a net against an observation, and what an accepting verdict says of them.

use crate::covering::{
    lemma_checks, lemma_fires_renamed, lemma_found_sound, lemma_initial_plain, lemma_marks_compose,
    lemma_shape, sound_state,
};
use crate::expand::{
    found_by_record, found_by_transition, found_step, lemma_expansion, lemma_looked_at,
    lemma_outcome, lemma_refined_none, looked_at, next_names, outcome, pledges_hold, refined,
    renamed_path, start_of,
};
use crate::guess::{
    compose, lemma_compose_env, lemma_compose_marking, mark_of, renamed, renamed_env,
    renamed_marking, renamed_pledges, renamed_values,
};
use crate::matching::edge_failures;
use crate::net::{
    joined_tokens, lemma_compiled_from, net_ok, transition_ok, CompiledTransitionView, NetView,
};
use crate::observation::ObservationView;
use crate::ordered::{a_lookup_gives_back_what_was_put, lookup};
use crate::search::{
    aim_ok, bound_for, by_record, by_transition, fires, further, is_next, lemma_one_step,
    lemma_targets, minted, one_step, record_check, score, state_ok, targets_of, unattested_from,
    AimView, CheckView, StateView,
};
use crate::states::{only_marks, state_key};
use crate::text::Str;
use crate::verify::{
    accepting, expanded, first_quest, initial_state, lemma_found_met, logged_all, met_ok, order_of,
    search_result, searched, verified, QuestView, Verdict, VerifyOptions,
};
use vstd::prelude::*;

verus! {

/// Whether `run` is a run: it begins in the initial state, and each state is one step from the
/// one before it. A variable that a step binds afresh may take any value there.
pub open spec fn is_run(
    net: NetView,
    obs: ObservationView,
    slack: nat,
    run: Seq<StateView>,
) -> bool {
    &&& run.len() > 0
    &&& run[0] == initial_state(net, obs)
    &&& forall|i: int, j: int|
        0 <= i < run.len() && j == i + 1 && j < run.len() ==> one_step(
            net,
            obs,
            order_of(obs),
            slack,
            #[trigger] run[i],
            #[trigger] run[j],
        )
}

/// Whether a run leads to `s`.
pub open spec fn reachable(
    net: NetView,
    obs: ObservationView,
    slack: nat,
    s: StateView,
) -> bool {
    exists|run: Seq<StateView>| #[trigger] is_run(net, obs, slack, run) && run.last() == s
}

/// Whether `run` explains the observation: it ends in a final marking with every step and every
/// effect explained, and it takes no more steps than the bound allows.
pub open spec fn explains(
    net: NetView,
    obs: ObservationView,
    opts: VerifyOptions,
    run: Seq<StateView>,
) -> bool {
    &&& is_run(net, obs, opts.slack as nat, run)
    &&& run.len() - 1 <= opts.bound
    &&& accepting(net, obs, run.last())
}

/// The initial state is reachable.
pub proof fn lemma_initial_reachable(net: NetView, obs: ObservationView, slack: nat)
    ensures
        reachable(net, obs, slack, initial_state(net, obs)),
{
    let run = seq![initial_state(net, obs)];
    assert(is_run(net, obs, slack, run));
    assert(run.last() == initial_state(net, obs));
}

/// One step from a reachable state leads to a reachable one.
pub proof fn lemma_step_reachable(
    net: NetView,
    obs: ObservationView,
    slack: nat,
    s: StateView,
    next: StateView,
)
    requires
        reachable(net, obs, slack, s),
        one_step(net, obs, order_of(obs), slack, s, next),
    ensures
        reachable(net, obs, slack, next),
{
    let run = choose|run: Seq<StateView>| #[trigger]
        is_run(net, obs, slack, run) && run.last() == s;
    let longer = run.push(next);
    assert forall|i: int, j: int|
        0 <= i < longer.len() && j == i + 1 && j < longer.len() implies one_step(
        net,
        obs,
        order_of(obs),
        slack,
        #[trigger] longer[i],
        #[trigger] longer[j],
    ) by {
        assert(longer[i] == run[i]);
        if j < run.len() {
            assert(longer[j] == run[j]);
        } else {
            assert(longer[j] == next);
            assert(run[i] == run.last());
        }
    }
    assert(is_run(net, obs, slack, longer));
    assert(longer.last() == next);
}

/// The state after `i` steps of a run is `i` steps deep and well formed.
pub proof fn lemma_run_states(
    net: NetView,
    obs: ObservationView,
    slack: nat,
    run: Seq<StateView>,
    i: int,
)
    requires
        net_ok(net),
        is_run(net, obs, slack, run),
        0 <= i < run.len(),
    ensures
        state_ok(net, obs, run[i]),
        run[i].slack_used <= slack,
        run[i].depth == i,
        run[i].path.len() == i,
        reachable(net, obs, slack, run[i]),
    decreases i,
{
    if i == 0 {
        lemma_initial_reachable(net, obs, slack);
    } else {
        lemma_run_states(net, obs, slack, run, i - 1);
        assert(one_step(net, obs, order_of(obs), slack, run[i - 1], run[i]));
        lemma_one_step(net, obs, order_of(obs), slack, run[i - 1], run[i]);
        lemma_step_reachable(net, obs, slack, run[i - 1], run[i]);
        lemma_step_path(net, obs, slack, run[i - 1], run[i]);
    }
}

proof fn lemma_step_path(
    net: NetView,
    obs: ObservationView,
    slack: nat,
    s: StateView,
    next: StateView,
)
    requires
        one_step(net, obs, order_of(obs), slack, s, next),
    ensures
        next.path.len() == s.path.len() + 1,
        next.path.drop_last() == s.path,
{
    if exists|ix: int|
        0 <= ix < obs.records.len() && #[trigger] by_record(
            net,
            obs,
            order_of(obs),
            s,
            next,
            ix,
        ) {
        assert(next.path.drop_last() =~= s.path);
    } else {
        assert(next.path.drop_last() =~= s.path);
    }
}

// ---------------------------------------------------------------------------
// What the search finds
// ---------------------------------------------------------------------------
/// Whether the search comes along these states.
pub open spec fn is_trail(
    net: NetView,
    obs: ObservationView,
    slack: nat,
    trail: Seq<StateView>,
) -> bool {
    &&& trail.len() > 0
    &&& trail[0] == initial_state(net, obs)
    &&& forall|i: int, j: int|
        0 <= i < trail.len() && j == i + 1 && j < trail.len() ==> found_step(
            net,
            obs,
            order_of(obs),
            slack,
            #[trigger] trail[i],
            #[trigger] trail[j],
        )
}

/// Whether the search comes to `s`.
pub open spec fn found(net: NetView, obs: ObservationView, slack: nat, s: StateView) -> bool {
    exists|trail: Seq<StateView>| #[trigger]
        is_trail(net, obs, slack, trail) && trail.last() == s
}

/// The search comes to the initial state.
pub proof fn lemma_initial_found(net: NetView, obs: ObservationView, slack: nat)
    ensures
        found(net, obs, slack, initial_state(net, obs)),
{
    let trail = seq![initial_state(net, obs)];
    assert(is_trail(net, obs, slack, trail));
    assert(trail.last() == initial_state(net, obs));
}

/// The search comes to what it finds from a state that it comes to.
pub proof fn lemma_step_found(
    net: NetView,
    obs: ObservationView,
    slack: nat,
    s: StateView,
    next: StateView,
)
    requires
        found(net, obs, slack, s),
        found_step(net, obs, order_of(obs), slack, s, next),
    ensures
        found(net, obs, slack, next),
{
    let trail = choose|trail: Seq<StateView>| #[trigger]
        is_trail(net, obs, slack, trail) && trail.last() == s;
    let longer = trail.push(next);
    assert forall|i: int, j: int|
        0 <= i < longer.len() && j == i + 1 && j < longer.len() implies found_step(
        net,
        obs,
        order_of(obs),
        slack,
        #[trigger] longer[i],
        #[trigger] longer[j],
    ) by {
        assert(longer[i] == trail[i]);
        if j < trail.len() {
            assert(longer[j] == trail[j]);
        } else {
            assert(longer[j] == next);
            assert(trail[i] == trail.last());
        }
    }
    assert(is_trail(net, obs, slack, longer));
    assert(longer.last() == next);
}

/// How a step was found: the transition, the choice and what it explains, and that it is a step
/// that may be tried.
pub open spec fn found_how(
    net: NetView,
    obs: ObservationView,
    slack: nat,
    s: StateView,
    next: StateView,
    ti: int,
    choice: Seq<usize>,
    aim: AimView,
) -> bool {
    let t = net.transitions[ti];
    &&& 0 <= ti < net.transitions.len()
    &&& aim_ok(obs, t, aim)
    &&& crate::net::valid_choice(s.marking, t.consumes, choice)
    &&& looked_at(s, t).contains(choice)
    &&& outcome(net, obs, mark_of(net, obs), s, t, choice, aim).states.contains(next)
    &&& match aim {
        AimView::Record(ix) => 0 <= ix < obs.records.len() && record_check(
            net,
            obs,
            order_of(obs),
            s,
            ix,
        ) == CheckView::Ready(t),
        AimView::Target(_) => s.slack_used < slack && crate::search::may_go_unlogged(obs, s, t)
            && targets_of(obs, s, t).contains(aim),
    }
}

/// Every step that is found is found somehow.
pub proof fn lemma_found_how(
    net: NetView,
    obs: ObservationView,
    slack: nat,
    s: StateView,
    next: StateView,
) -> (how: (int, Seq<usize>, AimView))
    requires
        net_ok(net),
        state_ok(net, obs, s),
        found_step(net, obs, order_of(obs), slack, s, next),
    ensures
        found_how(net, obs, slack, s, next, how.0, how.1, how.2),
{
    let mark = mark_of(net, obs);
    let preds = order_of(obs);
    if exists|ix: int|
        0 <= ix < obs.records.len() && #[trigger] found_by_record(
            net,
            obs,
            mark,
            preds,
            s,
            next,
            ix,
        ) {
        let ix = choose|ix: int|
            0 <= ix < obs.records.len() && #[trigger] found_by_record(
                net,
                obs,
                mark,
                preds,
                s,
                next,
                ix,
            );
        let t = record_check(net, obs, preds, s, ix)->Ready_0;
        lemma_compiled_from(net.transitions, obs.records[ix].step->Some_0, 0);
        let ti = choose|ti: int|
            0 <= ti < net.transitions.len() && #[trigger] net.transitions[ti] == t;
        let aims = seq![AimView::Record(ix)];
        let (k, j) = choose|k: int, j: int|
            0 <= k < looked_at(s, t).len() && 0 <= j < aims.len() && outcome(
                net,
                obs,
                mark,
                s,
                t,
                #[trigger] looked_at(s, t)[k],
                #[trigger] aims[j],
            ).states.contains(next);
        assert(aims[j] == AimView::Record(ix));
        assert(transition_ok(net.transitions[ti], net.place_names.len() as int));
        lemma_looked_at(s, t, k);
        assert(looked_at(s, t).contains(looked_at(s, t)[k]));
        (ti, looked_at(s, t)[k], AimView::Record(ix))
    } else {
        let ti = choose|ti: int|
            0 <= ti < net.transitions.len() && #[trigger] found_by_transition(
                net,
                obs,
                mark,
                s,
                next,
                ti,
            );
        let t = net.transitions[ti];
        let aims = targets_of(obs, s, t);
        let (k, j) = choose|k: int, j: int|
            0 <= k < looked_at(s, t).len() && 0 <= j < aims.len() && outcome(
                net,
                obs,
                mark,
                s,
                t,
                #[trigger] looked_at(s, t)[k],
                #[trigger] aims[j],
            ).states.contains(next);
        lemma_targets(obs, s, t, j);
        assert(transition_ok(net.transitions[ti], net.place_names.len() as int));
        lemma_looked_at(s, t, k);
        assert(looked_at(s, t).contains(looked_at(s, t)[k]));
        assert(aims.contains(aims[j]));
        (ti, looked_at(s, t)[k], aims[j])
    }
}

/// What is known of the states that the search comes along.
pub proof fn lemma_trail(
    net: NetView,
    obs: ObservationView,
    slack: nat,
    trail: Seq<StateView>,
    i: int,
)
    requires
        net_ok(net),
        is_trail(net, obs, slack, trail),
        0 <= i < trail.len(),
    ensures
        met_ok(net, obs, slack, trail[i]),
        sound_state(net, obs, trail[i]),
        trail[i].depth == i,
    decreases i,
{
    if i == 0 {
        assert(0 * crate::search::max_growth(net.transitions, net.transitions.len() as int) == 0)
            by (nonlinear_arith);
        let s = trail[0];
        let mark = mark_of(net, obs);
        let known = crate::covering::names_upto(mark, s.fresh);
        assert forall|p: int, j: int|
            0 <= p < s.marking.len() && 0 <= j < s.marking[p].len() implies crate::renaming::all_in(
            known,
            #[trigger] s.marking[p][j],
        ) by {
            let e = s.marking[p][j];
            assert forall|k: int| 0 <= k < e.len() implies known.contains((#[trigger] e[k]).1) by {
                lemma_initial_plain(net, obs, p, j, k);
            }
        }
    } else {
        lemma_trail(net, obs, slack, trail, i - 1);
        let s = trail[i - 1];
        assert(found_step(net, obs, order_of(obs), slack, s, trail[i]));
        lemma_found_met(net, obs, slack, s, trail[i]);
        let (ti, choice, aim) = lemma_found_how(net, obs, slack, s, trail[i]);
        lemma_found_sound(net, obs, s, ti, choice, aim, trail[i]);
    }
}

/// What is known of a state that the search comes to.
pub proof fn lemma_found_state(net: NetView, obs: ObservationView, slack: nat, s: StateView)
    requires
        net_ok(net),
        found(net, obs, slack, s),
    ensures
        met_ok(net, obs, slack, s),
        sound_state(net, obs, s),
{
    let trail = choose|trail: Seq<StateView>| #[trigger]
        is_trail(net, obs, slack, trail) && trail.last() == s;
    lemma_trail(net, obs, slack, trail, trail.len() - 1);
}

proof fn lemma_initial_same(net: NetView, obs: ObservationView, th: Map<Str, Str>)
    requires
        only_marks(mark_of(net, obs), th),
    ensures
        refined(th, initial_state(net, obs)) == initial_state(net, obs),
{
    let s = initial_state(net, obs);
    let m = s.marking;
    assert forall|p: int| 0 <= p < m.len() implies renamed_marking(th, m)[p] == m[p] by {
        assert forall|j: int| 0 <= j < m[p].len() implies renamed_env(th, m[p][j]) == m[p][j] by {
            assert forall|k: int| 0 <= k < m[p][j].len() implies renamed(
                th,
                (#[trigger] m[p][j][k]).1,
            ) == m[p][j][k].1 by {
                lemma_initial_plain(net, obs, p, j, k);
            }
            assert(renamed_env(th, m[p][j]) =~= m[p][j]);
        }
        assert(renamed_marking(th, m)[p] =~= m[p]);
    }
    assert(renamed_marking(th, m) =~= m);
    assert(renamed_path(th, s.path) =~= s.path);
    assert(renamed_pledges(th, s.pledges) =~= s.pledges);
}

proof fn lemma_refined_twice(th: Map<Str, Str>, r: Map<Str, Str>, s: StateView)
    ensures
        refined(compose(th, r), s) == refined(th, refined(r, s)),
{
    let c = compose(th, r);
    lemma_compose_marking(th, r, s.marking);
    assert forall|i: int| 0 <= i < s.path.len() implies renamed_path(c, s.path)[i] == renamed_path(
        th,
        renamed_path(r, s.path),
    )[i] by {
        lemma_compose_env(th, r, s.path[i].bindings);
    }
    assert(renamed_path(c, s.path) =~= renamed_path(th, renamed_path(r, s.path)));
    assert forall|i: int| 0 <= i < s.pledges.len() implies renamed_pledges(c, s.pledges)[i]
        == renamed_pledges(th, renamed_pledges(r, s.pledges))[i] by {
        lemma_compose_env(th, r, s.pledges[i].1);
    }
    assert(renamed_pledges(c, s.pledges) =~= renamed_pledges(th, renamed_pledges(r, s.pledges)));
}

/// Whatever its minted names stand for, a state that the search comes to is reachable, as long as
/// the guards on the way hold.
proof fn lemma_trail_reachable(
    net: NetView,
    obs: ObservationView,
    slack: nat,
    trail: Seq<StateView>,
    i: int,
    th: Map<Str, Str>,
)
    requires
        net_ok(net),
        is_trail(net, obs, slack, trail),
        0 <= i < trail.len(),
        only_marks(mark_of(net, obs), th),
        pledges_hold(renamed_pledges(th, trail[i].pledges)),
    ensures
        reachable(net, obs, slack, refined(th, trail[i])),
    decreases i,
{
    let mark = mark_of(net, obs);
    let b = trail[i];
    if i == 0 {
        lemma_initial_same(net, obs, th);
        lemma_initial_reachable(net, obs, slack);
    } else {
        let s = trail[i - 1];
        lemma_trail(net, obs, slack, trail, i - 1);
        assert(found_step(net, obs, order_of(obs), slack, s, b));
        let (ti, choice, aim) = lemma_found_how(net, obs, slack, s, b);
        let t = net.transitions[ti];
        let start = start_of(s, t, choice, aim);
        let names = next_names(mark, start, t.binds.len());
        let r = lemma_outcome(net, obs, mark, s, t, choice, aim, b);
        let c = refined(r, s);
        let own = renamed_values(r, names);
        lemma_marks_compose(net, obs, th, r, s, ti, choice, aim, start);
        lemma_shape(r, s.marking);
        assert(transition_ok(t, net.place_names.len() as int));
        assert(crate::net::valid_choice(c.marking, t.consumes, choice)) by {
            assert forall|k: int| 0 <= k < choice.len() implies #[trigger] choice[k]
                < c.marking[t.consumes[k] as int].len() by {
                assert(t.consumes[k] < s.marking.len());
                assert(choice[k] < s.marking[t.consumes[k] as int].len());
            }
        }
        assert(fires(net, obs, c, t, choice, aim, own, b));
        lemma_fires_renamed(net, obs, th, c, ti, choice, aim, own, b);
        let th2 = compose(th, r);
        lemma_refined_twice(th, r, s);
        assert(pledges_hold(renamed_pledges(th2, s.pledges))) by {
            let ps = renamed_pledges(th2, s.pledges);
            assert(ps == renamed_pledges(th, c.pledges));
            assert forall|j: int| 0 <= j < ps.len() implies crate::matching::guard_holds(
                (#[trigger] ps[j]).0,
                ps[j].1,
            ) by {
                assert(b.pledges[j] == c.pledges[j]);
                assert(renamed_pledges(th, b.pledges)[j] == ps[j]);
            }
        }
        lemma_trail_reachable(net, obs, slack, trail, i - 1, th2);
        let x = refined(th2, s);
        lemma_shape(th2, s.marking);
        lemma_checks(net, obs, order_of(obs), s, x);
        let y = refined(th, b);
        let vs = renamed_values(th, own);
        assert(fires(net, obs, x, t, choice, aim, vs, y));
        match aim {
            AimView::Record(ix) => {
                assert(record_check(net, obs, order_of(obs), x, ix) == CheckView::Ready(t));
                assert(by_record(net, obs, order_of(obs), x, y, ix));
            },
            AimView::Target(_) => {
                let j = targets_of(obs, s, t).index_of(aim);
                assert(targets_of(obs, x, t)[j] == aim);
                assert(fires(net, obs, x, t, choice, targets_of(obs, x, t)[j], vs, y));
                assert(by_transition(net, obs, x, y, ti));
            },
        }
        assert(one_step(net, obs, order_of(obs), slack, x, y));
        lemma_step_reachable(net, obs, slack, x, y);
    }
}

/// A state that the search comes to is reachable.
pub proof fn lemma_found_reachable(net: NetView, obs: ObservationView, slack: nat, s: StateView)
    requires
        net_ok(net),
        found(net, obs, slack, s),
    ensures
        reachable(net, obs, slack, s),
{
    let trail = choose|trail: Seq<StateView>| #[trigger]
        is_trail(net, obs, slack, trail) && trail.last() == s;
    let i = trail.len() - 1;
    lemma_trail(net, obs, slack, trail, i);
    lemma_refined_none(s);
    let none = Map::<Str, Str>::empty();
    assert(renamed_pledges(none, s.pledges) == s.pledges);
    lemma_trail_reachable(net, obs, slack, trail, i, none);
}

/// What the search finds is reachable, accepting, and within the bound.
proof fn lemma_found(net: NetView, obs: ObservationView, opts: VerifyOptions, q: QuestView)
    requires
        net_ok(net),
        forall|i: int|
            0 <= i < q.stack.len() ==> found(net, obs, opts.slack as nat, #[trigger] q.stack[i]),
    ensures
        searched(net, obs, opts, q).found matches Some(s) ==> {
            &&& found(net, obs, opts.slack as nat, s)
            &&& accepting(net, obs, s)
            &&& s.depth <= opts.bound
        },
    decreases opts.max_states + 1 - q.states,
{
    if q.stack.len() > 0 {
        let slack = opts.slack as nat;
        let key = state_key(mark_of(net, obs), q.stack.last());
        let s = q.stack.last();
        assert(s == q.stack[q.stack.len() - 1]);
        let popped = QuestView { stack: q.stack.drop_last(), states: q.states + 1, ..q };
        assert forall|i: int| 0 <= i < popped.stack.len() implies found(
            net,
            obs,
            slack,
            #[trigger] popped.stack[i],
        ) by {
            assert(popped.stack[i] == q.stack[i]);
        }
        if popped.states > opts.max_states {
        } else if s.depth > opts.bound || q.seen.contains(key) {
            lemma_found(net, obs, opts, popped);
        } else if !accepting(net, obs, s) {
            let best = if further(score(s), score(q.best)) {
                s
            } else {
                q.best
            };
            let haul = expanded(net, obs, slack, s);
            let deeper = QuestView {
                stack: popped.stack + haul.states,
                seen: q.seen.insert(key),
                best,
                log: logged_all(q.log, score(s), haul.faults, haul.faults.len() as int),
                cut: q.cut || haul.cut,
                ..popped
            };
            assert forall|i: int| 0 <= i < deeper.stack.len() implies found(
                net,
                obs,
                slack,
                #[trigger] deeper.stack[i],
            ) by {
                if i < popped.stack.len() {
                    assert(deeper.stack[i] == popped.stack[i]);
                } else {
                    let next = haul.states[i - popped.stack.len()];
                    assert(deeper.stack[i] == next);
                    assert(haul.states.contains(next));
                    lemma_expansion(net, obs, order_of(obs), slack, s, next);
                    lemma_step_found(net, obs, slack, s, next);
                }
            }
            lemma_found(net, obs, opts, deeper);
        }
    }
}

/// A run that is accepted has a legitimate path that explains it: there is a run of the net
/// within the bound and the slack that takes every recorded step in order, emits every observed
/// effect and ends in a final marking; its path is the witness. And every observed edge is one
/// that the specification declares.
pub proof fn accepted_runs_are_explained(net: NetView, obs: ObservationView, opts: VerifyOptions)
    requires
        net_ok(net),
        verified(net, obs, opts).verdict == Verdict::Accept,
    ensures
        exists|run: Seq<StateView>| #[trigger]
            explains(net, obs, opts, run) && verified(net, obs, opts).witness == Some(
                run.last().path,
            ),
        edge_failures(net.spec, obs, obs.edges.len() as int).len() == 0,
{
    let slack = opts.slack as nat;
    let q = first_quest(net, obs);
    assert(q.stack[0] == initial_state(net, obs));
    lemma_initial_found(net, obs, slack);
    reveal(search_result);
    lemma_found(net, obs, opts, q);
    let s = search_result(net, obs, opts).found->Some_0;
    lemma_found_reachable(net, obs, slack, s);
    let run = choose|run: Seq<StateView>| #[trigger]
        is_run(net, obs, slack, run) && run.last() == s;
    lemma_run_states(net, obs, slack, run, run.len() - 1);
    assert(explains(net, obs, opts, run));
}

/// A run never takes a recorded step twice, nor before what must come before it.
pub proof fn steps_are_taken_once_and_in_order(
    net: NetView,
    obs: ObservationView,
    slack: nat,
    s: StateView,
    next: StateView,
    ix: int,
)
    requires
        net_ok(net),
        state_ok(net, obs, s),
        one_step(net, obs, order_of(obs), slack, s, next),
        0 <= ix < obs.records.len(),
    ensures
        s.consumed[ix] ==> next.consumed[ix],
        !s.consumed[ix] && next.consumed[ix] ==> is_next(obs, order_of(obs), s, ix),
{
    lemma_one_step(net, obs, order_of(obs), slack, s, next);
    if exists|jx: int|
        0 <= jx < obs.records.len() && #[trigger] by_record(
            net,
            obs,
            order_of(obs),
            s,
            next,
            jx,
        ) {
        let jx = choose|jx: int|
            0 <= jx < obs.records.len() && #[trigger] by_record(
                net,
                obs,
                order_of(obs),
                s,
                next,
                jx,
            );
        assert(next.consumed == s.consumed.update(jx, true));
    } else {
        let ti = choose|ti: int|
            0 <= ti < net.transitions.len() && #[trigger] by_transition(net, obs, s, next, ti);
        let t = net.transitions[ti];
        let (j, choice, names) = choose|j: int, choice: Seq<usize>, names: Seq<Str>|
            0 <= j < targets_of(obs, s, t).len() && #[trigger] fires(
                net,
                obs,
                s,
                t,
                choice,
                targets_of(obs, s, t)[j],
                names,
                next,
            );
        lemma_targets(obs, s, t, j);
        assert(next.consumed == s.consumed);
    }
}

/// More slack never hurts: a run with little slack is one with more.
pub proof fn slack_only_adds_runs(
    net: NetView,
    obs: ObservationView,
    opts: VerifyOptions,
    wider: VerifyOptions,
    run: Seq<StateView>,
)
    requires
        explains(net, obs, opts, run),
        opts.slack <= wider.slack,
        opts.bound <= wider.bound,
    ensures
        explains(net, obs, wider, run),
{
    assert forall|i: int, j: int|
        0 <= i < run.len() && j == i + 1 && j < run.len() implies one_step(
        net,
        obs,
        order_of(obs),
        wider.slack as nat,
        #[trigger] run[i],
        #[trigger] run[j],
    ) by {
        assert(one_step(net, obs, order_of(obs), opts.slack as nat, run[i], run[j]));
    }
}

/// Minting keeps what is bound already.
proof fn lemma_minted_keeps(
    env: Seq<(Str, Str)>,
    binds: Seq<Str>,
    names: Seq<Str>,
    n: int,
    name: Str,
)
    requires
        lookup(env, name) is Some,
    ensures
        lookup(minted(env, binds, names, n).0, name) == lookup(env, name),
    decreases n,
{
    if n > 0 {
        lemma_minted_keeps(env, binds, names, n - 1, name);
        let p = minted(env, binds, names, n - 1);
        a_lookup_gives_back_what_was_put(p.0, binds[n - 1], names[p.1 as int], name);
    }
}

proof fn lemma_attested(names: Seq<Str>, env: Seq<(Str, Str)>, evidence: Seq<Str>, i: int)
    requires
        0 <= i,
        unattested_from(names, env, evidence, i) is None,
    ensures
        forall|k: int|
            i <= k < names.len() ==> (lookup(env, #[trigger] names[k]) matches Some(v)
                && evidence.contains(v)),
    decreases names.len() - i,
{
    if i < names.len() {
        lemma_attested(names, env, evidence, i + 1);
    }
}

/// Whether every variable that a transition takes from evidence has an attested value.
pub open spec fn all_attested(
    t: CompiledTransitionView,
    bindings: Seq<(Str, Str)>,
    evidence: Seq<Str>,
) -> bool {
    forall|k: int|
        0 <= k < t.attested.len() ==> (lookup(bindings, #[trigger] t.attested[k]) matches Some(v)
            && evidence.contains(v))
}

proof fn lemma_env_attested(
    t: CompiledTransitionView,
    bound: Seq<(Str, Str)>,
    evidence: Seq<Str>,
    names: Seq<Str>,
)
    requires
        unattested_from(t.attested, bound, evidence, 0) is None,
    ensures
        all_attested(t, minted(bound, t.binds, names, t.binds.len() as int).0, evidence),
{
    lemma_attested(t.attested, bound, evidence, 0);
    let env = minted(bound, t.binds, names, t.binds.len() as int).0;
    assert forall|k: int| 0 <= k < t.attested.len() implies (lookup(env, #[trigger] t.attested[k])
        matches Some(v) && evidence.contains(v)) by {
        lemma_minted_keeps(bound, t.binds, names, t.binds.len() as int, t.attested[k]);
    }
}

/// A certificate admits only what it attests: each step of a run fires a transition of the net,
/// and whatever that transition takes from evidence has a value that presented evidence
/// attests. This holds of logged and of unlogged steps alike, so that no amount of slack stands
/// in for evidence.
pub proof fn attested_values_come_from_evidence(
    net: NetView,
    obs: ObservationView,
    slack: nat,
    s: StateView,
    next: StateView,
)
    requires
        one_step(net, obs, order_of(obs), slack, s, next),
    ensures
        exists|ti: int|
            0 <= ti < net.transitions.len() && (#[trigger] net.transitions[ti]).id
                == next.path.last().transition && all_attested(
                net.transitions[ti],
                next.path.last().bindings,
                net.evidence,
            ),
{
    let preds = order_of(obs);
    if exists|ix: int|
        0 <= ix < obs.records.len() && #[trigger] by_record(net, obs, preds, s, next, ix) {
        let ix = choose|ix: int|
            0 <= ix < obs.records.len() && #[trigger] by_record(net, obs, preds, s, next, ix);
        let step = obs.records[ix].step->Some_0;
        let t = record_check(net, obs, preds, s, ix)->Ready_0;
        lemma_compiled_from(net.transitions, step, 0);
        let (choice, names) = choose|choice: Seq<usize>, names: Seq<Str>| #[trigger]
            fires(net, obs, s, t, choice, AimView::Record(ix), names, next);
        let base = joined_tokens(s.marking, t.consumes, choice, t.consumes.len() as int)->Some_0;
        let bound = bound_for(obs, t, AimView::Record(ix), base)->Ok_0;
        lemma_env_attested(t, bound, net.evidence, names);
        assert(next.path.last().transition == t.id);
    } else {
        let ti = choose|ti: int|
            0 <= ti < net.transitions.len() && #[trigger] by_transition(net, obs, s, next, ti);
        let t = net.transitions[ti];
        let (j, choice, names) = choose|j: int, choice: Seq<usize>, names: Seq<Str>|
            0 <= j < targets_of(obs, s, t).len() && #[trigger] fires(
                net,
                obs,
                s,
                t,
                choice,
                targets_of(obs, s, t)[j],
                names,
                next,
            );
        lemma_targets(obs, s, t, j);
        let base = joined_tokens(s.marking, t.consumes, choice, t.consumes.len() as int)->Some_0;
        let bound = bound_for(obs, t, targets_of(obs, s, t)[j], base)->Ok_0;
        lemma_env_attested(t, bound, net.evidence, names);
        assert(next.path.last().transition == t.id);
    }
}

} // verus!
