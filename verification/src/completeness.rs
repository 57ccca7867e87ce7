//! Why an unsuccessful search means that there is no run that explains the observation.

use crate::covering::{
    covers, lemma_checks, lemma_firing_is_found, lemma_same_shape, lemma_shape, same_shape,
    sound_state,
};
use crate::expand::{
    found_by_record, found_by_transition, found_step, leads, lemma_expansion, lemma_firings,
    lemma_refined_none, looked_at, outcome,
};
use crate::guess::{mark_of, renamed_env, renamed_marking, renamed_pledges};
use crate::keys::{lemma_same_renamed, same_tokens};
use crate::matching::{edge_failures, guard_holds};
use crate::net::{lemma_compiled_from, net_ok, NetView};
use crate::observation::ObservationView;
use crate::runs::{
    accepted_runs_are_explained, explains, found, is_run, lemma_found_reachable, lemma_found_state,
    lemma_initial_found, lemma_run_states, lemma_step_found, slack_only_adds_runs,
};
use crate::search::{
    by_record, by_transition, fires, further, lemma_targets, one_step, record_check, score,
    set_flags, state_ok, targets_of, AimView, CheckView, StateView,
};
use crate::states::{is_open, lemma_open_in, lemma_open_of, lemma_state_key, open_of, state_key};
use crate::text::{has_prefix, Str};
use crate::verify::{
    accepting, expanded, first_quest, initial_state, logged_all, order_of, search_result, searched,
    verified, QuestView, Verdict, VerifyOptions,
};
use vstd::prelude::*;

verus! {

broadcast use vstd::seq_lib::group_to_multiset_ensures;

// ---------------------------------------------------------------------------
// How deep a state is
// ---------------------------------------------------------------------------
proof fn lemma_set_flags_update(v: Seq<bool>, ix: int, n: int)
    requires
        0 <= ix < v.len(),
        !v[ix],
        0 <= n <= v.len(),
    ensures
        set_flags(v.update(ix, true), n) == set_flags(v, n) + (if ix < n {
            1nat
        } else {
            0nat
        }),
    decreases n,
{
    if n > 0 {
        lemma_set_flags_update(v, ix, n - 1);
    }
}

/// A reachable state is as deep as it explains records and uses slack.
proof fn lemma_run_depth(
    net: NetView,
    obs: ObservationView,
    slack: nat,
    run: Seq<StateView>,
    i: int,
)
    requires
        net_ok(net),
        is_run(net, obs, slack, run),
        0 <= i < run.len(),
    ensures
        ({
            let n = obs.records.len() as int;
            run[i].depth + set_flags(initial_state(net, obs).consumed, n) == set_flags(
                run[i].consumed,
                n,
            ) + run[i].slack_used
        }),
    decreases i,
{
    if i > 0 {
        let n = obs.records.len() as int;
        lemma_run_depth(net, obs, slack, run, i - 1);
        lemma_run_states(net, obs, slack, run, i - 1);
        let s = run[i - 1];
        let next = run[i];
        assert(one_step(net, obs, order_of(obs), slack, s, next));
        if exists|ix: int|
            0 <= ix < obs.records.len() && #[trigger] by_record(
                net,
                obs,
                order_of(obs),
                s,
                next,
                ix,
            ) {
            let ix = choose|ix: int|
                0 <= ix < obs.records.len() && #[trigger] by_record(
                    net,
                    obs,
                    order_of(obs),
                    s,
                    next,
                    ix,
                );
            assert(next.consumed == s.consumed.update(ix, true));
            assert(!s.consumed[ix]);
            lemma_set_flags_update(s.consumed, ix, n);
        } else {
            let ti = choose|ti: int|
                0 <= ti < net.transitions.len() && #[trigger] by_transition(
                    net,
                    obs,
                    s,
                    next,
                    ti,
                );
            let t = net.transitions[ti];
            let (j, choice, names) = choose|j: int, choice: Seq<usize>, names: Seq<Str>|
                0 <= j < targets_of(obs, s, t).len() && #[trigger] fires(
                    net,
                    obs,
                    s,
                    t,
                    choice,
                    targets_of(obs, s, t)[j],
                    names,
                    next,
                );
            lemma_targets(obs, s, t, j);
            assert(next.consumed == s.consumed);
        }
    }
}

/// A state that the search comes to is as deep as it explains records and uses slack.
proof fn lemma_found_depth(net: NetView, obs: ObservationView, slack: nat, s: StateView)
    requires
        net_ok(net),
        found(net, obs, slack, s),
    ensures
        ({
            let n = obs.records.len() as int;
            s.depth + set_flags(initial_state(net, obs).consumed, n) == set_flags(s.consumed, n)
                + s.slack_used
        }),
{
    lemma_found_reachable(net, obs, slack, s);
    let run = choose|run: Seq<StateView>| #[trigger]
        is_run(net, obs, slack, run) && run.last() == s;
    lemma_run_depth(net, obs, slack, run, run.len() - 1);
}

// ---------------------------------------------------------------------------
// States with the same text
// ---------------------------------------------------------------------------
proof fn lemma_same_trans(
    a: Seq<Seq<Seq<(Str, Str)>>>,
    b: Seq<Seq<Seq<(Str, Str)>>>,
    c: Seq<Seq<Seq<(Str, Str)>>>,
)
    requires
        same_tokens(a, b),
        same_tokens(a, c),
    ensures
        same_tokens(b, c),
{
    assert forall|p: int| 0 <= p < b.len() implies (#[trigger] b[p]).to_multiset()
        == c[p].to_multiset() by {
        assert(a[p].to_multiset() == b[p].to_multiset());
        assert(a[p].to_multiset() == c[p].to_multiset());
    }
}

/// What a state stands for, so does every other with the same text.
proof fn lemma_same_key(
    net: NetView,
    obs: ObservationView,
    th: Map<Str, Str>,
    a: StateView,
    b: StateView,
    c: StateView,
)
    requires
        covers(mark_of(net, obs), th, a, b),
        sound_state(net, obs, c),
        state_key(mark_of(net, obs), b) == state_key(mark_of(net, obs), c),
        b.depth == c.depth,
    ensures
        covers(mark_of(net, obs), th, a, c),
{
    let mark = mark_of(net, obs);
    lemma_state_key(mark, b, c);
    lemma_same_renamed(th, b.marking, c.marking);
    lemma_same_trans(
        renamed_marking(th, b.marking),
        renamed_marking(th, c.marking),
        a.marking,
    );
    let ps = renamed_pledges(th, c.pledges);
    assert forall|i: int| 0 <= i < ps.len() implies guard_holds((#[trigger] ps[i]).0, ps[i].1) by {
        let q = c.pledges[i];
        assert(ps[i] == (q.0, renamed_env(th, q.1)));
        if is_open(mark, q.1) {
            lemma_open_of(mark, c, i);
            let k = open_of(mark, c).index_of(q);
            assert(open_of(mark, b)[k] == q);
            lemma_open_in(mark, b, k);
            let j = b.pledges.index_of(q);
            assert(renamed_pledges(th, b.pledges)[j] == (q.0, renamed_env(th, q.1)));
        } else {
            assert forall|k: int| 0 <= k < q.1.len() implies crate::guess::renamed(
                th,
                (#[trigger] q.1[k]).1,
            ) == q.1[k].1 by {
                assert(!has_prefix(q.1[k].1, mark));
            }
            assert(renamed_env(th, q.1) =~= q.1);
            assert(guard_holds(c.pledges[i].0, c.pledges[i].1));
        }
    }
}

// ---------------------------------------------------------------------------
// What an unsuccessful search has looked at
// ---------------------------------------------------------------------------
/// Whether the search needs to look no further at `s`: it is too deep, or a state with its text
/// was expanded.
pub open spec fn settled(
    net: NetView,
    obs: ObservationView,
    opts: VerifyOptions,
    seen: Set<Str>,
    s: StateView,
) -> bool {
    s.depth > opts.bound || seen.contains(state_key(mark_of(net, obs), s))
}

/// Whether `done` are the states that were expanded on the way to `q`: none of them accepts,
/// every text seen is that of one of them, whatever a step is found to lead to from one of them,
/// or the initial state, is settled or waits on the stack, and nothing was left out on the way.
pub open spec fn looked_through(
    net: NetView,
    obs: ObservationView,
    opts: VerifyOptions,
    q: QuestView,
    done: Seq<StateView>,
) -> bool {
    let slack = opts.slack as nat;
    let mark = mark_of(net, obs);
    &&& forall|i: int| 0 <= i < q.stack.len() ==> found(net, obs, slack, #[trigger] q.stack[i])
    &&& forall|i: int|
        0 <= i < done.len() ==> found(net, obs, slack, #[trigger] done[i]) && !accepting(
            net,
            obs,
            done[i],
        ) && (q.cut || !expanded(net, obs, slack, done[i]).cut)
    &&& forall|k: Str| #[trigger]
        q.seen.contains(k) ==> exists|i: int|
            0 <= i < done.len() && state_key(mark, #[trigger] done[i]) == k
    &&& forall|i: int, next: StateView|
        0 <= i < done.len() && #[trigger] found_step(
            net,
            obs,
            order_of(obs),
            slack,
            done[i],
            next,
        ) ==> settled(net, obs, opts, q.seen, next) || q.stack.contains(next)
    &&& settled(net, obs, opts, q.seen, initial_state(net, obs)) || q.stack.contains(
        initial_state(net, obs),
    )
}

proof fn lemma_pop_keeps(
    net: NetView,
    obs: ObservationView,
    opts: VerifyOptions,
    q: QuestView,
    done: Seq<StateView>,
)
    requires
        looked_through(net, obs, opts, q, done),
        q.stack.len() > 0,
        settled(net, obs, opts, q.seen, q.stack.last()),
    ensures
        looked_through(
            net,
            obs,
            opts,
            (QuestView { stack: q.stack.drop_last(), states: q.states + 1, ..q }),
            done,
        ),
{
    let slack = opts.slack as nat;
    let popped = QuestView { stack: q.stack.drop_last(), states: q.states + 1, ..q };
    assert forall|i: int| 0 <= i < popped.stack.len() implies found(
        net,
        obs,
        slack,
        #[trigger] popped.stack[i],
    ) by {
        assert(popped.stack[i] == q.stack[i]);
    }
    assert forall|x: StateView| q.stack.contains(x) implies x == q.stack.last()
        || popped.stack.contains(x) by {
        let i = q.stack.index_of(x);
        if i < popped.stack.len() {
            assert(popped.stack[i] == x);
        }
    }
}

/// A search that ends without a find and without running out has expanded states as above, and
/// nothing waits on the stack.
#[verifier::rlimit(60)]
proof fn lemma_search_expands(
    net: NetView,
    obs: ObservationView,
    opts: VerifyOptions,
    q: QuestView,
    done: Seq<StateView>,
) -> (all: Seq<StateView>)
    requires
        net_ok(net),
        looked_through(net, obs, opts, q, done),
        searched(net, obs, opts, q).found is None,
        !searched(net, obs, opts, q).exhausted,
    ensures
        looked_through(net, obs, opts, searched(net, obs, opts, q).quest, all),
        searched(net, obs, opts, q).quest.stack.len() == 0,
        !searched(net, obs, opts, q).quest.cut,
    decreases opts.max_states + 1 - q.states,
{
    if q.stack.len() == 0 {
        done
    } else {
        let slack = opts.slack as nat;
        let mark = mark_of(net, obs);
        let s = q.stack.last();
        assert(s == q.stack[q.stack.len() - 1]);
        let popped = QuestView { stack: q.stack.drop_last(), states: q.states + 1, ..q };
        if settled(net, obs, opts, q.seen, s) {
            lemma_pop_keeps(net, obs, opts, q, done);
            lemma_search_expands(net, obs, opts, popped, done)
        } else {
            let best = if further(score(s), score(q.best)) {
                s
            } else {
                q.best
            };
            let haul = expanded(net, obs, slack, s);
            let more = haul.states;
            let deeper = QuestView {
                stack: popped.stack + more,
                seen: q.seen.insert(state_key(mark, s)),
                best,
                log: logged_all(q.log, score(s), haul.faults, haul.faults.len() as int),
                cut: q.cut || haul.cut,
                ..popped
            };
            let longer = done.push(s);
            assert forall|i: int| 0 <= i < deeper.stack.len() implies found(
                net,
                obs,
                slack,
                #[trigger] deeper.stack[i],
            ) by {
                if i < popped.stack.len() {
                    assert(deeper.stack[i] == q.stack[i]);
                } else {
                    let next = more[i - popped.stack.len()];
                    assert(deeper.stack[i] == next);
                    assert(more.contains(next));
                    lemma_expansion(net, obs, order_of(obs), slack, s, next);
                    lemma_step_found(net, obs, slack, s, next);
                }
            }
            assert forall|i: int| 0 <= i < longer.len() implies found(
                net,
                obs,
                slack,
                #[trigger] longer[i],
            ) && !accepting(net, obs, longer[i]) && (deeper.cut || !expanded(
                net,
                obs,
                slack,
                longer[i],
            ).cut) by {
                if i < done.len() {
                    assert(longer[i] == done[i]);
                } else {
                    assert(longer[i] == s);
                }
            }
            assert forall|k: Str| #[trigger] deeper.seen.contains(k) implies exists|i: int|
                0 <= i < longer.len() && state_key(mark, #[trigger] longer[i]) == k by {
                if k == state_key(mark, s) {
                    assert(longer[done.len() as int] == s);
                } else {
                    assert(q.seen.contains(k));
                    let i = choose|i: int|
                        0 <= i < done.len() && state_key(mark, #[trigger] done[i]) == k;
                    assert(longer[i] == done[i]);
                }
            }
            // What waited on the stack still does, or is settled now.
            assert forall|x: StateView| q.stack.contains(x) implies settled(
                net,
                obs,
                opts,
                deeper.seen,
                x,
            ) || deeper.stack.contains(x) by {
                let i = q.stack.index_of(x);
                if i < popped.stack.len() {
                    assert(deeper.stack[i] == x);
                } else {
                    assert(x == s);
                }
            }
            assert forall|i: int, next: StateView|
                0 <= i < longer.len() && #[trigger] found_step(
                    net,
                    obs,
                    order_of(obs),
                    slack,
                    longer[i],
                    next,
                ) implies settled(net, obs, opts, deeper.seen, next) || deeper.stack.contains(next) by {
                if i < done.len() {
                    assert(longer[i] == done[i]);
                    assert(found_step(net, obs, order_of(obs), slack, done[i], next));
                } else {
                    lemma_expansion(net, obs, order_of(obs), slack, s, next);
                    let j = more.index_of(next);
                    assert(deeper.stack[popped.stack.len() + j] == next);
                }
            }
            assert(looked_through(net, obs, opts, deeper, longer));
            lemma_search_expands(net, obs, opts, deeper, longer)
        }
    }
}

/// A step from a state that `b` stands for is found from `b`, if nothing was left out there.
proof fn lemma_step_is_found(
    net: NetView,
    obs: ObservationView,
    slack: nat,
    th: Map<Str, Str>,
    a: StateView,
    b: StateView,
    a2: StateView,
) -> (r: (StateView, Map<Str, Str>))
    requires
        net_ok(net),
        state_ok(net, obs, a),
        sound_state(net, obs, b),
        covers(mark_of(net, obs), th, a, b),
        one_step(net, obs, order_of(obs), slack, a, a2),
        !expanded(net, obs, slack, b).cut,
    ensures
        found_step(net, obs, order_of(obs), slack, b, r.0),
        covers(mark_of(net, obs), r.1, a2, r.0),
{
    let mark = mark_of(net, obs);
    let preds = order_of(obs);
    lemma_expansion(net, obs, preds, slack, b, b);
    lemma_shape(th, b.marking);
    lemma_same_shape(renamed_marking(th, b.marking), a.marking);
    assert(same_shape(a.marking, b.marking)) by {
        assert forall|p: int| 0 <= p < a.marking.len() implies (#[trigger] a.marking[p]).len()
            == b.marking[p].len() by {
            assert(renamed_marking(th, b.marking)[p].len() == b.marking[p].len());
        }
    }
    lemma_checks(net, obs, preds, a, b);
    if exists|ix: int|
        0 <= ix < obs.records.len() && #[trigger] by_record(net, obs, preds, a, a2, ix) {
        let ix = choose|ix: int|
            0 <= ix < obs.records.len() && #[trigger] by_record(net, obs, preds, a, a2, ix);
        let t = record_check(net, obs, preds, a, ix)->Ready_0;
        lemma_compiled_from(net.transitions, obs.records[ix].step->Some_0, 0);
        let ti = choose|ti: int|
            0 <= ti < net.transitions.len() && #[trigger] net.transitions[ti] == t;
        let aim = AimView::Record(ix);
        let aims = seq![aim];
        assert(record_check(net, obs, preds, b, ix) == CheckView::Ready(t));
        lemma_firings(net, obs, mark, b, t, aims, b);
        assert forall|k: int| 0 <= k < looked_at(b, t).len() implies !outcome(
            net,
            obs,
            mark,
            b,
            t,
            #[trigger] looked_at(b, t)[k],
            aim,
        ).cut by {
            assert(aims[0] == aim);
        }
        let (d, vs) = choose|d: Seq<usize>, vs: Seq<Str>| #[trigger]
            fires(net, obs, a, t, d, aim, vs, a2);
        let (c, next, up) = lemma_firing_is_found(net, obs, th, a, b, ti, d, aim, vs, a2);
        let k = looked_at(b, t).index_of(c);
        assert(outcome(net, obs, mark, b, t, looked_at(b, t)[k], aims[0]).states.contains(next));
        assert(leads(net, obs, mark, b, t, aims, next));
        assert(found_by_record(net, obs, mark, preds, b, next, ix));
        (next, up)
    } else {
        let ti = choose|ti: int|
            0 <= ti < net.transitions.len() && #[trigger] by_transition(net, obs, a, a2, ti);
        let t = net.transitions[ti];
        let aims = targets_of(obs, b, t);
        assert(crate::search::may_go_unlogged(obs, b, t) == crate::search::may_go_unlogged(
            obs,
            a,
            t,
        ));
        assert(targets_of(obs, a, t) == targets_of(obs, b, t));
        lemma_firings(net, obs, mark, b, t, aims, b);
        let (j, d, vs) = choose|j: int, d: Seq<usize>, vs: Seq<Str>|
            0 <= j < targets_of(obs, a, t).len() && #[trigger] fires(
                net,
                obs,
                a,
                t,
                d,
                targets_of(obs, a, t)[j],
                vs,
                a2,
            );
        let aim = aims[j];
        lemma_targets(obs, b, t, j);
        assert forall|k: int| 0 <= k < looked_at(b, t).len() implies !outcome(
            net,
            obs,
            mark,
            b,
            t,
            #[trigger] looked_at(b, t)[k],
            aim,
        ).cut by {
            assert(aims[j] == aim);
        }
        let (c, next, up) = lemma_firing_is_found(net, obs, th, a, b, ti, d, aim, vs, a2);
        let k = looked_at(b, t).index_of(c);
        assert(outcome(net, obs, mark, b, t, looked_at(b, t)[k], aims[j]).states.contains(next));
        assert(leads(net, obs, mark, b, t, aims, next));
        assert(found_by_transition(net, obs, mark, b, next, ti));
        (next, up)
    }
}

/// For every state of a run within the bound there is one that stands for it among those that an
/// unsuccessful search has expanded.
proof fn lemma_run_is_covered(
    net: NetView,
    obs: ObservationView,
    opts: VerifyOptions,
    q: QuestView,
    done: Seq<StateView>,
    run: Seq<StateView>,
    i: int,
) -> (r: (int, Map<Str, Str>))
    requires
        net_ok(net),
        looked_through(net, obs, opts, q, done),
        q.stack.len() == 0,
        !q.cut,
        is_run(net, obs, opts.slack as nat, run),
        run.len() - 1 <= opts.bound,
        0 <= i < run.len(),
    ensures
        0 <= r.0 < done.len(),
        covers(mark_of(net, obs), r.1, run[i], done[r.0]),
    decreases i,
{
    let slack = opts.slack as nat;
    let mark = mark_of(net, obs);
    lemma_run_states(net, obs, slack, run, i);
    if i == 0 {
        let s = run[0];
        let none = Map::<Str, Str>::empty();
        lemma_refined_none(s);
        lemma_initial_found(net, obs, slack);
        lemma_found_state(net, obs, slack, s);
        assert(covers(mark, none, s, s));
        lemma_settled_covers(net, obs, opts, q, done, none, s, s)
    } else {
        let (j, th) = lemma_run_is_covered(net, obs, opts, q, done, run, i - 1);
        let a = run[i - 1];
        let b = done[j];
        lemma_run_states(net, obs, slack, run, i - 1);
        assert(found(net, obs, slack, b));
        lemma_found_state(net, obs, slack, b);
        assert(one_step(net, obs, order_of(obs), slack, a, run[i]));
        let (next, up) = lemma_step_is_found(net, obs, slack, th, a, b, run[i]);
        lemma_step_found(net, obs, slack, b, next);
        assert(found_step(net, obs, order_of(obs), slack, done[j], next));
        assert(settled(net, obs, opts, q.seen, next));
        lemma_settled_covers(net, obs, opts, q, done, up, run[i], next)
    }
}

/// A settled state within the bound has the text of an expanded one, which stands for the same.
proof fn lemma_settled_covers(
    net: NetView,
    obs: ObservationView,
    opts: VerifyOptions,
    q: QuestView,
    done: Seq<StateView>,
    th: Map<Str, Str>,
    a: StateView,
    next: StateView,
) -> (r: (int, Map<Str, Str>))
    requires
        net_ok(net),
        looked_through(net, obs, opts, q, done),
        covers(mark_of(net, obs), th, a, next),
        found(net, obs, opts.slack as nat, next),
        settled(net, obs, opts, q.seen, next),
        a.depth <= opts.bound,
    ensures
        0 <= r.0 < done.len(),
        covers(mark_of(net, obs), r.1, a, done[r.0]),
{
    let slack = opts.slack as nat;
    let mark = mark_of(net, obs);
    assert(q.seen.contains(state_key(mark, next)));
    let k = choose|k: int|
        0 <= k < done.len() && state_key(mark, #[trigger] done[k]) == state_key(mark, next);
    assert(found(net, obs, slack, done[k]));
    lemma_found_state(net, obs, slack, done[k]);
    lemma_found_depth(net, obs, slack, done[k]);
    lemma_found_depth(net, obs, slack, next);
    lemma_state_key(mark, next, done[k]);
    lemma_same_key(net, obs, th, a, next, done[k]);
    (k, th)
}

proof fn lemma_covers_accepting(
    net: NetView,
    obs: ObservationView,
    th: Map<Str, Str>,
    a: StateView,
    b: StateView,
)
    requires
        net_ok(net),
        state_ok(net, obs, a),
        covers(mark_of(net, obs), th, a, b),
        accepting(net, obs, a),
    ensures
        accepting(net, obs, b),
{
    let rb = renamed_marking(th, b.marking);
    let i = choose|i: int|
        0 <= i < net.finals.len() && a.marking[(#[trigger] net.finals[i]) as int].len() > 0;
    let p = net.finals[i] as int;
    lemma_same_shape(rb, a.marking);
    assert(rb[p].len() == a.marking[p].len());
    assert(rb[p].len() == b.marking[p].len());
    assert(b.marking[net.finals[i] as int].len() > 0);
}

/// A run that is rejected is impossible: where the search was not cut short, no run of the
/// declared net within the bound and the slack explains the observation, whatever values its
/// fresh bindings take.
pub proof fn rejected_runs_are_impossible(
    net: NetView,
    obs: ObservationView,
    opts: VerifyOptions,
    run: Seq<StateView>,
)
    requires
        net_ok(net),
        edge_failures(net.spec, obs, obs.edges.len() as int).len() == 0,
        verified(net, obs, opts).verdict == Verdict::Reject,
        !verified(net, obs, opts).exhausted,
    ensures
        !explains(net, obs, opts, run),
{
    let slack = opts.slack as nat;
    let q = first_quest(net, obs);
    reveal(search_result);
    assert(q.stack[0] == initial_state(net, obs));
    assert(q.stack.contains(initial_state(net, obs)));
    lemma_initial_found(net, obs, slack);
    assert(looked_through(net, obs, opts, q, Seq::empty()));
    let done = lemma_search_expands(net, obs, opts, q, Seq::empty());
    let last = search_result(net, obs, opts).quest;
    if explains(net, obs, opts, run) {
        let i = run.len() - 1;
        let (k, th) = lemma_run_is_covered(net, obs, opts, last, done, run, i);
        lemma_run_states(net, obs, slack, run, i);
        lemma_covers_accepting(net, obs, th, run[i], done[k]);
        assert(!accepting(net, obs, done[k]));
    }
}

/// Every legal run is accepted: an observation whose edges are as declared and that some run of
/// the net explains is accepted, unless the search is cut short.
pub proof fn legal_runs_are_accepted(
    net: NetView,
    obs: ObservationView,
    opts: VerifyOptions,
    run: Seq<StateView>,
)
    requires
        net_ok(net),
        edge_failures(net.spec, obs, obs.edges.len() as int).len() == 0,
        explains(net, obs, opts, run),
        !verified(net, obs, opts).exhausted,
    ensures
        verified(net, obs, opts).verdict == Verdict::Accept,
{
    if verified(net, obs, opts).verdict == Verdict::Reject {
        rejected_runs_are_impossible(net, obs, opts, run);
    }
}

/// A rejection that holds with much slack holds with less: what no number of unlogged steps can
/// explain, fewer cannot explain either.
pub proof fn rejections_hold_at_less_slack(
    net: NetView,
    obs: ObservationView,
    opts: VerifyOptions,
    wider: VerifyOptions,
)
    requires
        net_ok(net),
        opts.slack <= wider.slack,
        opts.bound <= wider.bound,
        verified(net, obs, wider).verdict == Verdict::Reject,
        !verified(net, obs, wider).exhausted,
    ensures
        verified(net, obs, opts).verdict == Verdict::Reject,
{
    if verified(net, obs, opts).verdict == Verdict::Accept {
        accepted_runs_are_explained(net, obs, opts);
        let run = choose|run: Seq<StateView>| #[trigger]
            explains(net, obs, opts, run) && verified(net, obs, opts).witness == Some(
                run.last().path,
            );
        slack_only_adds_runs(net, obs, opts, wider, run);
        rejected_runs_are_impossible(net, obs, wider, run);
    }
}

} // verus!
