//! How a state of the search stands for states of executions: the minted names in it may stand
//! for any values, as long as the guards that held on the way still hold.

use crate::expand::{
    aim_effects, candidates, countable, going, goes, lemma_going, lemma_looked_at_all,
    lemma_outcome, lemma_outcome_complete, lemma_refined_none, lemma_start, lemma_used,
    linked_values, looked_at, next_names, outcome, pledges_hold, refined, relevant, same_choice,
    spared, start_of, tried, unknowns,
};
use crate::guess::{
    all_literals, args_upto, chosen_marks, chosen_plains, compose, guess_ok, lead, mark_of,
    marking_values, marks_in, most_lead, named_values, plains_in, renamed, renamed_env,
    renamed_marking, renamed_pledges, renamed_tokens, renamed_values, some_begins,
    symbol, tildes, token_values,
};
use crate::keys::{lemma_decimal_injective, same_tokens};
use crate::matching::{guard_holds, guard_literals};
use crate::net::{
    fired, joined_tokens, lacking_from, lemma_fired_len, net_ok, transition_ok, valid_choice,
    too_many_choices, within, CompiledTransitionView, NetView,
};
use crate::observation::{
    all_effects, effect_named, effects_upto, lemma_effect_from, EffectInstanceView, ObservationView,
};
use crate::ordered::{lemma_put_items_contains, values_of};
use crate::renaming::{
    all_in, fixes, lemma_args_of, lemma_args_upto, lemma_env_for, lemma_fired_renamed,
    lemma_guard_apart, lemma_guard_between, lemma_in_fired, lemma_in_joined, lemma_joined_tokens,
    lemma_relevant, lemma_renamed_same, list_in, marking_in,
};
use crate::search::{
    aim_ok, attempt, env_for, fires, guard_ok, ids_of, lemma_concat_contains, may_go_unlogged,
    record_check, state_ok, stepped, targets_of, AimView, StateView,
};
use crate::states::only_marks;
use crate::text::{has_prefix, Str};
use crate::tokens::{firing_moves_exactly_the_chosen_tokens, gone, lemma_rearranged, rearranges};
use vstd::prelude::*;

verus! {

broadcast use vstd::seq_lib::group_to_multiset_ensures;

// ---------------------------------------------------------------------------
// No named value looks minted
// ---------------------------------------------------------------------------
proof fn lemma_lead(v: Str, k: nat)
    requires
        v.len() >= k,
        forall|i: int| 0 <= i < k ==> v[i] == '~',
    ensures
        lead(v) >= k,
    decreases k,
{
    if k > 0 {
        assert(v[0] == '~');
        let d = v.drop_first();
        assert forall|i: int| 0 <= i < k - 1 implies d[i] == '~' by {
            assert(d[i] == v[i + 1]);
        }
        lemma_lead(d, (k - 1) as nat);
    }
}

proof fn lemma_most_lead(vs: Seq<Str>, n: int, i: int)
    requires
        0 <= i < n <= vs.len(),
    ensures
        lead(vs[i]) <= most_lead(vs, n),
    decreases n,
{
    if i < n - 1 {
        lemma_most_lead(vs, n - 1, i);
    }
}

/// No named value begins as minted names do.
pub proof fn lemma_plain(net: NetView, obs: ObservationView, v: Str)
    requires
        named_values(net, obs).contains(v),
    ensures
        !has_prefix(v, mark_of(net, obs)),
{
    let vs = named_values(net, obs);
    let mark = mark_of(net, obs);
    let k = most_lead(vs, vs.len() as int) + 1;
    if has_prefix(v, mark) {
        let i = vs.index_of(v);
        assert(vs[i] == v);
        assert(some_begins(vs, vs.len() as int, "~fresh"@));
        lemma_most_lead(vs, vs.len() as int, i);
        assert(mark.len() >= k);
        assert forall|i: int| 0 <= i < k implies v[i] == '~' by {
            assert(v.take(mark.len() as int)[i] == v[i]);
            assert(mark[i] == tildes(k)[i]);
        }
        lemma_lead(v, k);
    }
}

proof fn lemma_named(net: NetView, obs: ObservationView, v: Str)
    ensures
        named_values(net, obs).contains(v) <==> {
            ||| args_upto(
                all_effects(obs.records),
                all_effects(obs.records).len() as int,
            ).contains(v)
            ||| marking_values(net.initial, net.initial.len() as int).contains(v)
            ||| all_literals(net.transitions, net.transitions.len() as int).contains(v)
            ||| net.evidence.contains(v)
        },
{
    let a = args_upto(all_effects(obs.records), all_effects(obs.records).len() as int);
    let b = marking_values(net.initial, net.initial.len() as int);
    let c = all_literals(net.transitions, net.transitions.len() as int);
    lemma_concat_contains(a, b, v);
    lemma_concat_contains(a + b, c, v);
    lemma_concat_contains(a + b + c, net.evidence, v);
}

proof fn lemma_all_literals(ts: Seq<CompiledTransitionView>, n: int, i: int, v: Str)
    requires
        0 <= i < n <= ts.len(),
        guard_literals(ts[i].guard).contains(v),
    ensures
        all_literals(ts, n).contains(v),
    decreases n,
{
    if i < n - 1 {
        lemma_all_literals(ts, n - 1, i, v);
    }
    lemma_concat_contains(all_literals(ts, n - 1), guard_literals(ts[n - 1].guard), v);
}

/// No literal of a guard begins as minted names do.
pub proof fn lemma_literal_plain(net: NetView, obs: ObservationView, ti: int, v: Str)
    requires
        0 <= ti < net.transitions.len(),
        guard_literals(net.transitions[ti].guard).contains(v),
    ensures
        !has_prefix(v, mark_of(net, obs)),
{
    lemma_all_literals(net.transitions, net.transitions.len() as int, ti, v);
    lemma_named(net, obs, v);
    lemma_plain(net, obs, v);
}

proof fn lemma_effects_upto(obs: ObservationView, n: int, ix: int, j: int)
    requires
        0 <= ix < n <= obs.records.len(),
        0 <= j < obs.records[ix].effects.len(),
    ensures
        effects_upto(obs.records, n).contains(obs.records[ix].effects[j]),
    decreases n,
{
    let e = obs.records[ix].effects[j];
    if ix < n - 1 {
        lemma_effects_upto(obs, n - 1, ix, j);
    } else {
        assert(obs.records[ix].effects.contains(e));
    }
    lemma_concat_contains(effects_upto(obs.records, n - 1), obs.records[n - 1].effects, e);
}

proof fn lemma_effect_plain(net: NetView, obs: ObservationView, e: EffectInstanceView, v: Str)
    requires
        all_effects(obs.records).contains(e),
        values_of(e.args).contains(v),
    ensures
        !has_prefix(v, mark_of(net, obs)),
{
    let es = all_effects(obs.records);
    let i = es.index_of(e);
    lemma_args_upto(es, es.len() as int, i);
    assert(values_of(es[i].args).contains(v));
    lemma_named(net, obs, v);
    lemma_plain(net, obs, v);
}

proof fn lemma_linked_plain(net: NetView, obs: ObservationView, ids: Seq<Str>, n: int, v: Str)
    requires
        0 <= n <= obs.edges.len(),
        linked_values(obs, ids, n).contains(v),
    ensures
        !has_prefix(v, mark_of(net, obs)),
    decreases n,
{
    if n > 0 {
        let rest = linked_values(obs, ids, n - 1);
        match effect_named(obs.records, obs.edges[n - 1].to) {
            Some(e) => {
                lemma_concat_contains(rest, values_of(e.args), v);
                lemma_effect_from(all_effects(obs.records), obs.edges[n - 1].to, 0);
                if rest.contains(v) {
                    lemma_linked_plain(net, obs, ids, n - 1, v);
                } else {
                    lemma_effect_plain(net, obs, e, v);
                }
            },
            None => {
                lemma_linked_plain(net, obs, ids, n - 1, v);
            },
        }
    }
}

/// What a firing is held against does not begin as minted names do.
pub proof fn lemma_relevant_plain(
    net: NetView,
    obs: ObservationView,
    ti: int,
    aim: AimView,
    v: Str,
)
    requires
        0 <= ti < net.transitions.len(),
        aim_ok(obs, net.transitions[ti], aim),
        relevant(net, obs, net.transitions[ti], aim).contains(v),
    ensures
        !has_prefix(v, mark_of(net, obs)),
{
    let t = net.transitions[ti];
    let es = aim_effects(obs, aim);
    lemma_relevant(net, obs, t, aim, v);
    if args_upto(es, es.len() as int).contains(v) {
        let i = lemma_args_of(es, es.len() as int, v);
        match aim {
            AimView::Record(ix) => {
                lemma_effects_upto(obs, obs.records.len() as int, ix, i);
            },
            AimView::Target(Some(id)) => {
                lemma_effect_from(all_effects(obs.records), id, 0);
            },
            AimView::Target(None) => {},
        }
        lemma_effect_plain(net, obs, es[i], v);
    } else if linked_values(obs, ids_of(es), obs.edges.len() as int).contains(v) {
        lemma_linked_plain(net, obs, ids_of(es), obs.edges.len() as int, v);
    } else if guard_literals(t.guard).contains(v) {
        lemma_literal_plain(net, obs, ti, v);
    } else {
        lemma_named(net, obs, v);
        lemma_plain(net, obs, v);
    }
}

proof fn lemma_token_values(ts: Seq<Seq<(Str, Str)>>, n: int, j: int, i: int)
    requires
        0 <= j < n <= ts.len(),
        0 <= i < ts[j].len(),
    ensures
        token_values(ts, n).contains(ts[j][i].1),
    decreases n,
{
    let v = ts[j][i].1;
    if j < n - 1 {
        lemma_token_values(ts, n - 1, j, i);
    } else {
        assert(values_of(ts[j])[i] == v);
    }
    lemma_concat_contains(token_values(ts, n - 1), values_of(ts[n - 1]), v);
}

proof fn lemma_marking_values(m: Seq<Seq<Seq<(Str, Str)>>>, n: int, p: int, j: int, i: int)
    requires
        0 <= p < n <= m.len(),
        0 <= j < m[p].len(),
        0 <= i < m[p][j].len(),
    ensures
        marking_values(m, n).contains(m[p][j][i].1),
    decreases n,
{
    let v = m[p][j][i].1;
    if p < n - 1 {
        lemma_marking_values(m, n - 1, p, j, i);
    } else {
        lemma_token_values(m[p], m[p].len() as int, j, i);
    }
    lemma_concat_contains(
        marking_values(m, n - 1),
        token_values(m[n - 1], m[n - 1].len() as int),
        v,
    );
}

/// No value of an initial token begins as minted names do.
pub proof fn lemma_initial_plain(net: NetView, obs: ObservationView, p: int, j: int, i: int)
    requires
        0 <= p < net.initial.len(),
        0 <= j < net.initial[p].len(),
        0 <= i < net.initial[p][j].len(),
    ensures
        !has_prefix(net.initial[p][j][i].1, mark_of(net, obs)),
{
    lemma_marking_values(net.initial, net.initial.len() as int, p, j, i);
    lemma_named(net, obs, net.initial[p][j][i].1);
    lemma_plain(net, obs, net.initial[p][j][i].1);
}

/// A renaming of minted names keeps what a firing is held against.
pub proof fn lemma_marks_fix(
    net: NetView,
    obs: ObservationView,
    ti: int,
    aim: AimView,
    r: Map<Str, Str>,
)
    requires
        0 <= ti < net.transitions.len(),
        aim_ok(obs, net.transitions[ti], aim),
        only_marks(mark_of(net, obs), r),
    ensures
        fixes(r, relevant(net, obs, net.transitions[ti], aim)),
{
    let vs = relevant(net, obs, net.transitions[ti], aim);
    assert forall|v: Str| #[trigger] vs.contains(v) implies renamed(r, v) == v by {
        lemma_relevant_plain(net, obs, ti, aim, v);
    }
}

/// Whether each guard of a state is that of a transition.
pub open spec fn pledged(net: NetView, s: StateView) -> bool {
    forall|i: int|
        0 <= i < s.pledges.len() ==> exists|ti: int|
            0 <= ti < net.transitions.len() && (#[trigger] net.transitions[ti]).guard == Some(
                (#[trigger] s.pledges[i]).0,
            )
}

/// A renaming of minted names keeps the literals of guards.
pub proof fn lemma_pledges_fix(
    net: NetView,
    obs: ObservationView,
    s: StateView,
    i: int,
    r: Map<Str, Str>,
)
    requires
        pledged(net, s),
        0 <= i < s.pledges.len(),
        only_marks(mark_of(net, obs), r),
    ensures
        fixes(r, guard_literals(Some(s.pledges[i].0))),
{
    let g = s.pledges[i].0;
    let ti = choose|ti: int|
        0 <= ti < net.transitions.len() && (#[trigger] net.transitions[ti]).guard == Some(g);
    let vs = guard_literals(Some(g));
    assert forall|v: Str| #[trigger] vs.contains(v) implies renamed(r, v) == v by {
        lemma_literal_plain(net, obs, ti, v);
    }
}

// ---------------------------------------------------------------------------
// Markings of the same shape
// ---------------------------------------------------------------------------
/// Whether two markings have as many tokens in each place.
pub open spec fn same_shape(
    a: Seq<Seq<Seq<(Str, Str)>>>,
    b: Seq<Seq<Seq<(Str, Str)>>>,
) -> bool {
    a.len() == b.len() && forall|p: int| 0 <= p < a.len() ==> (#[trigger] a[p]).len() == b[p].len()
}

pub proof fn lemma_shape(r: Map<Str, Str>, m: Seq<Seq<Seq<(Str, Str)>>>)
    ensures
        same_shape(m, renamed_marking(r, m)),
{
}

pub proof fn lemma_same_shape(a: Seq<Seq<Seq<(Str, Str)>>>, b: Seq<Seq<Seq<(Str, Str)>>>)
    requires
        same_tokens(a, b),
    ensures
        same_shape(a, b),
{
    assert forall|p: int| 0 <= p < a.len() implies (#[trigger] a[p]).len() == b[p].len() by {
        assert(a[p].to_multiset() == b[p].to_multiset());
        assert(a[p].len() == a[p].to_multiset().len());
        assert(b[p].len() == b[p].to_multiset().len());
    }
}

pub proof fn lemma_lacking(
    a: Seq<Seq<Seq<(Str, Str)>>>,
    b: Seq<Seq<Seq<(Str, Str)>>>,
    consumes: Seq<usize>,
    p: int,
)
    requires
        same_shape(a, b),
        0 <= p,
    ensures
        lacking_from(a, consumes, p) == lacking_from(b, consumes, p),
    decreases a.len() - p,
{
    if p < a.len() {
        assert(a[p].len() == b[p].len());
        lemma_lacking(a, b, consumes, p + 1);
    }
}

/// Which steps can be tried depends on how many tokens there are, not on which.
pub proof fn lemma_checks(
    net: NetView,
    obs: ObservationView,
    preds: Seq<Seq<usize>>,
    a: StateView,
    b: StateView,
)
    requires
        same_shape(a.marking, b.marking),
        a.consumed == b.consumed,
        a.matched == b.matched,
    ensures
        forall|ix: int| #[trigger]
            record_check(net, obs, preds, a, ix) == record_check(net, obs, preds, b, ix),
        forall|t: CompiledTransitionView| #[trigger]
            may_go_unlogged(obs, a, t) == may_go_unlogged(obs, b, t),
        forall|t: CompiledTransitionView| #[trigger]
            targets_of(obs, a, t) == targets_of(obs, b, t),
{
    assert forall|ix: int| #[trigger]
        record_check(net, obs, preds, a, ix) == record_check(net, obs, preds, b, ix) by {
        match crate::net::compiled_from(net.transitions, obs.records[ix].step->Some_0, 0) {
            Some(t) => {
                lemma_lacking(a.marking, b.marking, t.consumes, 0);
            },
            None => {},
        }
    }
    assert forall|t: CompiledTransitionView| #[trigger]
        may_go_unlogged(obs, a, t) == may_go_unlogged(obs, b, t) by {
        lemma_lacking(a.marking, b.marking, t.consumes, 0);
    }
}

// ---------------------------------------------------------------------------
// What stands for what
// ---------------------------------------------------------------------------
/// Everything.
pub open spec fn anything() -> Set<Str> {
    Set::new(|v: Str| true)
}

/// A firing from a state of the search is one from the state that it stands for.
pub proof fn lemma_fires_renamed(
    net: NetView,
    obs: ObservationView,
    th: Map<Str, Str>,
    c: StateView,
    ti: int,
    choice: Seq<usize>,
    aim: AimView,
    names: Seq<Str>,
    b: StateView,
)
    requires
        net_ok(net),
        state_ok(net, obs, c),
        0 <= ti < net.transitions.len(),
        aim_ok(obs, net.transitions[ti], aim),
        only_marks(mark_of(net, obs), th),
        fires(net, obs, c, net.transitions[ti], choice, aim, names, b),
        pledges_hold(renamed_pledges(th, b.pledges)),
    ensures
        fires(
            net,
            obs,
            refined(th, c),
            net.transitions[ti],
            choice,
            aim,
            renamed_values(th, names),
            refined(th, b),
        ),
{
    let t = net.transitions[ti];
    let n = t.consumes.len() as int;
    let rc = refined(th, c);
    assert(transition_ok(t, net.place_names.len() as int));
    assert forall|k: int| 0 <= k < choice.len() implies #[trigger] choice[k]
        < rc.marking[t.consumes[k] as int].len() by {
        assert(t.consumes[k] < c.marking.len());
    }
    assert(valid_choice(rc.marking, t.consumes, choice));
    let x = attempt(net, obs, c, t, choice, aim, names)->Go_0;
    let base = joined_tokens(c.marking, t.consumes, choice, n)->Some_0;
    let p = env_for(net, obs, t, aim, c.matched, base, names)->Ok_0;
    assert forall|s: int| 0 <= s < t.consumes.len() implies rc.marking[(#[trigger] t.consumes[s])
        as int][choice[s] as int] == renamed_env(
        th,
        c.marking[t.consumes[s] as int][choice[s] as int],
    ) by {
        assert(choice[s] < c.marking[t.consumes[s] as int].len());
    }
    lemma_joined_tokens(th, c.marking, rc.marking, t.consumes, choice, choice, n);
    lemma_marks_fix(net, obs, ti, aim, th);
    lemma_env_for(th, anything(), net, obs, t, aim, c.matched, base, names);
    assert(guard_ok(t, renamed_env(th, p.0))) by {
        match t.guard {
            Some(g) => {
                let i = c.pledges.len() as int;
                assert(b.pledges[i] == (g, p.0));
                assert(renamed_pledges(th, b.pledges)[i] == (g, renamed_env(th, p.0)));
            },
            None => {},
        }
    }
    lemma_fired_renamed(th, net, c.marking, t, choice, p.0);
    let y = stepped(net, obs, rc, t, choice, aim, renamed_env(th, p.0), p.1);
    assert(refined(th, b).path =~= y.path);
    assert(refined(th, b).pledges =~= y.pledges);
}

/// Whether the minted names of `b` can stand for values such that `b` is `a`.
pub open spec fn covers(mark: Str, th: Map<Str, Str>, a: StateView, b: StateView) -> bool {
    &&& a.consumed == b.consumed
    &&& a.matched == b.matched
    &&& a.slack_used == b.slack_used
    &&& a.depth == b.depth
    &&& only_marks(mark, th)
    &&& same_tokens(renamed_marking(th, b.marking), a.marking)
    &&& pledges_hold(renamed_pledges(th, b.pledges))
}

/// The values that are no minted names, and the first `n` minted names.
pub open spec fn names_upto(mark: Str, n: nat) -> Set<Str> {
    Set::new(
        |v: Str|
            has_prefix(v, mark) ==> exists|k: nat| 1 <= k <= n && v == #[trigger] symbol(mark, k),
    )
}

/// Whether a state speaks of no minted name that is still to come.
pub open spec fn tidy(mark: Str, s: StateView) -> bool {
    &&& marking_in(names_upto(mark, s.fresh), s.marking)
    &&& forall|i: int|
        0 <= i < s.pledges.len() ==> all_in(
            names_upto(mark, s.fresh),
            (#[trigger] s.pledges[i]).1,
        )
}

proof fn lemma_symbol(mark: Str, a: nat, b: nat)
    requires
        symbol(mark, a) == symbol(mark, b),
    ensures
        a == b,
{
    let n = mark.len() as int;
    assert(symbol(mark, a).skip(n) =~= crate::text::decimal(a));
    assert(symbol(mark, b).skip(n) =~= crate::text::decimal(b));
    lemma_decimal_injective(a, b);
}

proof fn lemma_marked(mark: Str, n: nat)
    ensures
        has_prefix(symbol(mark, n), mark),
{
    assert(symbol(mark, n).take(mark.len() as int) =~= mark);
}

/// `th`, and these values for the next names.
pub open spec fn with_names(
    mark: Str,
    th: Map<Str, Str>,
    start: nat,
    vs: Seq<Str>,
) -> Map<Str, Str> {
    let names = next_names(mark, start, vs.len());
    Map::new(
        |v: Str| th.dom().contains(v) || names.contains(v),
        |v: Str|
            if names.contains(v) {
                vs[names.index_of(v)]
            } else {
                th[v]
            },
    )
}

proof fn lemma_with_names(mark: Str, th: Map<Str, Str>, start: nat, vs: Seq<Str>)
    requires
        only_marks(mark, th),
    ensures
        only_marks(mark, with_names(mark, th, start, vs)),
        renamed_values(with_names(mark, th, start, vs), next_names(mark, start, vs.len())) == vs,
        forall|v: Str|
            names_upto(mark, start).contains(v) ==> #[trigger] renamed(
                with_names(mark, th, start, vs),
                v,
            ) == renamed(th, v),
{
    let names = next_names(mark, start, vs.len());
    let up = with_names(mark, th, start, vs);
    assert forall|v: Str| #[trigger] up.dom().contains(v) implies has_prefix(v, mark) by {
        if names.contains(v) {
            let i = names.index_of(v);
            assert(v == symbol(mark, (start + i + 1) as nat));
            lemma_marked(mark, (start + i + 1) as nat);
        }
    }
    assert forall|i: int| 0 <= i < vs.len() implies renamed(up, names[i]) == vs[i] by {
        assert(names.contains(names[i]));
        let j = names.index_of(names[i]);
        assert(names[j] == names[i]);
        lemma_symbol(mark, (start + i + 1) as nat, (start + j + 1) as nat);
    }
    assert(renamed_values(up, names) =~= vs);
    assert forall|v: Str| names_upto(mark, start).contains(v) implies #[trigger] renamed(up, v)
        == renamed(th, v) by {
        if names.contains(v) {
            let i = names.index_of(v);
            assert(v == symbol(mark, (start + i + 1) as nat));
            lemma_marked(mark, (start + i + 1) as nat);
            let k = choose|k: nat| 1 <= k <= start && v == #[trigger] symbol(mark, k);
            lemma_symbol(mark, k, (start + i + 1) as nat);
        }
    }
}

proof fn lemma_names_more(mark: Str, n: nat, m: nat, v: Str)
    requires
        n <= m,
        names_upto(mark, n).contains(v),
    ensures
        names_upto(mark, m).contains(v),
{
    if has_prefix(v, mark) {
        let k = choose|k: nat| 1 <= k <= n && v == #[trigger] symbol(mark, k);
        assert(1 <= k <= m && v == symbol(mark, k));
    }
}

proof fn lemma_marking_same(
    r: Map<Str, Str>,
    s: Map<Str, Str>,
    vs: Set<Str>,
    m: Seq<Seq<Seq<(Str, Str)>>>,
)
    requires
        marking_in(vs, m),
        forall|v: Str| #[trigger] vs.contains(v) ==> renamed(r, v) == renamed(s, v),
    ensures
        renamed_marking(r, m) == renamed_marking(s, m),
{
    assert forall|p: int| 0 <= p < m.len() implies renamed_tokens(r, #[trigger] m[p])
        == renamed_tokens(s, m[p]) by {
        assert forall|i: int| 0 <= i < m[p].len() implies renamed_env(r, m[p][i]) == renamed_env(
            s,
            m[p][i],
        ) by {
            assert(all_in(vs, m[p][i]));
            lemma_renamed_same(r, s, m[p][i]);
        }
        assert(renamed_tokens(r, m[p]) =~= renamed_tokens(s, m[p]));
    }
    assert(renamed_marking(r, m) =~= renamed_marking(s, m));
}

/// With values for the next names, a state stands for the same.
proof fn lemma_covers_with_names(
    mark: Str,
    th: Map<Str, Str>,
    a: StateView,
    b: StateView,
    start: nat,
    vs: Seq<Str>,
)
    requires
        covers(mark, th, a, b),
        tidy(mark, b),
        b.fresh <= start,
    ensures
        covers(mark, with_names(mark, th, start, vs), a, b),
        renamed_marking(with_names(mark, th, start, vs), b.marking) == renamed_marking(
            th,
            b.marking,
        ),
{
    let up = with_names(mark, th, start, vs);
    let known = names_upto(mark, b.fresh);
    lemma_with_names(mark, th, start, vs);
    assert forall|v: Str| #[trigger] known.contains(v) implies renamed(up, v) == renamed(th, v) by {
        lemma_names_more(mark, b.fresh, start, v);
    }
    lemma_marking_same(up, th, known, b.marking);
    assert(renamed_pledges(up, b.pledges) =~= renamed_pledges(th, b.pledges)) by {
        assert forall|i: int| 0 <= i < b.pledges.len() implies renamed_env(up, b.pledges[i].1)
            == renamed_env(th, b.pledges[i].1) by {
            assert(all_in(known, b.pledges[i].1));
            lemma_renamed_same(up, th, b.pledges[i].1);
        }
    }
}

// ---------------------------------------------------------------------------
// The order of tokens
// ---------------------------------------------------------------------------
/// Where each of `u`'s items stands in `v`, and back.
pub open spec fn rearrangement<A>(u: Seq<A>, v: Seq<A>) -> (Seq<int>, Seq<int>) {
    choose|pq: (Seq<int>, Seq<int>)| #[trigger] rearranges(u, v, pq.0, pq.1)
}

/// The choice of the same tokens from a marking that holds them in another order.
pub open spec fn other_choice(
    a: Seq<Seq<Seq<(Str, Str)>>>,
    b: Seq<Seq<Seq<(Str, Str)>>>,
    consumes: Seq<usize>,
    c: Seq<usize>,
) -> Seq<usize> {
    Seq::new(
        c.len(),
        |s: int|
            rearrangement(a[consumes[s] as int], b[consumes[s] as int]).0[c[s] as int] as usize,
    )
}

pub proof fn lemma_other_choice(
    a: Seq<Seq<Seq<(Str, Str)>>>,
    b: Seq<Seq<Seq<(Str, Str)>>>,
    consumes: Seq<usize>,
    c: Seq<usize>,
)
    requires
        same_tokens(a, b),
        within(consumes, a.len() as int),
        valid_choice(a, consumes, c),
        forall|p: int| 0 <= p < a.len() ==> (#[trigger] b[p]).len() <= usize::MAX,
    ensures
        valid_choice(b, consumes, other_choice(a, b, consumes, c)),
        forall|s: int|
            0 <= s < c.len() ==> b[consumes[s] as int][(#[trigger] other_choice(
                a,
                b,
                consumes,
                c,
            )[s]) as int] == a[consumes[s] as int][c[s] as int],
{
    let d = other_choice(a, b, consumes, c);
    assert forall|s: int| 0 <= s < c.len() implies {
        let p = consumes[s] as int;
        let pq = rearrangement(a[p], b[p]);
        &&& rearranges(a[p], b[p], pq.0, pq.1)
        &&& (#[trigger] d[s]) == pq.0[c[s] as int]
        &&& d[s] < b[p].len()
        &&& b[p][d[s] as int] == a[p][c[s] as int]
        &&& pq.1[d[s] as int] == c[s]
    } by {
        let p = consumes[s] as int;
        assert(a[p].to_multiset() == b[p].to_multiset());
        let pq = lemma_rearranged(a[p], b[p]);
        assert(rearranges(a[p], b[p], pq.0, pq.1));
        let best = rearrangement(a[p], b[p]);
        assert(rearranges(a[p], b[p], best.0, best.1));
        assert(c[s] < a[p].len());
        let k = c[s] as int;
        assert(0 <= best.0[k] < a[p].len());
        assert(b[p].len() <= usize::MAX);
    }
    assert forall|s: int, u: int|
        0 <= s < u < d.len() && consumes[s] == consumes[u] implies #[trigger] d[s]
        != #[trigger] d[u] by {
        assert(c[s] != c[u]);
    }
}

proof fn lemma_gone_same(
    a: Seq<Seq<(Str, Str)>>,
    b: Seq<Seq<(Str, Str)>>,
    consumes: Seq<usize>,
    c: Seq<usize>,
    d: Seq<usize>,
    p: int,
    j: int,
)
    requires
        0 <= j <= consumes.len(),
        c.len() == consumes.len(),
        d.len() == consumes.len(),
        forall|s: int|
            0 <= s < consumes.len() && consumes[s] == p ==> b[(#[trigger] d[s]) as int]
                == a[c[s] as int],
    ensures
        gone(a, consumes, c, p, j) == gone(b, consumes, d, p, j),
    decreases j,
{
    if j > 0 {
        lemma_gone_same(a, b, consumes, c, d, p, j - 1);
        if consumes[j - 1] == p {
            assert(b[d[j - 1] as int] == a[c[j - 1] as int]);
        }
    }
}

/// Firing does not depend on the order of tokens.
pub proof fn lemma_fired_same(
    net: NetView,
    a: Seq<Seq<Seq<(Str, Str)>>>,
    b: Seq<Seq<Seq<(Str, Str)>>>,
    t: CompiledTransitionView,
    c: Seq<usize>,
    d: Seq<usize>,
    env: Seq<(Str, Str)>,
)
    requires
        net_ok(net),
        a.len() == net.place_names.len(),
        transition_ok(t, a.len() as int),
        same_tokens(a, b),
        valid_choice(a, t.consumes, c),
        valid_choice(b, t.consumes, d),
        forall|s: int|
            0 <= s < c.len() ==> b[t.consumes[s] as int][(#[trigger] d[s]) as int]
                == a[t.consumes[s] as int][c[s] as int],
    ensures
        same_tokens(fired(net, a, t, c, env), fired(net, b, t, d, env)),
{
    lemma_fired_len(net, a, t, c, env);
    lemma_fired_len(net, b, t, d, env);
    assert forall|p: int| 0 <= p < a.len() implies (#[trigger] fired(
        net,
        a,
        t,
        c,
        env,
    )[p]).to_multiset() == fired(net, b, t, d, env)[p].to_multiset() by {
        firing_moves_exactly_the_chosen_tokens(net, a, t, c, env, p);
        firing_moves_exactly_the_chosen_tokens(net, b, t, d, env, p);
        assert(a[p].to_multiset() == b[p].to_multiset());
        assert forall|s: int|
            0 <= s < t.consumes.len() && t.consumes[s] == p implies b[p][(#[trigger] d[s]) as int]
            == a[p][c[s] as int] by {
            assert(b[t.consumes[s] as int][d[s] as int] == a[t.consumes[s] as int][c[s] as int]);
        }
        lemma_gone_same(a[p], b[p], t.consumes, c, d, p, t.consumes.len() as int);
        let g = gone(a[p], t.consumes, c, p, t.consumes.len() as int);
        let fa = fired(net, a, t, c, env)[p].to_multiset();
        let fb = fired(net, b, t, d, env)[p].to_multiset();
        assert(fa.add(g) == fb.add(g));
        assert forall|x: Seq<(Str, Str)>| fa.count(x) == fb.count(x) by {
            assert(fa.add(g).count(x) == fa.count(x) + g.count(x));
            assert(fb.add(g).count(x) == fb.count(x) + g.count(x));
        }
        assert(fa =~= fb);
    }
}

// ---------------------------------------------------------------------------
// One firing
// ---------------------------------------------------------------------------
/// Whether the tokens of choice `c` stand for those of choice `d` of another marking.
pub open spec fn stands_for(
    th: Map<Str, Str>,
    m: Seq<Seq<Seq<(Str, Str)>>>,
    m2: Seq<Seq<Seq<(Str, Str)>>>,
    consumes: Seq<usize>,
    c: Seq<usize>,
    d: Seq<usize>,
) -> bool {
    forall|s: int|
        0 <= s < consumes.len() ==> m2[(#[trigger] consumes[s]) as int][d[s] as int] == renamed_env(
            th,
            m[consumes[s] as int][c[s] as int],
        )
}

/// Where a firing from a state of the search goes, it stands for the firing with the values that
/// its names stand for.
proof fn lemma_covers_firing(
    net: NetView,
    obs: ObservationView,
    th: Map<Str, Str>,
    a: StateView,
    b: StateView,
    ti: int,
    d: Seq<usize>,
    c: Seq<usize>,
    aim: AimView,
    vs: Seq<Str>,
    names: Seq<Str>,
    a2: StateView,
    b2: StateView,
)
    requires
        net_ok(net),
        state_ok(net, obs, a),
        state_ok(net, obs, b),
        0 <= ti < net.transitions.len(),
        aim_ok(obs, net.transitions[ti], aim),
        covers(mark_of(net, obs), th, a, b),
        stands_for(th, b.marking, a.marking, net.transitions[ti].consumes, c, d),
        renamed_values(th, names) == vs,
        fires(net, obs, a, net.transitions[ti], d, aim, vs, a2),
        fires(net, obs, b, net.transitions[ti], c, aim, names, b2),
    ensures
        covers(mark_of(net, obs), th, a2, b2),
{
    let t = net.transitions[ti];
    let n = t.consumes.len() as int;
    assert(transition_ok(t, net.place_names.len() as int));
    let base = joined_tokens(b.marking, t.consumes, c, n)->Some_0;
    lemma_joined_tokens(th, b.marking, a.marking, t.consumes, c, d, n);
    lemma_marks_fix(net, obs, ti, aim, th);
    lemma_env_for(th, anything(), net, obs, t, aim, b.matched, base, names);
    let p = env_for(net, obs, t, aim, b.matched, base, names)->Ok_0;
    let env = renamed_env(th, p.0);
    assert(env_for(net, obs, t, aim, a.matched, renamed_env(th, base), vs) is Ok);
    let rb = renamed_marking(th, b.marking);
    lemma_fired_renamed(th, net, b.marking, t, c, p.0);
    assert(valid_choice(rb, t.consumes, c)) by {
        assert forall|k: int| 0 <= k < c.len() implies #[trigger] c[k]
            < rb[t.consumes[k] as int].len() by {
            assert(t.consumes[k] < b.marking.len());
        }
    }
    assert forall|s: int| 0 <= s < c.len() implies a.marking[t.consumes[s] as int][(
    #[trigger] d[s]) as int] == rb[t.consumes[s] as int][c[s] as int] by {
        assert(t.consumes[s] < b.marking.len());
        assert(c[s] < b.marking[t.consumes[s] as int].len());
    }
    lemma_fired_same(net, rb, a.marking, t, c, d, env);
    assert(renamed_pledges(th, b2.pledges) =~= (match t.guard {
        Some(g) => renamed_pledges(th, b.pledges).push((g, env)),
        None => renamed_pledges(th, b.pledges),
    }));
    assert(pledges_hold(renamed_pledges(th, b2.pledges))) by {
        let ps = renamed_pledges(th, b2.pledges);
        assert forall|i: int| 0 <= i < ps.len() implies guard_holds(
            (#[trigger] ps[i]).0,
            ps[i].1,
        ) by {
            if i < b.pledges.len() {
                assert(ps[i] == renamed_pledges(th, b.pledges)[i]);
            }
        }
    }
}

// ---------------------------------------------------------------------------
// What the names at hand may stand for
// ---------------------------------------------------------------------------
/// What stands for `u`: itself where it is one of `ts`, else one of the names that stand for it.
pub open spec fn standing(up: Map<Str, Str>, un: Seq<Str>, ts: Seq<Str>, u: Str) -> Str {
    if ts.contains(u) {
        u
    } else {
        choose|s: Str| #[trigger] un.contains(s) && renamed(up, s) == u
    }
}

/// The guess at what each of these names stands for.
pub open spec fn best_guess(up: Map<Str, Str>, un: Seq<Str>, ts: Seq<Str>) -> Map<Str, Str> {
    Map::new(|v: Str| un.contains(v), |v: Str| standing(up, un, ts, renamed(up, v)))
}

/// Back from values to what stands for them.
pub open spec fn undone(up: Map<Str, Str>, un: Seq<Str>, ts: Seq<Str>) -> Map<Str, Str> {
    Map::new(
        |u: Str|
            !ts.contains(u) && exists|s: Str| #[trigger] un.contains(s) && renamed(up, s) == u,
        |u: Str| standing(up, un, ts, u),
    )
}

/// The values at hand.
pub open spec fn at_hand(up: Map<Str, Str>, un: Seq<Str>, ts: Seq<Str>) -> Set<Str> {
    Set::new(
        |u: Str|
            ts.contains(u) || exists|s: Str| #[trigger] un.contains(s) && renamed(up, s) == u,
    )
}

/// Whether `ts` are plain values and `un` minted names.
pub open spec fn split_up(mark: Str, un: Seq<Str>, ts: Seq<Str>) -> bool {
    &&& forall|v: Str| #[trigger] ts.contains(v) ==> !has_prefix(v, mark)
    &&& forall|v: Str| #[trigger] un.contains(v) ==> has_prefix(v, mark)
}

proof fn lemma_best_guess(mark: Str, up: Map<Str, Str>, un: Seq<Str>, ts: Seq<Str>)
    requires
        split_up(mark, un, ts),
        only_marks(mark, up),
    ensures
        guess_ok(best_guess(up, un, ts), un, ts + un),
        fixes(undone(up, un, ts), ts),
        forall|s: Str| #[trigger]
            un.contains(s) ==> renamed(best_guess(up, un, ts), s) == renamed(
                undone(up, un, ts),
                renamed(up, s),
            ),
        forall|v: Str|
            renamed(up, #[trigger] renamed(best_guess(up, un, ts), v)) == renamed(up, v),
        forall|x: Str, y: Str|
            at_hand(up, un, ts).contains(x) && at_hand(up, un, ts).contains(y)
                && #[trigger] renamed(undone(up, un, ts), x) == #[trigger] renamed(
                undone(up, un, ts),
                y,
            ) ==> x == y,
{
    let g = best_guess(up, un, ts);
    let r = undone(up, un, ts);
    assert forall|v: Str| #[trigger] un.contains(v) implies {
        let u = renamed(up, v);
        let w = standing(up, un, ts, u);
        &&& renamed(up, w) == u
        &&& ts.contains(w) || un.contains(w)
        &&& ts.contains(u) ==> w == u
        &&& !ts.contains(u) ==> un.contains(w)
    } by {
        let u = renamed(up, v);
        if !ts.contains(u) {
            assert(un.contains(v) && renamed(up, v) == u);
        }
    }
    assert forall|v: Str| #[trigger] g.dom().contains(v) implies un.contains(v) && (ts
        + un).contains(g[v]) by {
        lemma_concat_contains(ts, un, g[v]);
    }
    assert forall|u: Str| #[trigger] r.dom().contains(u) implies un.contains(r[u]) && renamed(
        up,
        r[u],
    ) == u by {
        let s = choose|s: Str| #[trigger] un.contains(s) && renamed(up, s) == u;
        assert(un.contains(s));
    }
    assert forall|x: Str, y: Str|
        at_hand(up, un, ts).contains(x) && at_hand(up, un, ts).contains(y) && #[trigger] renamed(
            r,
            x,
        ) == #[trigger] renamed(r, y) implies x == y by {
        if r.dom().contains(x) && !r.dom().contains(y) {
            assert(ts.contains(y));
            assert(un.contains(r[x]));
        }
        if r.dom().contains(y) && !r.dom().contains(x) {
            assert(ts.contains(x));
            assert(un.contains(r[y]));
        }
    }
}

proof fn lemma_split_token(mark: Str, e: Seq<(Str, Str)>, n: int)
    requires
        0 <= n <= e.len(),
    ensures
        forall|i: int|
            0 <= i < n ==> (if has_prefix((#[trigger] e[i]).1, mark) {
                marks_in(mark, e, n).contains(e[i].1)
            } else {
                plains_in(mark, e, n).contains(e[i].1)
            }),
        forall|v: Str| #[trigger] marks_in(mark, e, n).contains(v) ==> has_prefix(v, mark)
            && values_of(e).contains(v),
        forall|v: Str| #[trigger] plains_in(mark, e, n).contains(v) ==> !has_prefix(v, mark),
    decreases n,
{
    if n > 0 {
        lemma_split_token(mark, e, n - 1);
        let v = e[n - 1].1;
        let a = marks_in(mark, e, n - 1);
        let b = plains_in(mark, e, n - 1);
        assert(values_of(e)[n - 1] == v);
        assert forall|w: Str| #[trigger] a.push(v).contains(w) <==> a.contains(w) || w == v by {
            crate::search::lemma_push_contains(a, v, w);
        }
        assert forall|w: Str| #[trigger] b.push(v).contains(w) <==> b.contains(w) || w == v by {
            crate::search::lemma_push_contains(b, v, w);
        }
    }
}

proof fn lemma_split_chosen(
    mark: Str,
    m: Seq<Seq<Seq<(Str, Str)>>>,
    consumes: Seq<usize>,
    choice: Seq<usize>,
    n: int,
)
    requires
        0 <= n <= consumes.len(),
    ensures
        forall|k: int, i: int|
            0 <= k < n && 0 <= i < m[consumes[k] as int][choice[k] as int].len() ==> (
            if has_prefix((#[trigger] m[consumes[k] as int][choice[k] as int][i]).1, mark) {
                chosen_marks(mark, m, consumes, choice, n).contains(
                    m[consumes[k] as int][choice[k] as int][i].1,
                )
            } else {
                chosen_plains(mark, m, consumes, choice, n).contains(
                    m[consumes[k] as int][choice[k] as int][i].1,
                )
            }),
        forall|v: Str| #[trigger]
            chosen_marks(mark, m, consumes, choice, n).contains(v) ==> has_prefix(v, mark),
        forall|v: Str| #[trigger]
            chosen_plains(mark, m, consumes, choice, n).contains(v) ==> !has_prefix(v, mark),
        forall|v: Str| #[trigger]
            chosen_marks(mark, m, consumes, choice, n).contains(v) ==> exists|k: int|
                0 <= k < n && values_of(
                    m[(#[trigger] consumes[k]) as int][choice[k] as int],
                ).contains(v),
    decreases n,
{
    if n > 0 {
        lemma_split_chosen(mark, m, consumes, choice, n - 1);
        let token = m[consumes[n - 1] as int][choice[n - 1] as int];
        lemma_split_token(mark, token, token.len() as int);
        let a = chosen_marks(mark, m, consumes, choice, n - 1);
        let b = chosen_plains(mark, m, consumes, choice, n - 1);
        let x = marks_in(mark, token, token.len() as int);
        let y = plains_in(mark, token, token.len() as int);
        assert forall|v: Str| #[trigger] (a + x).contains(v) <==> a.contains(v) || x.contains(v) by {
            lemma_concat_contains(a, x, v);
        }
        assert forall|v: Str| #[trigger] (b + y).contains(v) <==> b.contains(v) || y.contains(v) by {
            lemma_concat_contains(b, y, v);
        }
        assert forall|v: Str| #[trigger] (a + x).contains(v) implies exists|k: int|
            0 <= k < n && values_of(
                m[(#[trigger] consumes[k]) as int][choice[k] as int],
            ).contains(v) by {
            if a.contains(v) {
                let k = choose|k: int|
                    0 <= k < n - 1 && values_of(
                        m[(#[trigger] consumes[k]) as int][choice[k] as int],
                    ).contains(v);
                assert(0 <= k < n);
            } else {
                assert(values_of(m[consumes[n - 1] as int][choice[n - 1] as int]).contains(v));
            }
        }
    }
}

proof fn lemma_unknowns(
    net: NetView,
    obs: ObservationView,
    s: StateView,
    ti: int,
    choice: Seq<usize>,
    aim: AimView,
    start: nat,
)
    requires
        0 <= ti < net.transitions.len(),
        aim_ok(obs, net.transitions[ti], aim),
    ensures
        ({
            let mark = mark_of(net, obs);
            let t = net.transitions[ti];
            let names = next_names(mark, start, t.binds.len());
            let un = unknowns(mark, s, t, choice, names);
            let ts = candidates(net, obs, mark, s, t, choice, aim);
            &&& split_up(mark, un, ts)
            &&& forall|v: Str| #[trigger] relevant(net, obs, t, aim).contains(v) ==> ts.contains(v)
            &&& forall|i: int| 0 <= i < names.len() ==> un.contains(#[trigger] names[i])
            &&& forall|k: int, i: int|
                0 <= k < t.consumes.len() && 0 <= i
                    < s.marking[t.consumes[k] as int][choice[k] as int].len() ==> (if has_prefix(
                    (#[trigger] s.marking[t.consumes[k] as int][choice[k] as int][i]).1,
                    mark,
                ) {
                    un.contains(s.marking[t.consumes[k] as int][choice[k] as int][i].1)
                } else {
                    ts.contains(s.marking[t.consumes[k] as int][choice[k] as int][i].1)
                })
            &&& forall|v: Str| #[trigger] un.contains(v) ==> names.contains(v) || exists|k: int|
                0 <= k < t.consumes.len() && values_of(
                    s.marking[(#[trigger] t.consumes[k]) as int][choice[k] as int],
                ).contains(v)
        }),
{
    let mark = mark_of(net, obs);
    let t = net.transitions[ti];
    let n = t.consumes.len() as int;
    let names = next_names(mark, start, t.binds.len());
    let un = unknowns(mark, s, t, choice, names);
    let ts = candidates(net, obs, mark, s, t, choice, aim);
    let a = chosen_marks(mark, s.marking, t.consumes, choice, n);
    let b = chosen_plains(mark, s.marking, t.consumes, choice, n);
    let rel = relevant(net, obs, t, aim);
    lemma_split_chosen(mark, s.marking, t.consumes, choice, n);
    assert forall|v: Str| #[trigger] un.contains(v) <==> a.contains(v) || names.contains(v) by {
        lemma_put_items_contains(Seq::empty(), a + names, v);
        lemma_concat_contains(a, names, v);
    }
    assert forall|v: Str| #[trigger] ts.contains(v) <==> rel.contains(v) || b.contains(v) by {
        lemma_put_items_contains(Seq::empty(), rel + b, v);
        lemma_concat_contains(rel, b, v);
    }
    assert forall|v: Str| #[trigger] ts.contains(v) implies !has_prefix(v, mark) by {
        if rel.contains(v) {
            lemma_relevant_plain(net, obs, ti, aim, v);
        }
    }
    assert forall|v: Str| #[trigger] un.contains(v) implies has_prefix(v, mark) by {
        if names.contains(v) {
            let i = names.index_of(v);
            lemma_marked(mark, (start + i + 1) as nat);
        }
    }
    assert forall|i: int| 0 <= i < names.len() implies un.contains(#[trigger] names[i]) by {
        assert(names.contains(names[i]));
    }
}

// ---------------------------------------------------------------------------
// The search keeps up
// ---------------------------------------------------------------------------
/// What is known of a state of the search.
pub open spec fn sound_state(net: NetView, obs: ObservationView, s: StateView) -> bool {
    &&& state_ok(net, obs, s)
    &&& pledges_hold(s.pledges)
    &&& pledged(net, s)
    &&& tidy(mark_of(net, obs), s)
}

/// The guess that fits lets the firing go.
proof fn lemma_guess_goes(
    net: NetView,
    obs: ObservationView,
    up: Map<Str, Str>,
    a: StateView,
    b: StateView,
    ti: int,
    d: Seq<usize>,
    c: Seq<usize>,
    aim: AimView,
    vs: Seq<Str>,
    start: nat,
    a2: StateView,
)
    requires
        net_ok(net),
        sound_state(net, obs, b),
        0 <= ti < net.transitions.len(),
        aim_ok(obs, net.transitions[ti], aim),
        covers(mark_of(net, obs), up, a, b),
        valid_choice(b.marking, net.transitions[ti].consumes, c),
        stands_for(up, b.marking, a.marking, net.transitions[ti].consumes, c, d),
        vs.len() == net.transitions[ti].binds.len(),
        renamed_values(up, next_names(mark_of(net, obs), start, vs.len())) == vs,
        fires(net, obs, a, net.transitions[ti], d, aim, vs, a2),
    ensures
        ({
            let mark = mark_of(net, obs);
            let t = net.transitions[ti];
            let names = next_names(mark, start, t.binds.len());
            let un = unknowns(mark, b, t, c, names);
            let ts = candidates(net, obs, mark, b, t, c, aim);
            tried(net, obs, b, t, c, aim, names, best_guess(up, un, ts)) is Some
        }),
{
    let mark = mark_of(net, obs);
    let t = net.transitions[ti];
    let n = t.consumes.len() as int;
    let names = next_names(mark, start, t.binds.len());
    let un = unknowns(mark, b, t, c, names);
    let ts = candidates(net, obs, mark, b, t, c, aim);
    let g = best_guess(up, un, ts);
    let r = undone(up, un, ts);
    let hand = at_hand(up, un, ts);
    assert(transition_ok(t, net.place_names.len() as int));
    lemma_unknowns(net, obs, b, ti, c, aim, start);
    lemma_best_guess(mark, up, un, ts);
    let rb = refined(g, b);
    assert(only_marks(mark, g));
    // The guards that held on the way still hold.
    assert(pledges_hold(rb.pledges)) by {
        assert forall|i: int| 0 <= i < rb.pledges.len() implies guard_holds(
            (#[trigger] rb.pledges[i]).0,
            rb.pledges[i].1,
        ) by {
            let q = b.pledges[i];
            assert(rb.pledges[i] == (q.0, renamed_env(g, q.1)));
            assert(renamed_pledges(up, b.pledges)[i] == (q.0, renamed_env(up, q.1)));
            lemma_pledges_fix(net, obs, b, i, g);
            lemma_pledges_fix(net, obs, b, i, up);
            lemma_guard_between(g, up, q.1, q.0);
        }
    }
    // The chosen tokens are those of `a`, with what stands for their values.
    assert forall|k: int| 0 <= k < n implies rb.marking[(#[trigger] t.consumes[k]) as int][c[k]
        as int] == renamed_env(r, a.marking[t.consumes[k] as int][d[k] as int]) && all_in(
        hand,
        a.marking[t.consumes[k] as int][d[k] as int],
    ) by {
        let token = b.marking[t.consumes[k] as int][c[k] as int];
        assert(t.consumes[k] < b.marking.len());
        assert(c[k] < b.marking[t.consumes[k] as int].len());
        let other = a.marking[t.consumes[k] as int][d[k] as int];
        assert(other == renamed_env(up, token));
        assert forall|i: int| 0 <= i < token.len() implies renamed(g, (#[trigger] token[i]).1)
            == renamed(r, renamed(up, token[i].1)) && hand.contains(renamed(up, token[i].1)) by {
            let v = b.marking[t.consumes[k] as int][c[k] as int][i].1;
            assert(v == token[i].1);
            if has_prefix(v, mark) {
                assert(un.contains(v));
            } else {
                assert(ts.contains(v));
                assert(!un.contains(v));
            }
        }
        assert(renamed_env(g, token) =~= renamed_env(r, other));
        assert forall|i: int| 0 <= i < other.len() implies hand.contains((#[trigger] other[i]).1) by {
            assert(other[i].1 == renamed(up, token[i].1));
        }
    }
    let base = joined_tokens(a.marking, t.consumes, d, n)->Some_0;
    lemma_joined_tokens(r, a.marking, rb.marking, t.consumes, d, c, n);
    lemma_in_joined(hand, a.marking, t.consumes, d, n);
    assert forall|i: int| 0 <= i < vs.len() implies hand.contains(#[trigger] vs[i]) by {
        assert(un.contains(names[i]));
        assert(renamed_values(up, names)[i] == vs[i]);
    }
    assert(list_in(hand, relevant(net, obs, t, aim)));
    assert(fixes(r, relevant(net, obs, t, aim)));
    let p = env_for(net, obs, t, aim, a.matched, base, vs)->Ok_0;
    assert(list_in(hand, vs.take(p.1 as int))) by {
        let taken = vs.take(p.1 as int);
        assert(p.1 <= vs.len()) by {
            let bound = crate::search::bound_for(obs, t, aim, base)->Ok_0;
            crate::search::lemma_minted_used(bound, t.binds, vs, t.binds.len() as int);
        }
        assert forall|v: Str| #[trigger] taken.contains(v) implies hand.contains(v) by {
            let i = taken.index_of(v);
            assert(vs[i] == v);
        }
    }
    lemma_env_for(r, hand, net, obs, t, aim, a.matched, base, vs);
    assert(guard_ok(t, renamed_env(r, p.0))) by {
        match t.guard {
            Some(gd) => {
                let lits = guard_literals(Some(gd));
                assert forall|v: Str| #[trigger] lits.contains(v) implies ts.contains(v) by {
                    lemma_relevant(net, obs, t, aim, v);
                }
                lemma_guard_apart(r, hand, p.0, gd);
            },
            None => {},
        }
    }
    assert(renamed_values(g, names) =~= renamed_values(r, vs)) by {
        assert forall|i: int| 0 <= i < vs.len() implies renamed(g, names[i]) == renamed(r, vs[i]) by {
            assert(un.contains(names[i]));
            assert(renamed_values(up, names)[i] == vs[i]);
        }
    }
}

/// A firing from a state that `b` stands for is found from `b`: some state that is found stands
/// for where it leads.
pub proof fn lemma_firing_is_found(
    net: NetView,
    obs: ObservationView,
    th: Map<Str, Str>,
    a: StateView,
    b: StateView,
    ti: int,
    d: Seq<usize>,
    aim: AimView,
    vs: Seq<Str>,
    a2: StateView,
) -> (found: (Seq<usize>, StateView, Map<Str, Str>))
    requires
        net_ok(net),
        state_ok(net, obs, a),
        sound_state(net, obs, b),
        0 <= ti < net.transitions.len(),
        aim_ok(obs, net.transitions[ti], aim),
        covers(mark_of(net, obs), th, a, b),
        fires(net, obs, a, net.transitions[ti], d, aim, vs, a2),
        countable(b.marking),
        !too_many_choices(b.marking, net.transitions[ti]),
        forall|k: int|
            0 <= k < looked_at(b, net.transitions[ti]).len() ==> !outcome(
                net,
                obs,
                mark_of(net, obs),
                b,
                net.transitions[ti],
                #[trigger] looked_at(b, net.transitions[ti])[k],
                aim,
            ).cut,
    ensures
        looked_at(b, net.transitions[ti]).contains(found.0),
        outcome(
            net,
            obs,
            mark_of(net, obs),
            b,
            net.transitions[ti],
            found.0,
            aim,
        ).states.contains(found.1),
        covers(mark_of(net, obs), found.2, a2, found.1),
{
    let mark = mark_of(net, obs);
    let t = net.transitions[ti];
    let cs = t.consumes;
    assert(transition_ok(t, net.place_names.len() as int));
    let mth = renamed_marking(th, b.marking);
    lemma_shape(th, b.marking);
    assert(same_tokens(a.marking, mth)) by {
        assert forall|p: int| 0 <= p < a.marking.len() implies (#[trigger] a.marking[p]).to_multiset()
            == mth[p].to_multiset() by {
            assert(mth[p].to_multiset() == a.marking[p].to_multiset());
        }
    }
    assert forall|p: int| 0 <= p < a.marking.len() implies (#[trigger] mth[p]).len()
        <= usize::MAX by {
        assert(b.marking[p].len() <= usize::MAX);
    }
    lemma_other_choice(a.marking, mth, cs, d);
    let first = other_choice(a.marking, mth, cs, d);
    assert(valid_choice(b.marking, cs, first)) by {
        assert forall|k: int| 0 <= k < first.len() implies #[trigger] first[k]
            < b.marking[cs[k] as int].len() by {
            assert(cs[k] < b.marking.len());
            assert(first[k] < mth[cs[k] as int].len());
        }
    }
    assert(stands_for(th, b.marking, a.marking, cs, first, d)) by {
        assert forall|k: int| 0 <= k < cs.len() implies a.marking[(#[trigger] cs[k]) as int][d[k]
            as int] == renamed_env(th, b.marking[cs[k] as int][first[k] as int]) by {
            assert(cs[k] < b.marking.len());
            assert(first[k] < b.marking[cs[k] as int].len());
            assert(mth[cs[k] as int][first[k] as int] == a.marking[cs[k] as int][d[k] as int]);
        }
    }
    let easy = |c: Seq<usize>|
        valid_choice(b.marking, cs, c) && stands_for(th, b.marking, a.marking, cs, c, d) && goes(
            net,
            obs,
            mark,
            b,
            t,
            c,
            aim,
        );
    if exists|c: Seq<usize>| #[trigger] easy(c) {
        let c = choose|c: Seq<usize>| #[trigger] easy(c);
        lemma_looked_at_all(b, t, c);
        let start = start_of(b, t, c, aim);
        lemma_start(b, t, c, aim);
        let names = next_names(mark, start, t.binds.len());
        let up = with_names(mark, th, start, vs);
        lemma_with_names(mark, th, start, vs);
        lemma_covers_with_names(mark, th, a, b, start, vs);
        lemma_stands_for(th, up, a, b, t, c, d);
        let x = attempt(net, obs, b, t, c, aim, names)->Go_0;
        let next = StateView { fresh: start + x.fresh, ..x };
        assert(outcome(net, obs, mark, b, t, c, aim).states.contains(next)) by {
            reveal(outcome);
            assert(seq![next][0] == next);
        }
        lemma_covers_firing(net, obs, up, a, b, ti, d, c, aim, vs, names, a2, next);
        (c, next, up)
    } else {
        let c = first;
        lemma_looked_at_all(b, t, c);
        let start = start_of(b, t, c, aim);
        lemma_start(b, t, c, aim);
        let names = next_names(mark, start, t.binds.len());
        let up = with_names(mark, th, start, vs);
        lemma_with_names(mark, th, start, vs);
        lemma_covers_with_names(mark, th, a, b, start, vs);
        lemma_stands_for(th, up, a, b, t, c, d);
        let un = unknowns(mark, b, t, c, names);
        let ts = candidates(net, obs, mark, b, t, c, aim);
        let g = best_guess(up, un, ts);
        lemma_unknowns(net, obs, b, ti, c, aim, start);
        lemma_best_guess(mark, up, un, ts);
        lemma_guess_goes(net, obs, up, a, b, ti, d, c, aim, vs, start, a2);
        let x = tried(net, obs, b, t, c, aim, names, g)->Some_0;
        let next = StateView { fresh: start + t.binds.len(), ..x };
        assert(!easy(c));
        let others = going(net, obs, mark, b, t, aim, looked_at(b, t).len() as int);
        assert(!spared(g, b, t, c, others)) by {
            if spared(g, b, t, c, others) {
                let j = choose|j: int|
                    0 <= j < others.len() && same_choice(
                        g,
                        b.marking,
                        cs,
                        c,
                        #[trigger] others[j],
                    );
                lemma_going(net, obs, mark, b, t, aim, looked_at(b, t).len() as int);
                let e = others[j];
                assert(valid_choice(b.marking, cs, e) && goes(net, obs, mark, b, t, e, aim));
                lemma_same_choice(th, up, g, a, b, cs, c, e, d);
                assert(easy(e));
            }
        }
        let i = looked_at(b, t).index_of(c);
        assert(!outcome(net, obs, mark, b, t, looked_at(b, t)[i], aim).cut);
        lemma_outcome_complete(net, obs, mark, b, t, c, aim, g, x);
        let rb = refined(g, b);
        assert(only_marks(mark, g));
        assert(covers(mark, up, a, rb)) by {
            lemma_guess_keeps(up, g, b);
            assert(renamed_marking(up, rb.marking) == renamed_marking(up, b.marking));
            assert(renamed_pledges(up, rb.pledges) == renamed_pledges(up, b.pledges));
        }
        lemma_shape(g, b.marking);
        assert(valid_choice(rb.marking, cs, c)) by {
            assert forall|k: int| 0 <= k < c.len() implies #[trigger] c[k]
                < rb.marking[cs[k] as int].len() by {
                assert(cs[k] < b.marking.len());
                assert(c[k] < b.marking[cs[k] as int].len());
            }
        }
        assert(stands_for(up, rb.marking, a.marking, cs, c, d)) by {
            assert forall|k: int| 0 <= k < cs.len() implies a.marking[(#[trigger] cs[k]) as int][d[k]
                as int] == renamed_env(up, rb.marking[cs[k] as int][c[k] as int]) by {
                assert(cs[k] < b.marking.len());
                assert(c[k] < b.marking[cs[k] as int].len());
                let token = b.marking[cs[k] as int][c[k] as int];
                assert(rb.marking[cs[k] as int][c[k] as int] == renamed_env(g, token));
                assert(renamed_env(up, renamed_env(g, token)) =~= renamed_env(up, token));
            }
        }
        let own = renamed_values(g, names);
        assert(renamed_values(up, own) =~= vs) by {
            assert forall|i: int| 0 <= i < vs.len() implies renamed(up, own[i]) == vs[i] by {
                assert(own[i] == renamed(g, names[i]));
                assert(renamed_values(up, names)[i] == vs[i]);
            }
        }
        lemma_covers_firing(net, obs, up, a, rb, ti, d, c, aim, vs, own, a2, next);
        (c, next, up)
    }
}

/// Giving values to the next names changes nothing in the tokens that are there.
proof fn lemma_stands_for(
    th: Map<Str, Str>,
    up: Map<Str, Str>,
    a: StateView,
    b: StateView,
    t: CompiledTransitionView,
    c: Seq<usize>,
    d: Seq<usize>,
)
    requires
        within(t.consumes, b.marking.len() as int),
        valid_choice(b.marking, t.consumes, c),
        stands_for(th, b.marking, a.marking, t.consumes, c, d),
        renamed_marking(up, b.marking) == renamed_marking(th, b.marking),
    ensures
        stands_for(up, b.marking, a.marking, t.consumes, c, d),
{
    let cs = t.consumes;
    assert forall|k: int| 0 <= k < cs.len() implies a.marking[(#[trigger] cs[k]) as int][d[k]
        as int] == renamed_env(up, b.marking[cs[k] as int][c[k] as int]) by {
        assert(cs[k] < b.marking.len());
        assert(c[k] < b.marking[cs[k] as int].len());
        assert(renamed_marking(up, b.marking)[cs[k] as int][c[k] as int] == renamed_marking(
            th,
            b.marking,
        )[cs[k] as int][c[k] as int]);
    }
}

/// A choice that a guess makes the same stands for the same.
proof fn lemma_same_choice(
    th: Map<Str, Str>,
    up: Map<Str, Str>,
    g: Map<Str, Str>,
    a: StateView,
    b: StateView,
    cs: Seq<usize>,
    c: Seq<usize>,
    e: Seq<usize>,
    d: Seq<usize>,
)
    requires
        within(cs, b.marking.len() as int),
        valid_choice(b.marking, cs, c),
        valid_choice(b.marking, cs, e),
        same_choice(g, b.marking, cs, c, e),
        stands_for(th, b.marking, a.marking, cs, c, d),
        renamed_marking(up, b.marking) == renamed_marking(th, b.marking),
        forall|v: Str| renamed(up, #[trigger] renamed(g, v)) == renamed(up, v),
    ensures
        stands_for(th, b.marking, a.marking, cs, e, d),
{
    assert forall|k: int| 0 <= k < cs.len() implies a.marking[(#[trigger] cs[k]) as int][d[k]
        as int] == renamed_env(th, b.marking[cs[k] as int][e[k] as int]) by {
        assert(cs[k] < b.marking.len());
        assert(c[k] < b.marking[cs[k] as int].len());
        assert(e[k] < b.marking[cs[k] as int].len());
        let x = b.marking[cs[k] as int][c[k] as int];
        let y = b.marking[cs[k] as int][e[k] as int];
        assert(renamed_env(g, x) == renamed_env(g, y));
        assert(renamed_env(up, renamed_env(g, x)) =~= renamed_env(up, x));
        assert(renamed_env(up, renamed_env(g, y)) =~= renamed_env(up, y));
        assert(renamed_marking(up, b.marking)[cs[k] as int][c[k] as int] == renamed_marking(
            th,
            b.marking,
        )[cs[k] as int][c[k] as int]);
        assert(renamed_marking(up, b.marking)[cs[k] as int][e[k] as int] == renamed_marking(
            th,
            b.marking,
        )[cs[k] as int][e[k] as int]);
    }
}

/// A guess that fits changes nothing in what the names stand for.
proof fn lemma_guess_keeps(up: Map<Str, Str>, g: Map<Str, Str>, b: StateView)
    requires
        forall|v: Str| renamed(up, #[trigger] renamed(g, v)) == renamed(up, v),
    ensures
        renamed_marking(up, refined(g, b).marking) == renamed_marking(up, b.marking),
        renamed_pledges(up, refined(g, b).pledges) == renamed_pledges(up, b.pledges),
{
    let m = b.marking;
    assert forall|p: int| 0 <= p < m.len() implies renamed_tokens(
        up,
        renamed_tokens(g, #[trigger] m[p]),
    ) == renamed_tokens(up, m[p]) by {
        assert forall|i: int| 0 <= i < m[p].len() implies renamed_env(up, renamed_env(g, m[p][i]))
            == renamed_env(up, m[p][i]) by {
            assert(renamed_env(up, renamed_env(g, m[p][i])) =~= renamed_env(up, m[p][i]));
        }
        assert(renamed_tokens(up, renamed_tokens(g, m[p])) =~= renamed_tokens(up, m[p]));
    }
    assert(renamed_marking(up, refined(g, b).marking) =~= renamed_marking(up, b.marking));
    assert forall|i: int| 0 <= i < b.pledges.len() implies renamed_env(
        up,
        renamed_env(g, b.pledges[i].1),
    ) == renamed_env(up, b.pledges[i].1) by {
        assert(renamed_env(up, renamed_env(g, b.pledges[i].1)) =~= renamed_env(
            up,
            b.pledges[i].1,
        ));
    }
    assert(renamed_pledges(up, refined(g, b).pledges) =~= renamed_pledges(up, b.pledges));
}

// ---------------------------------------------------------------------------
// What the search keeps
// ---------------------------------------------------------------------------
proof fn lemma_renamed_in(r: Map<Str, Str>, from: Set<Str>, into: Set<Str>, e: Seq<(Str, Str)>)
    requires
        all_in(from, e),
        forall|v: Str| #[trigger] from.contains(v) ==> into.contains(renamed(r, v)),
    ensures
        all_in(into, renamed_env(r, e)),
{
    let x = renamed_env(r, e);
    assert forall|i: int| 0 <= i < x.len() implies into.contains((#[trigger] x[i]).1) by {
        assert(from.contains(e[i].1));
        assert(x[i].1 == renamed(r, e[i].1));
    }
}

/// What is found from a sound state is sound.
pub proof fn lemma_found_sound(
    net: NetView,
    obs: ObservationView,
    b: StateView,
    ti: int,
    c: Seq<usize>,
    aim: AimView,
    next: StateView,
)
    requires
        net_ok(net),
        sound_state(net, obs, b),
        0 <= ti < net.transitions.len(),
        aim_ok(obs, net.transitions[ti], aim),
        valid_choice(b.marking, net.transitions[ti].consumes, c),
        outcome(net, obs, mark_of(net, obs), b, net.transitions[ti], c, aim).states.contains(next),
    ensures
        sound_state(net, obs, next),
{
    let mark = mark_of(net, obs);
    let t = net.transitions[ti];
    let n = t.consumes.len() as int;
    let start = start_of(b, t, c, aim);
    let names = next_names(mark, start, t.binds.len());
    let r = lemma_outcome(net, obs, mark, b, t, c, aim, next);
    lemma_start(b, t, c, aim);
    lemma_unknowns(net, obs, b, ti, c, aim, start);
    let un = unknowns(mark, b, t, c, names);
    let ts = candidates(net, obs, mark, b, t, c, aim);
    let was = names_upto(mark, b.fresh);
    let now = names_upto(mark, next.fresh);
    assert(transition_ok(t, net.place_names.len() as int));
    let rb = refined(r, b);
    let own = renamed_values(r, names);
    crate::verify::lemma_attempt(net, obs, rb, t, c, aim, own);
    let base = joined_tokens(rb.marking, t.consumes, c, n)->Some_0;
    let p = env_for(net, obs, t, aim, rb.matched, base, own)->Ok_0;
    lemma_used(net, obs, rb, t, c, aim, own, attempt(net, obs, rb, t, c, aim, own)->Go_0);
    let used = p.1;
    assert(start + used <= next.fresh) by {
        if next.fresh != start + t.binds.len() {
            lemma_refined_none(b);
            assert(own =~= names);
        }
    }
    // Names that come by the guess are known by then.
    assert forall|i: int| 0 <= i < names.len() && start + i + 1 <= next.fresh implies now.contains(
        #[trigger] names[i],
    ) by {
        let k = (start + i + 1) as nat;
        assert(1 <= k <= next.fresh && names[i] == symbol(mark, k));
    }
    assert forall|v: Str| #[trigger] was.contains(v) implies now.contains(renamed(r, v)) by {
        lemma_names_more(mark, b.fresh, next.fresh, v);
        if r.dom().contains(v) {
            lemma_concat_contains(ts, un, r[v]);
            if un.contains(r[v]) {
                lemma_un_known(net, obs, b, ti, c, aim, start, r[v], next.fresh);
            }
        }
    }
    assert(marking_in(now, rb.marking)) by {
        assert forall|q: int, i: int|
            0 <= q < rb.marking.len() && 0 <= i < rb.marking[q].len() implies all_in(
            now,
            #[trigger] rb.marking[q][i],
        ) by {
            assert(all_in(was, b.marking[q][i]));
            lemma_renamed_in(r, was, now, b.marking[q][i]);
        }
    }
    assert forall|k: int| 0 <= k < n implies all_in(
        now,
        rb.marking[(#[trigger] t.consumes[k]) as int][c[k] as int],
    ) by {
        assert(t.consumes[k] < b.marking.len());
        assert(c[k] < b.marking[t.consumes[k] as int].len());
    }
    lemma_in_joined(now, rb.marking, t.consumes, c, n);
    assert(list_in(now, own.take(used as int))) by {
        let taken = own.take(used as int);
        assert forall|v: Str| #[trigger] taken.contains(v) implies now.contains(v) by {
            let i = taken.index_of(v);
            assert(own[i] == renamed(r, names[i]));
            assert(own[i] == v);
            assert(now.contains(names[i]));
            if r.dom().contains(names[i]) {
                lemma_concat_contains(ts, un, r[names[i]]);
                if un.contains(r[names[i]]) {
                    lemma_un_known(net, obs, b, ti, c, aim, start, r[names[i]], next.fresh);
                }
            }
        }
    }
    assert(list_in(now, relevant(net, obs, t, aim))) by {
        let rel = relevant(net, obs, t, aim);
        assert forall|v: Str| #[trigger] rel.contains(v) implies now.contains(v) by {
            lemma_relevant_plain(net, obs, ti, aim, v);
        }
    }
    let none = Map::<Str, Str>::empty();
    lemma_env_for(none, now, net, obs, t, aim, rb.matched, base, own);
    lemma_in_fired(now, net, rb.marking, t, c, p.0);
    assert forall|i: int| 0 <= i < next.pledges.len() implies all_in(
        now,
        (#[trigger] next.pledges[i]).1,
    ) by {
        if i < b.pledges.len() {
            assert(all_in(was, b.pledges[i].1));
            lemma_renamed_in(r, was, now, b.pledges[i].1);
            assert(next.pledges[i] == rb.pledges[i]);
        } else {
            assert(next.pledges[i].1 == p.0);
        }
    }
    assert forall|i: int| 0 <= i < next.pledges.len() implies exists|tj: int|
        0 <= tj < net.transitions.len() && (#[trigger] net.transitions[tj]).guard == Some(
            (#[trigger] next.pledges[i]).0,
        ) by {
        if i < b.pledges.len() {
            assert(next.pledges[i].0 == b.pledges[i].0);
            let tj = choose|tj: int|
                0 <= tj < net.transitions.len() && (#[trigger] net.transitions[tj]).guard == Some(
                    b.pledges[i].0,
                );
            assert(net.transitions[tj].guard == Some(next.pledges[i].0));
        } else {
            assert(net.transitions[ti].guard == Some(next.pledges[i].0));
        }
    }
}

/// A guess renames minted names only, and so does anything after it.
pub proof fn lemma_marks_compose(
    net: NetView,
    obs: ObservationView,
    th: Map<Str, Str>,
    r: Map<Str, Str>,
    s: StateView,
    ti: int,
    choice: Seq<usize>,
    aim: AimView,
    start: nat,
)
    requires
        0 <= ti < net.transitions.len(),
        aim_ok(obs, net.transitions[ti], aim),
        only_marks(mark_of(net, obs), th),
        ({
            let mark = mark_of(net, obs);
            let t = net.transitions[ti];
            let un = unknowns(mark, s, t, choice, next_names(mark, start, t.binds.len()));
            guess_ok(r, un, candidates(net, obs, mark, s, t, choice, aim) + un)
        }),
    ensures
        only_marks(mark_of(net, obs), r),
        only_marks(mark_of(net, obs), compose(th, r)),
{
    lemma_unknowns(net, obs, s, ti, choice, aim, start);
}

/// The names that a guess may speak of are known once all the firing's own names are counted.
proof fn lemma_un_known(
    net: NetView,
    obs: ObservationView,
    b: StateView,
    ti: int,
    c: Seq<usize>,
    aim: AimView,
    start: nat,
    v: Str,
    fresh: nat,
)
    requires
        net_ok(net),
        sound_state(net, obs, b),
        0 <= ti < net.transitions.len(),
        aim_ok(obs, net.transitions[ti], aim),
        valid_choice(b.marking, net.transitions[ti].consumes, c),
        unknowns(
            mark_of(net, obs),
            b,
            net.transitions[ti],
            c,
            next_names(mark_of(net, obs), start, net.transitions[ti].binds.len()),
        ).contains(v),
        b.fresh <= start,
        start + net.transitions[ti].binds.len() <= fresh,
    ensures
        names_upto(mark_of(net, obs), fresh).contains(v),
{
    let mark = mark_of(net, obs);
    let t = net.transitions[ti];
    let names = next_names(mark, start, t.binds.len());
    assert(transition_ok(t, net.place_names.len() as int));
    lemma_unknowns(net, obs, b, ti, c, aim, start);
    if names.contains(v) {
        let i = names.index_of(v);
        let k = (start + i + 1) as nat;
        assert(1 <= k <= fresh && v == symbol(mark, k));
    } else {
        let k = choose|k: int|
            0 <= k < t.consumes.len() && values_of(
                b.marking[(#[trigger] t.consumes[k]) as int][c[k] as int],
            ).contains(v);
        let token = b.marking[t.consumes[k] as int][c[k] as int];
        assert(t.consumes[k] < b.marking.len());
        assert(c[k] < b.marking[t.consumes[k] as int].len());
        assert(all_in(names_upto(mark, b.fresh), token));
        let i = values_of(token).index_of(v);
        assert(token[i].1 == v);
        lemma_names_more(mark, b.fresh, fresh, v);
    }
}

} // verus!
