//! The clocks of different log planes are never compared.

use crate::expand::{
    aim_effects, candidates, expansion, going, haul_at, haul_of, linked_values, looked_at,
    next_names, observed_haul, outcome, refined, relevant, slack_haul, start_of, tried, tried_upto,
    unknowns,
};
use crate::guess::{as_map, guesses, mark_of, named_values, renamed_values};
use crate::matching::{
    bears_on, edge_failure, edge_failures, edge_fault, edge_present, gaps_upto, obligation_fault,
    some_edge, target_fault, unmet_from,
};
use crate::model::{EffectTemplateView, RelationObligationView, SpecView};
use crate::net::{joined_tokens, CompiledTransitionView, NetView};
use crate::observation::{
    all_effects, dangling_upto, depends_on, earlier, effect_named, effects_upto, holder_from,
    just_before, must_precede, ordered, predecessors, preds_upto, steps_upto, stuck_from,
    EffectInstanceView, ObservationView, RecordView,
};
use crate::search::{
    attempt, bound_for, env_for, further, gaps_of, ids_of, lemma_targets, minted, record_check,
    score, targets_of, unmet_effect_from, unmet_for, AimView, CheckView, StateView,
};
use crate::states::state_key;
use crate::text::Str;
use crate::verify::{
    accepting, blocked_from, effect_set, expanded, first_quest, initial_state, logged_all,
    order_of, search_result, searched, step_count, told_failures, unexplained_effects,
    unexplained_steps, verified, QuestView, VerifyOptions,
};
use vstd::prelude::*;

verus! {

/// Whether two observations differ in their timestamps at most, and not in the order that these
/// give the records of one log plane.
pub open spec fn only_clocks_differ(a: ObservationView, b: ObservationView) -> bool {
    &&& a.run_id == b.run_id
    &&& a.planes == b.planes
    &&& a.edges == b.edges
    &&& a.records.len() == b.records.len()
    &&& forall|i: int|
        0 <= i < a.records.len() ==> #[trigger] b.records[i] == (RecordView {
            ts: b.records[i].ts,
            ..a.records[i]
        })
    &&& forall|i: int, j: int|
        0 <= i < a.records.len() && 0 <= j < a.records.len() && a.records[i].plane
            == a.records[j].plane ==> #[trigger] earlier(a.records, i, j) == earlier(
            b.records,
            i,
            j,
        )
}

/// Whether two observations tell of the same effects and steps, whatever their timestamps.
spec fn same_matter(a: ObservationView, b: ObservationView) -> bool {
    &&& a.planes == b.planes
    &&& a.edges == b.edges
    &&& same_records(a.records, b.records)
    &&& all_effects(a.records) == all_effects(b.records)
    &&& dangling_upto(a.records, a.records.len() as int) == dangling_upto(
        b.records,
        b.records.len() as int,
    )
}

spec fn same_records(a: Seq<RecordView>, b: Seq<RecordView>) -> bool {
    &&& a.len() == b.len()
    &&& forall|i: int|
        #![trigger a[i]]
        #![trigger b[i]]
        0 <= i < a.len() ==> {
            &&& a[i].id == b[i].id
            &&& a[i].plane == b[i].plane
            &&& a[i].principal == b[i].principal
            &&& a[i].step == b[i].step
            &&& a[i].effects == b[i].effects
        }
}

// ---------------------------------------------------------------------------
// Records and their order
// ---------------------------------------------------------------------------
proof fn lemma_records_upto(a: Seq<RecordView>, b: Seq<RecordView>, n: int)
    requires
        same_records(a, b),
        n <= a.len(),
    ensures
        effects_upto(a, n) == effects_upto(b, n),
        dangling_upto(a, n) == dangling_upto(b, n),
        steps_upto(a, n) == steps_upto(b, n),
    decreases n,
{
    if n > 0 {
        lemma_records_upto(a, b, n - 1);
        assert(a[n - 1].effects == b[n - 1].effects);
    }
}

proof fn lemma_holder(a: Seq<RecordView>, b: Seq<RecordView>, id: Str, i: int)
    requires
        same_records(a, b),
    ensures
        holder_from(a, id, i) == holder_from(b, id, i),
    decreases a.len() - i,
{
    if 0 <= i < a.len() {
        assert(a[i].effects == b[i].effects);
        lemma_holder(a, b, id, i + 1);
    }
}

proof fn lemma_matter(a: ObservationView, b: ObservationView)
    requires
        only_clocks_differ(a, b),
    ensures
        same_matter(a, b),
        step_count(a) == step_count(b),
{
    assert forall|i: int| 0 <= i < a.records.len() implies {
        &&& a.records[i].id == b.records[i].id
        &&& a.records[i].plane == b.records[i].plane
        &&& a.records[i].principal == b.records[i].principal
        &&& a.records[i].step == b.records[i].step
        &&& a.records[i].effects == b.records[i].effects
    } by {
        assert(b.records[i] == (RecordView { ts: b.records[i].ts, ..a.records[i] }));
    }
    lemma_records_upto(a.records, b.records, a.records.len() as int);
}

proof fn lemma_just_before(a: ObservationView, b: ObservationView, j: int, i: int)
    requires
        only_clocks_differ(a, b),
        same_matter(a, b),
        0 <= i < a.records.len(),
        0 <= j < a.records.len(),
        just_before(a.records, j, i),
    ensures
        just_before(b.records, j, i),
{
    let ra = a.records;
    let rb = b.records;
    assert(earlier(ra, j, i) == earlier(rb, j, i));
    assert forall|k: int|
        0 <= k < rb.len() && #[trigger] rb[k].plane == rb[i].plane && earlier(rb, k, i) implies k
        == j || earlier(rb, k, j) by {
        assert(ra[k].plane == ra[i].plane);
        assert(earlier(ra, k, i) == earlier(rb, k, i));
        assert(earlier(ra, k, j) == earlier(rb, k, j));
    }
}

proof fn lemma_flipped(a: ObservationView, b: ObservationView)
    requires
        only_clocks_differ(a, b),
        same_matter(a, b),
    ensures
        only_clocks_differ(b, a),
        same_matter(b, a),
{
    assert forall|i: int| 0 <= i < b.records.len() implies #[trigger] a.records[i] == (RecordView {
        ts: a.records[i].ts,
        ..b.records[i]
    }) by {
        assert(b.records[i] == (RecordView { ts: b.records[i].ts, ..a.records[i] }));
    }
    assert forall|i: int, j: int|
        0 <= i < b.records.len() && 0 <= j < b.records.len() && b.records[i].plane
            == b.records[j].plane implies #[trigger] earlier(b.records, i, j) == earlier(
        a.records,
        i,
        j,
    ) by {
        assert(a.records[i].plane == a.records[j].plane);
        assert(earlier(a.records, i, j) == earlier(b.records, i, j));
    }
}

proof fn lemma_depends_on(a: ObservationView, b: ObservationView, i: int, j: int)
    requires
        same_matter(a, b),
        depends_on(a, i, j),
    ensures
        depends_on(b, i, j),
{
    let e = choose|e: int|
        0 <= e < a.edges.len() && holder_from(a.records, (#[trigger] a.edges[e]).from, 0) == Some(i)
            && holder_from(a.records, a.edges[e].to, 0) == Some(j);
    lemma_holder(a.records, b.records, a.edges[e].from, 0);
    lemma_holder(a.records, b.records, a.edges[e].to, 0);
    assert(b.edges[e] == a.edges[e]);
}

proof fn lemma_must_precede(a: ObservationView, b: ObservationView, j: int, i: int)
    requires
        only_clocks_differ(a, b),
        same_matter(a, b),
        0 <= i < a.records.len(),
        0 <= j < a.records.len(),
    ensures
        must_precede(a, j, i) == must_precede(b, j, i),
{
    lemma_flipped(a, b);
    if just_before(a.records, j, i) {
        lemma_just_before(a, b, j, i);
    }
    if just_before(b.records, j, i) {
        lemma_just_before(b, a, j, i);
    }
    if depends_on(a, i, j) {
        lemma_depends_on(a, b, i, j);
    }
    if depends_on(b, i, j) {
        lemma_depends_on(b, a, i, j);
    }
}

proof fn lemma_preds(a: ObservationView, b: ObservationView, i: int, n: int)
    requires
        only_clocks_differ(a, b),
        same_matter(a, b),
        0 <= i < a.records.len(),
        n <= a.records.len(),
    ensures
        preds_upto(a, i, n) == preds_upto(b, i, n),
    decreases n,
{
    if n > 0 {
        lemma_preds(a, b, i, n - 1);
        lemma_must_precede(a, b, n - 1, i);
    }
}

proof fn lemma_stuck(preds: Seq<Seq<usize>>, i: int)
    ensures
        stuck_from(preds, i) matches Some(k) ==> 0 <= k < preds.len(),
    decreases preds.len() - i,
{
    if 0 <= i < preds.len() {
        lemma_stuck(preds, i + 1);
    }
}

/// Shifting the clock of a log plane leaves the order of the records as it is.
pub proof fn shifted_clocks_leave_the_order(a: ObservationView, b: ObservationView)
    requires
        only_clocks_differ(a, b),
    ensures
        ordered(a) == ordered(b),
{
    lemma_matter(a, b);
    assert forall|i: int| 0 <= i < a.records.len() implies preds_upto(
        a,
        i,
        a.records.len() as int,
    ) == preds_upto(b, i, a.records.len() as int) by {
        lemma_preds(a, b, i, a.records.len() as int);
    }
    assert(predecessors(a) =~= predecessors(b));
    lemma_stuck(predecessors(a), 0);
}

// ---------------------------------------------------------------------------
// Edges and obligations
// ---------------------------------------------------------------------------
proof fn lemma_edge_fault(
    a: ObservationView,
    b: ObservationView,
    o: RelationObligationView,
    effect: Str,
    env: Seq<(Str, Str)>,
    matched: Seq<Str>,
    detail: Str,
    i: int,
)
    requires
        same_matter(a, b),
    ensures
        edge_fault(a, o, effect, env, matched, detail, i) == edge_fault(
            b,
            o,
            effect,
            env,
            matched,
            detail,
            i,
        ),
    decreases a.edges.len() - i,
{
    if 0 <= i < a.edges.len() {
        lemma_edge_fault(a, b, o, effect, env, matched, detail, i + 1);
        if bears_on(a.edges[i], o, effect) {
            match effect_named(a.records, a.edges[i].to) {
                Some(target) => match target_fault(o, env, target, matched) {
                    Some(fault) => {
                        lemma_edge_fault(a, b, o, effect, env, matched, fault, i + 1);
                    },
                    None => {},
                },
                None => {},
            }
        }
    }
}

proof fn lemma_unmet(
    a: ObservationView,
    b: ObservationView,
    os: Seq<RelationObligationView>,
    transition: Str,
    effect: Str,
    env: Seq<(Str, Str)>,
    matched: Seq<Str>,
    i: int,
)
    requires
        same_matter(a, b),
    ensures
        unmet_from(os, transition, effect, env, a, matched, i) == unmet_from(
            os,
            transition,
            effect,
            env,
            b,
            matched,
            i,
        ),
    decreases os.len() - i,
{
    if 0 <= i < os.len() {
        assert(some_edge(a, os[i], effect) == some_edge(b, os[i], effect));
        lemma_edge_fault(a, b, os[i], effect, env, matched, Seq::empty(), 0);
        assert(obligation_fault(a, os[i], effect, env, matched) == obligation_fault(
            b,
            os[i],
            effect,
            env,
            matched,
        ));
        lemma_unmet(a, b, os, transition, effect, env, matched, i + 1);
    }
}

proof fn lemma_unmet_effect(
    a: ObservationView,
    b: ObservationView,
    emits: Seq<EffectTemplateView>,
    effects: Seq<EffectInstanceView>,
    transition: Str,
    env: Seq<(Str, Str)>,
    matched: Seq<Str>,
    i: int,
)
    requires
        same_matter(a, b),
    ensures
        unmet_effect_from(emits, effects, transition, env, a, matched, i) == unmet_effect_from(
            emits,
            effects,
            transition,
            env,
            b,
            matched,
            i,
        ),
    decreases emits.len() - i,
{
    if 0 <= i < emits.len() {
        lemma_unmet(
            a,
            b,
            emits[i].requires_relation,
            transition,
            effects[i].id,
            env,
            matched,
            0,
        );
        lemma_unmet_effect(a, b, emits, effects, transition, env, matched, i + 1);
    }
}

proof fn lemma_gaps(
    a: ObservationView,
    b: ObservationView,
    os: Seq<RelationObligationView>,
    transition: Str,
    effect: Str,
    n: int,
)
    requires
        same_matter(a, b),
    ensures
        gaps_upto(os, transition, effect, a, n) == gaps_upto(os, transition, effect, b, n),
    decreases n,
{
    if n > 0 {
        lemma_gaps(a, b, os, transition, effect, n - 1);
        assert(edge_present(a, os[n - 1], effect) == edge_present(b, os[n - 1], effect));
    }
}

proof fn lemma_gaps_of(
    a: ObservationView,
    b: ObservationView,
    emits: Seq<EffectTemplateView>,
    effects: Seq<EffectInstanceView>,
    transition: Str,
    n: int,
)
    requires
        same_matter(a, b),
    ensures
        gaps_of(emits, effects, transition, a, n) == gaps_of(emits, effects, transition, b, n),
    decreases n,
{
    if n > 0 {
        lemma_gaps_of(a, b, emits, effects, transition, n - 1);
        let os = emits[n - 1].requires_relation;
        lemma_gaps(a, b, os, transition, effects[n - 1].id, os.len() as int);
    }
}

proof fn lemma_edge_failures(a: ObservationView, b: ObservationView, spec: SpecView, n: int)
    requires
        same_matter(a, b),
    ensures
        edge_failures(spec, a, n) == edge_failures(spec, b, n),
    decreases n,
{
    if n > 0 {
        lemma_edge_failures(a, b, spec, n - 1);
        assert(edge_failure(spec, a, a.edges[n - 1]) == edge_failure(spec, b, b.edges[n - 1]));
    }
}

// ---------------------------------------------------------------------------
// Steps
// ---------------------------------------------------------------------------
/// Whether what is to be explained is there.
spec fn aim_there(obs: ObservationView, aim: AimView) -> bool {
    aim matches AimView::Record(ix) ==> 0 <= ix < obs.records.len()
}

proof fn lemma_attempt(
    a: ObservationView,
    b: ObservationView,
    net: NetView,
    s: StateView,
    t: CompiledTransitionView,
    choice: Seq<usize>,
    aim: AimView,
    names: Seq<Str>,
)
    requires
        same_matter(a, b),
        aim_there(a, aim),
    ensures
        attempt(net, a, s, t, choice, aim, names) == attempt(net, b, s, t, choice, aim, names),
{
    match aim {
        AimView::Record(ix) => {
            assert(a.records[ix].effects == b.records[ix].effects);
        },
        _ => {},
    }
    assert forall|env: Seq<(Str, Str)>|
        unmet_for(a, t, aim, env, s.matched) == #[trigger] unmet_for(b, t, aim, env, s.matched) by {
        match aim {
            AimView::Record(ix) => {
                lemma_unmet_effect(
                    a,
                    b,
                    t.emits,
                    a.records[ix].effects,
                    t.id,
                    env,
                    s.matched,
                    0,
                );
            },
            AimView::Target(Some(id)) => {
                lemma_unmet(a, b, t.emits[0].requires_relation, t.id, id, env, s.matched, 0);
            },
            AimView::Target(None) => {},
        }
    }
    match joined_tokens(s.marking, t.consumes, choice, t.consumes.len() as int) {
        Some(base) => {
            assert(bound_for(a, t, aim, base) == bound_for(b, t, aim, base));
            assert(env_for(net, a, t, aim, s.matched, base, names) == env_for(
                net,
                b,
                t,
                aim,
                s.matched,
                base,
                names,
            )) by {
                match bound_for(a, t, aim, base) {
                    Ok(bound) => {
                        let env = minted(bound, t.binds, names, t.binds.len() as int).0;
                        assert(unmet_for(a, t, aim, env, s.matched) == unmet_for(
                            b,
                            t,
                            aim,
                            env,
                            s.matched,
                        ));
                    },
                    Err(_) => {},
                }
            }
        },
        None => {},
    }
}

proof fn lemma_linked_values(a: ObservationView, b: ObservationView, ids: Seq<Str>, n: int)
    requires
        same_matter(a, b),
    ensures
        linked_values(a, ids, n) == linked_values(b, ids, n),
    decreases n,
{
    if n > 0 {
        lemma_linked_values(a, b, ids, n - 1);
    }
}

proof fn lemma_tried_upto(
    a: ObservationView,
    b: ObservationView,
    net: NetView,
    s: StateView,
    t: CompiledTransitionView,
    choice: Seq<usize>,
    aim: AimView,
    names: Seq<Str>,
    others: Seq<Seq<usize>>,
    fresh: nat,
    gs: Seq<Seq<(Str, Str)>>,
    n: int,
)
    requires
        same_matter(a, b),
        aim_there(a, aim),
    ensures
        tried_upto(net, a, s, t, choice, aim, names, others, fresh, gs, n) == tried_upto(
            net,
            b,
            s,
            t,
            choice,
            aim,
            names,
            others,
            fresh,
            gs,
            n,
        ),
    decreases n,
{
    if n > 0 {
        lemma_tried_upto(a, b, net, s, t, choice, aim, names, others, fresh, gs, n - 1);
        let r = as_map(gs[n - 1]);
        lemma_attempt(a, b, net, refined(r, s), t, choice, aim, renamed_values(r, names));
        assert(tried(net, a, s, t, choice, aim, names, r) == tried(
            net,
            b,
            s,
            t,
            choice,
            aim,
            names,
            r,
        ));
    }
}

proof fn lemma_going_same(
    a: ObservationView,
    b: ObservationView,
    net: NetView,
    mark: Str,
    s: StateView,
    t: CompiledTransitionView,
    aim: AimView,
    n: int,
)
    requires
        same_matter(a, b),
        aim_there(a, aim),
    ensures
        going(net, a, mark, s, t, aim, n) == going(net, b, mark, s, t, aim, n),
    decreases n,
{
    if n > 0 {
        lemma_going_same(a, b, net, mark, s, t, aim, n - 1);
        let choice = looked_at(s, t)[n - 1];
        let names = next_names(mark, start_of(s, t, choice, aim), t.binds.len());
        lemma_attempt(a, b, net, s, t, choice, aim, names);
    }
}

proof fn lemma_outcome_same(
    a: ObservationView,
    b: ObservationView,
    net: NetView,
    mark: Str,
    s: StateView,
    t: CompiledTransitionView,
    choice: Seq<usize>,
    aim: AimView,
)
    requires
        same_matter(a, b),
        aim_there(a, aim),
    ensures
        outcome(net, a, mark, s, t, choice, aim) == outcome(net, b, mark, s, t, choice, aim),
{
    reveal(outcome);
    let start = start_of(s, t, choice, aim);
    let names = next_names(mark, start, t.binds.len());
    lemma_attempt(a, b, net, s, t, choice, aim, names);
    let n = looked_at(s, t).len() as int;
    lemma_going_same(a, b, net, mark, s, t, aim, n);
    match aim {
        AimView::Record(ix) => {
            assert(a.records[ix].effects == b.records[ix].effects);
        },
        _ => {},
    }
    assert(aim_effects(a, aim) == aim_effects(b, aim));
    lemma_linked_values(a, b, ids_of(aim_effects(a, aim)), a.edges.len() as int);
    assert(relevant(net, a, t, aim) == relevant(net, b, t, aim));
    let un = unknowns(mark, s, t, choice, names);
    let vs = candidates(net, a, mark, s, t, choice, aim) + un;
    let gs = guesses(un, vs, un.len() as int);
    let others = going(net, a, mark, s, t, aim, n);
    lemma_tried_upto(
        a,
        b,
        net,
        s,
        t,
        choice,
        aim,
        names,
        others,
        start + t.binds.len(),
        gs,
        gs.len() as int,
    );
}

proof fn lemma_haul_at_same(
    a: ObservationView,
    b: ObservationView,
    net: NetView,
    mark: Str,
    s: StateView,
    t: CompiledTransitionView,
    choice: Seq<usize>,
    aims: Seq<AimView>,
    n: int,
)
    requires
        same_matter(a, b),
        n <= aims.len(),
        forall|j: int| 0 <= j < aims.len() ==> aim_there(a, #[trigger] aims[j]),
    ensures
        haul_at(net, a, mark, s, t, choice, aims, n) == haul_at(
            net,
            b,
            mark,
            s,
            t,
            choice,
            aims,
            n,
        ),
    decreases n,
{
    if n > 0 {
        lemma_haul_at_same(a, b, net, mark, s, t, choice, aims, n - 1);
        assert(aim_there(a, aims[n - 1]));
        lemma_outcome_same(a, b, net, mark, s, t, choice, aims[n - 1]);
    }
}

proof fn lemma_haul_of_same(
    a: ObservationView,
    b: ObservationView,
    net: NetView,
    mark: Str,
    s: StateView,
    t: CompiledTransitionView,
    aims: Seq<AimView>,
    n: int,
)
    requires
        same_matter(a, b),
        forall|j: int| 0 <= j < aims.len() ==> aim_there(a, #[trigger] aims[j]),
    ensures
        haul_of(net, a, mark, s, t, aims, n) == haul_of(net, b, mark, s, t, aims, n),
    decreases n,
{
    if n > 0 {
        lemma_haul_of_same(a, b, net, mark, s, t, aims, n - 1);
        lemma_haul_at_same(
            a,
            b,
            net,
            mark,
            s,
            t,
            looked_at(s, t)[n - 1],
            aims,
            aims.len() as int,
        );
    }
}

proof fn lemma_observed(
    a: ObservationView,
    b: ObservationView,
    net: NetView,
    mark: Str,
    preds: Seq<Seq<usize>>,
    s: StateView,
    n: int,
)
    requires
        same_matter(a, b),
        n <= a.records.len(),
    ensures
        observed_haul(net, a, mark, preds, s, n) == observed_haul(net, b, mark, preds, s, n),
    decreases n,
{
    if n > 0 {
        lemma_observed(a, b, net, mark, preds, s, n - 1);
        assert(a.records[n - 1].step == b.records[n - 1].step);
        let check = record_check(net, a, preds, s, n - 1);
        assert(check == record_check(net, b, preds, s, n - 1));
        match check {
            CheckView::Ready(t) => {
                lemma_haul_of_same(
                    a,
                    b,
                    net,
                    mark,
                    s,
                    t,
                    seq![AimView::Record(n - 1)],
                    looked_at(s, t).len() as int,
                );
                lemma_gaps_of(
                    a,
                    b,
                    t.emits,
                    a.records[n - 1].effects,
                    t.id,
                    t.emits.len() as int,
                );
            },
            _ => {},
        }
    }
}

proof fn lemma_slack(
    a: ObservationView,
    b: ObservationView,
    net: NetView,
    mark: Str,
    s: StateView,
    n: int,
)
    requires
        same_matter(a, b),
    ensures
        slack_haul(net, a, mark, s, n) == slack_haul(net, b, mark, s, n),
    decreases n,
{
    if n > 0 {
        lemma_slack(a, b, net, mark, s, n - 1);
        let t = net.transitions[n - 1];
        let aims = targets_of(a, s, t);
        assert(aims == targets_of(b, s, t));
        assert forall|j: int| 0 <= j < aims.len() implies aim_there(a, #[trigger] aims[j]) by {
            lemma_targets(a, s, t, j);
        }
        lemma_haul_of_same(a, b, net, mark, s, t, aims, looked_at(s, t).len() as int);
    }
}

proof fn lemma_expanded(
    a: ObservationView,
    b: ObservationView,
    net: NetView,
    slack: nat,
    s: StateView,
)
    requires
        same_matter(a, b),
        order_of(a) == order_of(b),
    ensures
        mark_of(net, a) == mark_of(net, b),
        expanded(net, a, slack, s) == expanded(net, b, slack, s),
{
    reveal(expansion);
    let mark = mark_of(net, a);
    assert(named_values(net, a) == named_values(net, b));
    lemma_observed(a, b, net, mark, order_of(a), s, a.records.len() as int);
    lemma_slack(a, b, net, mark, s, net.transitions.len() as int);
}

// ---------------------------------------------------------------------------
// The search
// ---------------------------------------------------------------------------
proof fn lemma_searched(
    a: ObservationView,
    b: ObservationView,
    net: NetView,
    opts: VerifyOptions,
    q: QuestView,
)
    requires
        same_matter(a, b),
        order_of(a) == order_of(b),
    ensures
        searched(net, a, opts, q) == searched(net, b, opts, q),
    decreases opts.max_states + 1 - q.states,
{
    if q.stack.len() > 0 {
        let slack = opts.slack as nat;
        let s = q.stack.last();
        let popped = QuestView { stack: q.stack.drop_last(), states: q.states + 1, ..q };
        lemma_expanded(a, b, net, slack, s);
        if popped.states <= opts.max_states {
            if s.depth > opts.bound || q.seen.contains(state_key(mark_of(net, a), s)) {
                lemma_searched(a, b, net, opts, popped);
            } else {
                assert(accepting(net, a, s) == accepting(net, b, s));
                if !accepting(net, a, s) {
                    let haul = expanded(net, a, slack, s);
                    let best = if further(score(s), score(q.best)) {
                        s
                    } else {
                        q.best
                    };
                    lemma_searched(
                        a,
                        b,
                        net,
                        opts,
                        QuestView {
                            stack: popped.stack + haul.states,
                            seen: q.seen.insert(state_key(mark_of(net, a), s)),
                            best,
                            log: logged_all(q.log, score(s), haul.faults, haul.faults.len() as int),
                            cut: q.cut || haul.cut,
                            ..popped
                        },
                    );
                }
            }
        }
    }
}

proof fn lemma_unexplained_steps(
    a: Seq<RecordView>,
    b: Seq<RecordView>,
    consumed: Seq<bool>,
    n: int,
)
    requires
        same_records(a, b),
        n <= a.len(),
    ensures
        unexplained_steps(a, consumed, n) == unexplained_steps(b, consumed, n),
    decreases n,
{
    if n > 0 {
        lemma_unexplained_steps(a, b, consumed, n - 1);
        assert(a[n - 1].step == b[n - 1].step);
    }
}

proof fn lemma_unexplained_effects(
    a: ObservationView,
    b: ObservationView,
    ids: Seq<Str>,
    matched: Seq<Str>,
    n: int,
)
    requires
        same_matter(a, b),
    ensures
        unexplained_effects(a, ids, matched, n) == unexplained_effects(b, ids, matched, n),
    decreases n,
{
    if n > 0 {
        lemma_unexplained_effects(a, b, ids, matched, n - 1);
    }
}

proof fn lemma_blocked(
    a: ObservationView,
    b: ObservationView,
    preds: Seq<Seq<usize>>,
    s: StateView,
    i: int,
)
    requires
        same_matter(a, b),
    ensures
        blocked_from(a, preds, s, i) == blocked_from(b, preds, s, i),
    decreases a.records.len() - i,
{
    if 0 <= i < a.records.len() {
        assert(a.records[i].step == b.records[i].step);
        lemma_blocked(a, b, preds, s, i + 1);
    }
}

/// Log sources whose clocks disagree cannot bring about a rejection: as long as the records of
/// each log plane keep their order among themselves, the outcome is the same whatever the
/// timestamps are.
pub proof fn clocks_of_different_planes_are_not_compared(
    net: NetView,
    a: ObservationView,
    b: ObservationView,
    opts: VerifyOptions,
)
    requires
        only_clocks_differ(a, b),
    ensures
        verified(net, a, opts) == verified(net, b, opts),
{
    lemma_matter(a, b);
    shifted_clocks_leave_the_order(a, b);
    assert(order_of(a) =~= order_of(b));
    lemma_edge_failures(a, b, net.spec, a.edges.len() as int);
    assert(initial_state(net, a).consumed =~= initial_state(net, b).consumed);
    assert(first_quest(net, a) == first_quest(net, b));
    reveal(search_result);
    lemma_searched(a, b, net, opts, first_quest(net, a));
    let r = search_result(net, a, opts);
    lemma_unexplained_steps(
        a.records,
        b.records,
        r.quest.best.consumed,
        a.records.len() as int,
    );
    lemma_unexplained_effects(
        a,
        b,
        effect_set(a),
        r.quest.best.matched,
        effect_set(a).len() as int,
    );
    assert(told_failures(net, a, r.quest.log, r.quest.best) == told_failures(
        net,
        b,
        r.quest.log,
        r.quest.best,
    ));
    lemma_blocked(a, b, order_of(a), r.quest.best, 0);
}

} // verus!
