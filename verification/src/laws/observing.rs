//! What an observation holds, in what order, and when it can be relied on.
use crate::laws::matching::an_effect_is_found_by_its_name;
use crate::observation::{
    all_effects, all_facts, carried, dangling_upto, defect, depends_on, earlier, edge_facts,
    effect_facts, effect_from, effect_ids, effects_upto, holder_from, just_before, must_precede,
    ordered, placed, predecessors, preds_upto, record_facts, record_ids, repeated_from, step_facts,
    steps_upto, stuck_from, unknown_end_from, EffectInstanceView, FactView, ObservationErrorView,
    ObservationView, ObservedEdgeView, PlaneView, RecordView,
};
use crate::observation::{lemma_placed_monotone, lemma_preds_upto};
use crate::search::{lemma_concat_contains, lemma_push_contains};
use crate::text::{before, Str};
use vstd::prelude::*;

verus! {

// ---------------------------------------------------------------------------
// Order
// ---------------------------------------------------------------------------
/// Whether a record is the first that carries an effect of this name.
pub open spec fn first_carries(rs: Seq<RecordView>, id: Str, i: int) -> bool {
    &&& 0 <= i < rs.len()
    &&& exists|k: int| 0 <= k < rs[i].effects.len() && (#[trigger] rs[i].effects[k]).id == id
    &&& forall|j: int, k: int|
        #![trigger rs[j].effects[k]]
        0 <= j < i && 0 <= k < rs[j].effects.len() ==> rs[j].effects[k].id != id
}

proof fn lemma_has_effect(es: Seq<EffectInstanceView>, id: Str, i: int)
    requires
        0 <= i,
    ensures
        effect_from(es, id, i) is Some <==> exists|k: int|
            i <= k < es.len() && (#[trigger] es[k]).id == id,
    decreases es.len() - i,
{
    if i < es.len() && es[i].id != id {
        lemma_has_effect(es, id, i + 1);
    }
}

proof fn lemma_holder_from(rs: Seq<RecordView>, id: Str, i: int, h: int)
    requires
        0 <= i,
        forall|j: int, k: int|
            #![trigger rs[j].effects[k]]
            0 <= j < i && j < rs.len() && 0 <= k < rs[j].effects.len() ==> rs[j].effects[k].id
                != id,
    ensures
        holder_from(rs, id, i) == Some(h) <==> i <= h && first_carries(rs, id, h),
    decreases rs.len() - i,
{
    if i < rs.len() {
        lemma_has_effect(rs[i].effects, id, 0);
        if effect_from(rs[i].effects, id, 0) is Some {
            let k = choose|k: int|
                0 <= k < rs[i].effects.len() && (#[trigger] rs[i].effects[k]).id == id;
            assert(first_carries(rs, id, i));
            if first_carries(rs, id, h) && i < h {
                assert(rs[i].effects[k].id != id);
            }
        } else {
            lemma_holder_from(rs, id, i + 1, h);
            if h == i {
                assert(!first_carries(rs, id, h));
            }
        }
    }
}

/// Whether one record comes before another in time; of two at the same time, the one that is
/// listed first does.
pub open spec fn in_time_before(rs: Seq<RecordView>, j: int, i: int) -> bool {
    before(rs[j].ts, rs[i].ts) || (rs[j].ts == rs[i].ts && j < i)
}

/// A record must precede another where it is the last before it in its plane, or where an edge
/// leads from an effect of the other to one of its own.
pub proof fn what_must_precede_a_record(obs: ObservationView, j: int, i: int)
    ensures
        must_precede(obs, j, i) <==> {
            ||| obs.records[j].plane == obs.records[i].plane && in_time_before(obs.records, j, i)
                && forall|k: int|
                0 <= k < obs.records.len() && (#[trigger] obs.records[k]).plane
                    == obs.records[i].plane && in_time_before(obs.records, k, i) ==> k == j
                    || in_time_before(obs.records, k, j)
            ||| i != j && exists|e: int|
                0 <= e < obs.edges.len() && first_carries(
                    obs.records,
                    (#[trigger] obs.edges[e]).from,
                    i,
                ) && first_carries(obs.records, obs.edges[e].to, j)
        },
{
    let rs = obs.records;
    assert forall|e: int| 0 <= e < obs.edges.len() implies (holder_from(
        rs,
        (#[trigger] obs.edges[e]).from,
        0,
    ) == Some(i)) == first_carries(rs, obs.edges[e].from, i) && (holder_from(
        rs,
        obs.edges[e].to,
        0,
    ) == Some(j)) == first_carries(rs, obs.edges[e].to, j) by {
        lemma_holder_from(rs, obs.edges[e].from, 0, i);
        lemma_holder_from(rs, obs.edges[e].to, 0, j);
    }
    assert forall|a: int, b: int| earlier(rs, a, b) == #[trigger] in_time_before(rs, a, b) by {}
    assert(just_before(rs, j, i) <==> obs.records[j].plane == obs.records[i].plane
        && in_time_before(obs.records, j, i) && forall|k: int|
        0 <= k < obs.records.len() && (#[trigger] obs.records[k]).plane == obs.records[i].plane
            && in_time_before(obs.records, k, i) ==> k == j || in_time_before(obs.records, k, j)) by {
        if just_before(rs, j, i) {
            assert forall|k: int|
                0 <= k < obs.records.len() && (#[trigger] obs.records[k]).plane
                    == obs.records[i].plane && in_time_before(obs.records, k, i) implies k == j
                || in_time_before(obs.records, k, j) by {
                assert(rs[k].plane == rs[i].plane);
                assert(earlier(rs, k, i));
            }
        } else if obs.records[j].plane == obs.records[i].plane && in_time_before(
            obs.records,
            j,
            i,
        ) && forall|k: int|
            0 <= k < obs.records.len() && (#[trigger] obs.records[k]).plane == obs.records[i].plane
                && in_time_before(obs.records, k, i) ==> k == j || in_time_before(
                obs.records,
                k,
                j,
            ) {
            assert(earlier(rs, j, i));
            assert forall|k: int|
                0 <= k < rs.len() && #[trigger] rs[k].plane == rs[i].plane && earlier(
                    rs,
                    k,
                    i,
                ) implies k == j || earlier(rs, k, j) by {
                assert(in_time_before(rs, k, i));
                assert(in_time_before(rs, k, j) == earlier(rs, k, j));
            }
            assert(just_before(rs, j, i));
        }
    }
}

/// Whether numbers put every record behind those that must precede it.
pub open spec fn ranks(obs: ObservationView, rank: Seq<nat>) -> bool {
    &&& rank.len() == obs.records.len()
    &&& forall|i: int, j: int|
        0 <= i < obs.records.len() && 0 <= j < obs.records.len() && #[trigger] must_precede(
            obs,
            j,
            i,
        ) ==> rank[j] < rank[i]
}

proof fn lemma_least(preds: Seq<Seq<usize>>, k: nat, i: int) -> (least: nat)
    requires
        placed(preds, k, i),
    ensures
        0 < least <= k,
        placed(preds, least, i),
        !placed(preds, (least - 1) as nat, i),
    decreases k,
{
    if k > 1 && placed(preds, (k - 1) as nat, i) {
        lemma_least(preds, (k - 1) as nat, i)
    } else {
        k
    }
}

spec fn least_round(preds: Seq<Seq<usize>>, i: int) -> nat {
    choose|k: nat|
        #![trigger placed(preds, k, i)]
        k > 0 && placed(preds, k, i) && !placed(preds, (k - 1) as nat, i)
}

proof fn lemma_none_stuck(preds: Seq<Seq<usize>>, i: int)
    requires
        0 <= i,
    ensures
        stuck_from(preds, i) is None <==> forall|a: int|
            i <= a < preds.len() ==> placed(preds, preds.len(), a),
        stuck_from(preds, i) matches Some(a) ==> i <= a < preds.len() && !placed(
            preds,
            preds.len(),
            a,
        ),
    decreases preds.len() - i,
{
    if i < preds.len() {
        lemma_none_stuck(preds, i + 1);
    }
}

proof fn lemma_ranked_placed(obs: ObservationView, rank: Seq<nat>, i: int)
    requires
        obs.records.len() <= usize::MAX,
        ranks(obs, rank),
        0 <= i < obs.records.len(),
    ensures
        placed(predecessors(obs), rank[i] + 1, i),
    decreases rank[i],
{
    let preds = predecessors(obs);
    lemma_preds_upto(obs, i, obs.records.len() as int);
    assert forall|x: int| 0 <= x < preds[i].len() implies placed(
        preds,
        (rank[i] + 1 - 1) as nat,
        (#[trigger] preds[i][x]) as int,
    ) by {
        let j = preds[i][x] as int;
        assert(preds[i] == preds_upto(obs, i, obs.records.len() as int));
        assert(must_precede(obs, j, i));
        lemma_ranked_placed(obs, rank, j);
        lemma_placed_monotone(preds, rank[j] + 1, rank[i], j);
    }
}

/// Records are in order exactly where they can be ranked by numbers below their count so that
/// whatever must precede a record ranks below it; else the first record of an order cannot be
/// found, and a cycle is told.
pub proof fn records_are_in_order_where_they_can_be_ranked(obs: ObservationView)
    requires
        obs.records.len() <= usize::MAX,
    ensures
        ordered(obs) is Ok ==> exists|rank: Seq<nat>| #[trigger] ranks(obs, rank),
        (exists|rank: Seq<nat>| #[trigger]
            ranks(obs, rank) && forall|i: int| 0 <= i < rank.len() ==> rank[i] < rank.len())
            ==> ordered(obs) is Ok,
        ordered(obs) matches Err(e) ==> exists|i: int|
            0 <= i < obs.records.len() && e == ObservationErrorView::CausalCycle(
                (#[trigger] obs.records[i]).id,
            ),
{
    let preds = predecessors(obs);
    let n = obs.records.len();
    lemma_none_stuck(preds, 0);
    if ordered(obs) is Ok {
        let rank = Seq::new(n, |i: int| least_round(preds, i));
        assert forall|i: int, j: int|
            0 <= i < n && 0 <= j < n && #[trigger] must_precede(obs, j, i) implies rank[j]
            < rank[i] by {
            assert(placed(preds, n, i));
            assert(placed(preds, n, j));
            let a = lemma_least(preds, n, i);
            let b = lemma_least(preds, n, j);
            let ri = least_round(preds, i);
            let rj = least_round(preds, j);
            assert(placed(preds, ri, i) && ri > 0);
            assert(placed(preds, rj, j) && !placed(preds, (rj - 1) as nat, j));
            lemma_preds_upto(obs, i, n as int);
            assert(preds[i] == preds_upto(obs, i, n as int));
            assert(preds[i].contains(j as usize));
            let x = preds[i].index_of(j as usize);
            assert(placed(preds, (ri - 1) as nat, preds[i][x] as int));
            if ri <= rj {
                lemma_placed_monotone(preds, (ri - 1) as nat, (rj - 1) as nat, j);
            }
        }
        assert(ranks(obs, rank));
    } else {
        let i = stuck_from(preds, 0)->0;
        assert(obs.records[i].id == obs.records[i].id);
        if exists|rank: Seq<nat>| #[trigger]
            ranks(obs, rank) && forall|i: int| 0 <= i < rank.len() ==> rank[i] < rank.len() {
            let rank = choose|rank: Seq<nat>| #[trigger]
                ranks(obs, rank) && forall|i: int| 0 <= i < rank.len() ==> rank[i] < rank.len();
            lemma_ranked_placed(obs, rank, i);
            assert(rank[i] < rank.len());
            lemma_placed_monotone(preds, rank[i] + 1, n, i);
        }
    }
}

// ---------------------------------------------------------------------------
// Validity
// ---------------------------------------------------------------------------
proof fn lemma_repeated(ids: Seq<Str>, i: int)
    requires
        0 <= i,
        forall|a: int, b: int| 0 <= a < b < i && b < ids.len() ==> ids[a] != ids[b],
    ensures
        repeated_from(ids, i) is None <==> forall|a: int, b: int|
            0 <= a < b < ids.len() ==> #[trigger] ids[a] != #[trigger] ids[b],
        repeated_from(ids, i) matches Some(id) ==> exists|a: int, b: int|
            0 <= a < b < ids.len() && #[trigger] ids[a] == id && #[trigger] ids[b] == id,
    decreases ids.len() - i,
{
    if i < ids.len() {
        if exists|j: int| 0 <= j < i && #[trigger] ids[j] == ids[i] {
            let j = choose|j: int| 0 <= j < i && #[trigger] ids[j] == ids[i];
            assert(ids[j] == ids[i] && ids[i] == ids[i]);
        } else {
            lemma_repeated(ids, i + 1);
        }
    }
}

proof fn lemma_unknown_end(
    obs: ObservationView,
    es: Seq<EffectInstanceView>,
    edges: Seq<ObservedEdgeView>,
    i: int,
)
    requires
        0 <= i,
    ensures
        unknown_end_from(es, edges, i) is None <==> forall|e: int|
            i <= e < edges.len() ==> has_name(es, (#[trigger] edges[e]).from) && has_name(
                es,
                edges[e].to,
            ),
        unknown_end_from(es, edges, i) matches Some(f) ==> exists|e: int|
            i <= e < edges.len() && ((f == ObservationErrorView::UnknownEffect {
                relation: (#[trigger] edges[e]).ty,
                id: edges[e].from,
            } && !has_name(es, edges[e].from)) || (f == ObservationErrorView::UnknownEffect {
                relation: edges[e].ty,
                id: edges[e].to,
            } && !has_name(es, edges[e].to))),
    decreases edges.len() - i,
{
    if i < edges.len() {
        lemma_has_effect(es, edges[i].from, 0);
        lemma_has_effect(es, edges[i].to, 0);
        lemma_unknown_end(obs, es, edges, i + 1);
        assert(edges[i].ty == edges[i].ty);
    }
}

/// Whether one of the effects has this name.
pub open spec fn has_name(es: Seq<EffectInstanceView>, id: Str) -> bool {
    exists|k: int| 0 <= k < es.len() && (#[trigger] es[k]).id == id
}

/// An observation is valid exactly where no two records and no two effects share a name, every
/// edge joins effects that were observed, and the records are in order. What is told first is a
/// repeated record, then a repeated effect, then an end that was not observed, then a cycle.
pub proof fn when_an_observation_is_valid(obs: ObservationView)
    ensures
        defect(obs) is None <==> {
            &&& forall|a: int, b: int|
                0 <= a < b < obs.records.len() ==> (#[trigger] obs.records[a]).id != (
                #[trigger] obs.records[b]).id
            &&& forall|a: int, b: int|
                0 <= a < b < all_effects(obs.records).len() ==> (#[trigger] all_effects(
                    obs.records,
                )[a]).id != (#[trigger] all_effects(obs.records)[b]).id
            &&& forall|e: int|
                0 <= e < obs.edges.len() ==> has_name(
                    all_effects(obs.records),
                    (#[trigger] obs.edges[e]).from,
                ) && has_name(all_effects(obs.records), obs.edges[e].to)
            &&& ordered(obs) is Ok
        },
        (exists|a: int, b: int|
            0 <= a < b < obs.records.len() && (#[trigger] obs.records[a]).id == (
            #[trigger] obs.records[b]).id) ==> (defect(obs) matches Some(
            ObservationErrorView::DuplicateRecord(id),
        ) && exists|a: int, b: int|
            0 <= a < b < obs.records.len() && (#[trigger] obs.records[a]).id == id && (
            #[trigger] obs.records[b]).id == id),
        (forall|a: int, b: int|
            0 <= a < b < obs.records.len() ==> (#[trigger] obs.records[a]).id != (
            #[trigger] obs.records[b]).id) && (exists|a: int, b: int|
            0 <= a < b < all_effects(obs.records).len() && (#[trigger] all_effects(
                obs.records,
            )[a]).id == (#[trigger] all_effects(obs.records)[b]).id) ==> (defect(obs) matches Some(
            ObservationErrorView::DuplicateEffect(id),
        ) && exists|a: int, b: int|
            0 <= a < b < all_effects(obs.records).len() && (#[trigger] all_effects(
                obs.records,
            )[a]).id == id && (#[trigger] all_effects(obs.records)[b]).id == id),
        defect(obs) matches Some(ObservationErrorView::UnknownEffect { relation, id }) ==> exists|
            e: int,
        |
            0 <= e < obs.edges.len() && (#[trigger] obs.edges[e]).ty == relation && (id
                == obs.edges[e].from || id == obs.edges[e].to) && !has_name(
                all_effects(obs.records),
                id,
            ),
{
    let rids = record_ids(obs.records);
    let es = all_effects(obs.records);
    let eids = effect_ids(es);
    lemma_repeated(rids, 0);
    lemma_repeated(eids, 0);
    lemma_unknown_end(obs, es, obs.edges, 0);
    assert forall|a: int| 0 <= a < obs.records.len() implies rids[a] == (
    #[trigger] obs.records[a]).id by {}
    assert forall|a: int| 0 <= a < es.len() implies eids[a] == (#[trigger] es[a]).id by {}
    assert((forall|a: int, b: int|
        0 <= a < b < rids.len() ==> #[trigger] rids[a] != #[trigger] rids[b]) <==> (forall|
        a: int,
        b: int,
    |
        0 <= a < b < obs.records.len() ==> (#[trigger] obs.records[a]).id != (
        #[trigger] obs.records[b]).id)) by {
        if forall|a: int, b: int|
            0 <= a < b < obs.records.len() ==> (#[trigger] obs.records[a]).id != (
            #[trigger] obs.records[b]).id {
            assert forall|a: int, b: int| 0 <= a < b < rids.len() implies #[trigger] rids[a]
                != #[trigger] rids[b] by {
                assert(obs.records[a].id != obs.records[b].id);
            }
        } else if forall|a: int, b: int|
            0 <= a < b < rids.len() ==> #[trigger] rids[a] != #[trigger] rids[b] {
            let (a, b) = choose|a: int, b: int|
                0 <= a < b < obs.records.len() && (#[trigger] obs.records[a]).id == (
                #[trigger] obs.records[b]).id;
            assert(rids[a] != rids[b]);
        }
    }
    assert((forall|a: int, b: int|
        0 <= a < b < eids.len() ==> #[trigger] eids[a] != #[trigger] eids[b]) <==> (forall|
        a: int,
        b: int,
    |
        0 <= a < b < es.len() ==> (#[trigger] es[a]).id != (#[trigger] es[b]).id)) by {
        if forall|a: int, b: int|
            0 <= a < b < es.len() ==> (#[trigger] es[a]).id != (#[trigger] es[b]).id {
            assert forall|a: int, b: int| 0 <= a < b < eids.len() implies #[trigger] eids[a]
                != #[trigger] eids[b] by {
                assert(es[a].id != es[b].id);
            }
        } else if forall|a: int, b: int|
            0 <= a < b < eids.len() ==> #[trigger] eids[a] != #[trigger] eids[b] {
            let (a, b) = choose|a: int, b: int|
                0 <= a < b < es.len() && (#[trigger] es[a]).id == (#[trigger] es[b]).id;
            assert(eids[a] != eids[b]);
        }
    }
    if repeated_from(rids, 0) is Some {
        let id = repeated_from(rids, 0)->0;
        let (a, b) = choose|a: int, b: int|
            0 <= a < b < rids.len() && #[trigger] rids[a] == id && #[trigger] rids[b] == id;
        assert(obs.records[a].id == id && obs.records[b].id == id);
    } else if repeated_from(eids, 0) is Some {
        let id = repeated_from(eids, 0)->0;
        let (a, b) = choose|a: int, b: int|
            0 <= a < b < eids.len() && #[trigger] eids[a] == id && #[trigger] eids[b] == id;
        assert(es[a].id == id && es[b].id == id);
    }
}

// ---------------------------------------------------------------------------
// Facts
// ---------------------------------------------------------------------------
/// Whether a fact is of a record: the step that it claims, or one of its effects.
pub open spec fn is_fact_of(r: RecordView, f: FactView) -> bool {
    ||| r.step matches Some(step) && f == (FactView::Step {
        record: r.id,
        step,
        principal: r.principal,
    })
    ||| exists|k: int|
        0 <= k < r.effects.len() && f == (FactView::Effect {
            id: (#[trigger] r.effects[k]).id,
            kind: r.effects[k].kind,
            args: r.effects[k].args,
        })
}

proof fn lemma_effect_facts(es: Seq<EffectInstanceView>, n: int, f: FactView)
    requires
        0 <= n <= es.len(),
    ensures
        effect_facts(es, n).contains(f) <==> exists|k: int|
            0 <= k < n && f == (FactView::Effect {
                id: (#[trigger] es[k]).id,
                kind: es[k].kind,
                args: es[k].args,
            }),
    decreases n,
{
    if n > 0 {
        lemma_effect_facts(es, n - 1, f);
        lemma_push_contains(
            effect_facts(es, n - 1),
            FactView::Effect { id: es[n - 1].id, kind: es[n - 1].kind, args: es[n - 1].args },
            f,
        );
    }
}

proof fn lemma_record_facts(rs: Seq<RecordView>, n: int, f: FactView)
    requires
        0 <= n <= rs.len(),
    ensures
        record_facts(rs, n).contains(f) <==> exists|i: int|
            0 <= i < n && is_fact_of(#[trigger] rs[i], f),
    decreases n,
{
    if n > 0 {
        lemma_record_facts(rs, n - 1, f);
        let r = rs[n - 1];
        let a = record_facts(rs, n - 1);
        let b = step_facts(r);
        let c = effect_facts(r.effects, r.effects.len() as int);
        lemma_effect_facts(r.effects, r.effects.len() as int, f);
        lemma_concat_contains(a, b, f);
        lemma_concat_contains(a + b, c, f);
        if r.step is Some {
            assert(b[0] == (FactView::Step { record: r.id, step: r.step->0, principal: r.principal }));
        }
    }
}

proof fn lemma_edge_facts(es: Seq<ObservedEdgeView>, n: int, f: FactView)
    requires
        0 <= n <= es.len(),
    ensures
        edge_facts(es, n).contains(f) <==> exists|k: int|
            0 <= k < n && f == (FactView::Edge {
                relation: (#[trigger] es[k]).ty,
                from: es[k].from,
                to: es[k].to,
            }),
    decreases n,
{
    if n > 0 {
        lemma_edge_facts(es, n - 1, f);
        lemma_push_contains(
            edge_facts(es, n - 1),
            FactView::Edge { relation: es[n - 1].ty, from: es[n - 1].from, to: es[n - 1].to },
            f,
        );
    }
}

/// The facts of an observation are the steps that its records claim, their effects and the
/// edges, and nothing else.
pub proof fn what_the_facts_are(obs: ObservationView, f: FactView)
    ensures
        all_facts(obs).contains(f) <==> {
            ||| exists|i: int|
                0 <= i < obs.records.len() && is_fact_of(#[trigger] obs.records[i], f)
            ||| exists|k: int|
                0 <= k < obs.edges.len() && f == (FactView::Edge {
                    relation: (#[trigger] obs.edges[k]).ty,
                    from: obs.edges[k].from,
                    to: obs.edges[k].to,
                })
        },
{
    lemma_record_facts(obs.records, obs.records.len() as int, f);
    lemma_edge_facts(obs.edges, obs.edges.len() as int, f);
    lemma_concat_contains(
        record_facts(obs.records, obs.records.len() as int),
        edge_facts(obs.edges, obs.edges.len() as int),
        f,
    );
}

/// The records that claim a step are listed by their positions, in order.
pub proof fn the_steps_are_listed(rs: Seq<RecordView>, n: int, i: usize)
    requires
        0 <= n <= rs.len() <= usize::MAX,
    ensures
        steps_upto(rs, n).contains(i) <==> i < n && rs[i as int].step is Some,
        forall|a: int, b: int|
            0 <= a < b < steps_upto(rs, n).len() ==> #[trigger] steps_upto(rs, n)[a]
                < #[trigger] steps_upto(rs, n)[b],
        forall|a: int| 0 <= a < steps_upto(rs, n).len() ==> #[trigger] steps_upto(rs, n)[a] < n,
    decreases n,
{
    if n > 0 {
        the_steps_are_listed(rs, n - 1, i);
        lemma_push_contains(steps_upto(rs, n - 1), (n - 1) as usize, i);
    }
}

/// The effects that no step claims are those of the records without one, in order.
pub proof fn effects_without_a_step(rs: Seq<RecordView>, n: int, e: EffectInstanceView)
    requires
        0 <= n <= rs.len(),
    ensures
        dangling_upto(rs, n).contains(e) <==> exists|i: int|
            0 <= i < n && (#[trigger] rs[i]).step is None && rs[i].effects.contains(e),
        effects_upto(rs, n).contains(e) <==> exists|i: int|
            0 <= i < n && (#[trigger] rs[i]).effects.contains(e),
    decreases n,
{
    if n > 0 {
        effects_without_a_step(rs, n - 1, e);
        lemma_concat_contains(dangling_upto(rs, n - 1), rs[n - 1].effects, e);
        lemma_concat_contains(effects_upto(rs, n - 1), rs[n - 1].effects, e);
    }
}

/// A kind of effect is sure to be seen where some complete plane carries it.
pub proof fn what_is_sure_to_be_seen(planes: Seq<(Str, PlaneView)>, kind: Str, i: int)
    ensures
        0 <= i < planes.len() && planes[i].1.complete && planes[i].1.carries.contains(kind)
            ==> carried(planes, kind),
        carried(planes, kind) ==> exists|k: int|
            0 <= k < planes.len() && (#[trigger] planes[k]).1.complete
                && planes[k].1.carries.contains(kind),
{
}

} // verus!
