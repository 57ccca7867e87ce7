//! What a restriction to a set of facts leaves of an observation.

use crate::observation::{
    all_effects, all_facts, defect, depends_on, earlier, edge_facts, effect_facts, effect_from,
    effect_ids, effect_named, effects_upto, holder_from, just_before, kept_edges, kept_effects,
    kept_record, kept_records, keeps_effect, keeps_step, lemma_earlier_total,
    lemma_earlier_transitive, lemma_effect_from, lemma_placed_monotone, lemma_placed_stable,
    lemma_preds_upto, must_precede, placed, predecessors, preds_upto, record_facts, record_ids,
    repeated_from, restricted, step_facts, stuck_from, unknown_end_from, EffectInstanceView,
    FactView, ObservationView, ObservedEdgeView, RecordView,
};
use crate::text::Str;
use vstd::prelude::*;

verus! {

// ---------------------------------------------------------------------------
// Which facts stay
// ---------------------------------------------------------------------------
/// Whether a fact stays: it is kept and, where it is an edge, so are the effects at its ends.
pub open spec fn stays(keep: Seq<FactView>, f: FactView) -> bool {
    keep.contains(f) && (f matches FactView::Edge { from, to, .. } ==> keeps_effect(keep, from)
        && keeps_effect(keep, to))
}

/// Those of some facts that stay, in their order.
pub open spec fn staying(fs: Seq<FactView>, keep: Seq<FactView>) -> Seq<FactView>
    decreases fs.len(),
{
    if fs.len() == 0 {
        Seq::empty()
    } else {
        let rest = staying(fs.drop_last(), keep);
        if stays(keep, fs.last()) {
            rest.push(fs.last())
        } else {
            rest
        }
    }
}

/// Whether every item of `keep` is a fact of the observation.
pub open spec fn facts_of(obs: ObservationView, keep: Seq<FactView>) -> bool {
    forall|f: FactView| #[trigger] keep.contains(f) ==> all_facts(obs).contains(f)
}

/// Whether no record id and no effect id occurs twice.
spec fn ids_differ(rs: Seq<RecordView>) -> bool {
    &&& forall|i: int, j: int|
        0 <= i < j < rs.len() ==> (#[trigger] rs[i]).id != (#[trigger] rs[j]).id
    &&& forall|i: int, j: int|
        0 <= i < j < all_effects(rs).len() ==> (#[trigger] all_effects(rs)[i]).id != (
        #[trigger] all_effects(rs)[j]).id
}

proof fn lemma_staying_push(fs: Seq<FactView>, f: FactView, keep: Seq<FactView>)
    ensures
        staying(fs.push(f), keep) == if stays(keep, f) {
            staying(fs, keep).push(f)
        } else {
            staying(fs, keep)
        },
{
    assert(fs.push(f).drop_last() =~= fs);
}

proof fn lemma_staying_concat(a: Seq<FactView>, b: Seq<FactView>, keep: Seq<FactView>)
    ensures
        staying(a + b, keep) == staying(a, keep) + staying(b, keep),
    decreases b.len(),
{
    if b.len() == 0 {
        assert(a + b =~= a);
        assert(staying(a, keep) + staying(b, keep) =~= staying(a, keep));
    } else {
        lemma_staying_concat(a, b.drop_last(), keep);
        assert(a + b =~= (a + b.drop_last()).push(b.last()));
        lemma_staying_push(a + b.drop_last(), b.last(), keep);
        assert(staying(a + b, keep) =~= staying(a, keep) + staying(b, keep));
    }
}

proof fn lemma_repeated(ids: Seq<Str>, i: int)
    requires
        repeated_from(ids, i) is None,
        0 <= i,
    ensures
        forall|a: int, b: int| 0 <= a < b < ids.len() && i <= b ==> #[trigger] ids[a]
            != #[trigger] ids[b],
    decreases ids.len() - i,
{
    if i < ids.len() {
        lemma_repeated(ids, i + 1);
        assert forall|a: int, b: int| 0 <= a < b < ids.len() && i <= b implies #[trigger] ids[a]
            != #[trigger] ids[b] by {
            if b == i {
                assert(!(0 <= a < i && ids[a] == ids[i]));
            }
        }
    }
}

proof fn lemma_unrepeated(ids: Seq<Str>, i: int)
    requires
        forall|a: int, b: int| 0 <= a < b < ids.len() ==> #[trigger] ids[a] != #[trigger] ids[b],
    ensures
        repeated_from(ids, i) is None,
    decreases ids.len() - i,
{
    if 0 <= i < ids.len() {
        lemma_unrepeated(ids, i + 1);
    }
}

proof fn lemma_valid_ids(obs: ObservationView)
    requires
        defect(obs) is None,
    ensures
        ids_differ(obs.records),
{
    let es = all_effects(obs.records);
    let ids = record_ids(obs.records);
    lemma_repeated(ids, 0);
    lemma_repeated(effect_ids(es), 0);
    assert forall|i: int, j: int| 0 <= i < j < obs.records.len() implies (#[trigger]
    obs.records[i]).id != (#[trigger] obs.records[j]).id by {
        assert(ids[i] != ids[j]);
    }
    assert forall|i: int, j: int| 0 <= i < j < es.len() implies (#[trigger] es[i]).id != (
    #[trigger] es[j]).id by {
        assert(effect_ids(es)[i] != effect_ids(es)[j]);
    }
}

// ---------------------------------------------------------------------------
// Facts by kind
// ---------------------------------------------------------------------------
/// The fact that an effect is.
spec fn effect_fact(e: EffectInstanceView) -> FactView {
    FactView::Effect { id: e.id, kind: e.kind, args: e.args }
}

proof fn lemma_effect_facts(es: Seq<EffectInstanceView>, n: int)
    requires
        0 <= n <= es.len(),
    ensures
        effect_facts(es, n).len() == n,
        forall|i: int| 0 <= i < n ==> #[trigger] effect_facts(es, n)[i] == effect_fact(es[i]),
    decreases n,
{
    if n > 0 {
        lemma_effect_facts(es, n - 1);
    }
}

proof fn lemma_edge_facts(es: Seq<ObservedEdgeView>, n: int)
    requires
        0 <= n <= es.len(),
    ensures
        edge_facts(es, n).len() == n,
        forall|i: int|
            0 <= i < n ==> #[trigger] edge_facts(es, n)[i] == (FactView::Edge {
                relation: es[i].ty,
                from: es[i].from,
                to: es[i].to,
            }),
    decreases n,
{
    if n > 0 {
        lemma_edge_facts(es, n - 1);
    }
}

/// A fact of some records is the step of one of them, or one of their effects.
proof fn lemma_record_facts(rs: Seq<RecordView>, n: int, f: FactView)
    requires
        0 <= n <= rs.len(),
        record_facts(rs, n).contains(f),
    ensures
        f is Step ==> exists|i: int| 0 <= i < n && #[trigger] step_facts(rs[i]).contains(f),
        f is Effect ==> exists|j: int|
            0 <= j < effects_upto(rs, n).len() && f == effect_fact(#[trigger] effects_upto(rs, n)[j]),
        !(f is Edge),
    decreases n,
{
    if n > 0 {
        let r = rs[n - 1];
        let a = record_facts(rs, n - 1);
        let b = step_facts(r);
        let c = effect_facts(r.effects, r.effects.len() as int);
        lemma_effect_facts(r.effects, r.effects.len() as int);
        let all = record_facts(rs, n);
        assert(all == a + b + c);
        let i = all.index_of(f);
        if i < a.len() {
            assert(a[i] == f);
            assert(a.contains(f));
            lemma_record_facts(rs, n - 1, f);
            if f is Effect {
                let j = choose|j: int|
                    0 <= j < effects_upto(rs, n - 1).len() && f == effect_fact(
                        #[trigger] effects_upto(rs, n - 1)[j],
                    );
                assert(effects_upto(rs, n)[j] == effects_upto(rs, n - 1)[j]);
            }
        } else if i < a.len() + b.len() {
            assert(b[i - a.len()] == f);
            assert(step_facts(rs[n - 1]).contains(f));
        } else {
            let j = i - a.len() - b.len();
            assert(c[j] == f);
            assert(effects_upto(rs, n)[effects_upto(rs, n - 1).len() + j] == r.effects[j]);
        }
    }
}

/// The step of a record is a fact; so is each of its effects.
proof fn lemma_facts_include(rs: Seq<RecordView>, n: int)
    requires
        0 <= n <= rs.len(),
    ensures
        forall|i: int, f: FactView|
            0 <= i < n && #[trigger] step_facts(rs[i]).contains(f) ==> record_facts(rs, n).contains(
                f,
            ),
        forall|j: int|
            0 <= j < effects_upto(rs, n).len() ==> record_facts(rs, n).contains(
                effect_fact(#[trigger] effects_upto(rs, n)[j]),
            ),
    decreases n,
{
    if n > 0 {
        lemma_facts_include(rs, n - 1);
        let r = rs[n - 1];
        let a = record_facts(rs, n - 1);
        let b = step_facts(r);
        let c = effect_facts(r.effects, r.effects.len() as int);
        lemma_effect_facts(r.effects, r.effects.len() as int);
        let all = record_facts(rs, n);
        assert(all == a + b + c);
        assert forall|i: int, f: FactView| 0 <= i < n && #[trigger] step_facts(rs[i]).contains(
            f,
        ) implies all.contains(f) by {
            if i < n - 1 {
                assert(a.contains(f));
                assert(all[a.index_of(f)] == f);
            } else {
                assert(all[a.len() + b.index_of(f)] == f);
            }
        }
        assert forall|j: int| 0 <= j < effects_upto(rs, n).len() implies all.contains(
            effect_fact(#[trigger] effects_upto(rs, n)[j]),
        ) by {
            let k = effects_upto(rs, n - 1).len();
            if j < k {
                let f = effect_fact(effects_upto(rs, n - 1)[j]);
                assert(effects_upto(rs, n)[j] == effects_upto(rs, n - 1)[j]);
                assert(a.contains(f));
                assert(all[a.index_of(f)] == f);
            } else {
                assert(all[a.len() + b.len() + (j - k)] == c[j - k]);
            }
        }
    }
}

/// Where ids tell records and effects apart, a record's step is kept exactly where its fact is,
/// and an effect exactly where its fact is.
proof fn lemma_kept_by_fact(obs: ObservationView, keep: Seq<FactView>)
    requires
        ids_differ(obs.records),
        facts_of(obs, keep),
    ensures
        forall|i: int, f: FactView|
            0 <= i < obs.records.len() && #[trigger] step_facts(obs.records[i]).contains(f) ==> (
            keeps_step(keep, obs.records[i].id) <==> keep.contains(f)),
        forall|j: int|
            0 <= j < all_effects(obs.records).len() ==> (keeps_effect(
                keep,
                (#[trigger] all_effects(obs.records)[j]).id,
            ) <==> keep.contains(effect_fact(all_effects(obs.records)[j]))),
        forall|id: Str| #[trigger] keeps_effect(keep, id) ==> exists|j: int|
            0 <= j < all_effects(obs.records).len() && (#[trigger] all_effects(obs.records)[j]).id
                == id,
{
    let rs = obs.records;
    let n = rs.len() as int;
    let es = all_effects(rs);
    let edges = edge_facts(obs.edges, obs.edges.len() as int);
    lemma_edge_facts(obs.edges, obs.edges.len() as int);
    assert forall|g: FactView| keep.contains(g) && !(g is Edge) implies #[trigger] record_facts(
        rs,
        n,
    ).contains(g) by {
        assert(all_facts(obs).contains(g));
        let i = all_facts(obs).index_of(g);
        if i < record_facts(rs, n).len() {
            assert(record_facts(rs, n)[i] == g);
        } else {
            assert(edges[i - record_facts(rs, n).len()] == g);
        }
    }
    assert forall|i: int, f: FactView| 0 <= i < rs.len() && #[trigger] step_facts(rs[i]).contains(
        f,
    ) implies (keeps_step(keep, rs[i].id) <==> keep.contains(f)) by {
        if keep.contains(f) {
            assert(keep[keep.index_of(f)] == f);
        }
        if keeps_step(keep, rs[i].id) {
            let k = choose|k: int|
                0 <= k < keep.len() && (#[trigger] keep[k] matches FactView::Step { record, .. }
                    && record == rs[i].id);
            let g = keep[k];
            assert(keep.contains(g));
            assert(record_facts(rs, n).contains(g));
            lemma_record_facts(rs, n, g);
            let m = choose|m: int| 0 <= m < n && #[trigger] step_facts(rs[m]).contains(g);
            assert(rs[m].id == rs[i].id);
            assert(m == i);
            assert(g == f);
        }
    }
    assert forall|id: Str| #[trigger] keeps_effect(keep, id) implies exists|j: int|
        0 <= j < es.len() && (#[trigger] es[j]).id == id && keep.contains(effect_fact(es[j])) by {
        let k = choose|k: int|
            0 <= k < keep.len() && (#[trigger] keep[k] matches FactView::Effect { id: x, .. } && x
                == id);
        let g = keep[k];
        assert(keep.contains(g));
        assert(record_facts(rs, n).contains(g));
        lemma_record_facts(rs, n, g);
        let j = choose|j: int| 0 <= j < es.len() && g == effect_fact(#[trigger] es[j]);
        assert(es[j].id == id);
    }
    assert forall|j: int| 0 <= j < es.len() implies (keeps_effect(keep, (#[trigger] es[j]).id)
        <==> keep.contains(effect_fact(es[j]))) by {
        let f = effect_fact(es[j]);
        if keep.contains(f) {
            assert(keep[keep.index_of(f)] == f);
        }
        if keeps_effect(keep, es[j].id) {
            let m = choose|m: int|
                0 <= m < es.len() && (#[trigger] es[m]).id == es[j].id && keep.contains(
                    effect_fact(es[m]),
                );
            assert(m == j);
        }
    }
}

// ---------------------------------------------------------------------------
// The facts that are left
// ---------------------------------------------------------------------------
proof fn lemma_effect_at(rs: Seq<RecordView>, n: int, i: int, k: int)
    requires
        0 <= i < n <= rs.len(),
        0 <= k < rs[i].effects.len(),
    ensures
        effects_upto(rs, i).len() + k < effects_upto(rs, n).len(),
        effects_upto(rs, n)[effects_upto(rs, i).len() + k] == rs[i].effects[k],
    decreases n,
{
    if i < n - 1 {
        lemma_effect_at(rs, n - 1, i, k);
        assert(effects_upto(rs, n)[effects_upto(rs, i).len() + k] == effects_upto(rs, n - 1)[
        effects_upto(rs, i).len() + k]);
    }
}

proof fn lemma_kept_effect_facts(es: Seq<EffectInstanceView>, keep: Seq<FactView>, n: int)
    requires
        0 <= n <= es.len(),
        forall|i: int|
            0 <= i < n ==> (keeps_effect(keep, (#[trigger] es[i]).id) <==> keep.contains(
                effect_fact(es[i]),
            )),
    ensures
        ({
            let ks = kept_effects(es, keep, n);
            effect_facts(ks, ks.len() as int) == staying(effect_facts(es, n), keep)
        }),
    decreases n,
{
    if n > 0 {
        lemma_kept_effect_facts(es, keep, n - 1);
        let ks = kept_effects(es, keep, n - 1);
        let f = effect_fact(es[n - 1]);
        lemma_staying_push(effect_facts(es, n - 1), f, keep);
        if keeps_effect(keep, es[n - 1].id) {
            let more = ks.push(es[n - 1]);
            lemma_effect_facts(ks, ks.len() as int);
            lemma_effect_facts(more, more.len() as int);
            assert(effect_facts(more, more.len() as int) =~= effect_facts(
                ks,
                ks.len() as int,
            ).push(f));
        }
    }
}

proof fn lemma_record_facts_same(xs: Seq<RecordView>, ys: Seq<RecordView>, n: int)
    requires
        0 <= n <= xs.len(),
        n <= ys.len(),
        forall|i: int| 0 <= i < n ==> #[trigger] xs[i] == ys[i],
    ensures
        record_facts(xs, n) == record_facts(ys, n),
        effects_upto(xs, n) == effects_upto(ys, n),
    decreases n,
{
    if n > 0 {
        lemma_record_facts_same(xs, ys, n - 1);
    }
}

/// Whether the steps and effects of a record are kept exactly where their facts are.
spec fn kept_by_fact(r: RecordView, keep: Seq<FactView>) -> bool {
    &&& forall|f: FactView| #[trigger]
        step_facts(r).contains(f) ==> (keeps_step(keep, r.id) <==> keep.contains(f))
    &&& forall|k: int|
        0 <= k < r.effects.len() ==> (keeps_effect(keep, (#[trigger] r.effects[k]).id)
            <==> keep.contains(effect_fact(r.effects[k])))
}

proof fn lemma_kept_record_facts(r: RecordView, keep: Seq<FactView>)
    requires
        kept_by_fact(r, keep),
    ensures
        ({
            let k = kept_record(r, keep);
            step_facts(k) + effect_facts(k.effects, k.effects.len() as int) == staying(
                step_facts(r) + effect_facts(r.effects, r.effects.len() as int),
                keep,
            )
        }),
{
    let b = step_facts(r);
    let c = effect_facts(r.effects, r.effects.len() as int);
    lemma_staying_concat(b, c, keep);
    lemma_kept_effect_facts(r.effects, keep, r.effects.len() as int);
    if b.len() > 0 {
        assert(b.contains(b[0]));
        assert(b =~= Seq::<FactView>::empty().push(b[0]));
        lemma_staying_push(Seq::empty(), b[0], keep);
        assert(step_facts(kept_record(r, keep)) =~= staying(b, keep));
    }
}

proof fn lemma_kept_records_facts(rs: Seq<RecordView>, keep: Seq<FactView>, n: int)
    requires
        0 <= n <= rs.len(),
        forall|i: int| 0 <= i < n ==> kept_by_fact(#[trigger] rs[i], keep),
    ensures
        ({
            let ks = kept_records(rs, keep, n);
            record_facts(ks, ks.len() as int) == staying(record_facts(rs, n), keep)
        }),
    decreases n,
{
    if n > 0 {
        lemma_kept_records_facts(rs, keep, n - 1);
        let ks = kept_records(rs, keep, n - 1);
        let r = kept_record(rs[n - 1], keep);
        let a = record_facts(rs, n - 1);
        let b = step_facts(rs[n - 1]) + effect_facts(
            rs[n - 1].effects,
            rs[n - 1].effects.len() as int,
        );
        lemma_kept_record_facts(rs[n - 1], keep);
        lemma_staying_concat(a, b, keep);
        assert(record_facts(rs, n) =~= a + b);
        if r.step is None && r.effects.len() == 0 {
            assert(staying(b, keep).len() == 0);
            assert(staying(a, keep) + staying(b, keep) =~= staying(a, keep));
        } else {
            let more = ks.push(r);
            lemma_record_facts_same(ks, more, ks.len() as int);
            assert(record_facts(more, more.len() as int) =~= record_facts(ks, ks.len() as int) + (
            step_facts(r) + effect_facts(r.effects, r.effects.len() as int)));
        }
    }
}

proof fn lemma_all_kept_by_fact(obs: ObservationView, keep: Seq<FactView>)
    requires
        ids_differ(obs.records),
        facts_of(obs, keep),
    ensures
        forall|i: int| 0 <= i < obs.records.len() ==> kept_by_fact(#[trigger] obs.records[i], keep),
{
    lemma_kept_by_fact(obs, keep);
    let rs = obs.records;
    assert forall|i: int| 0 <= i < rs.len() implies kept_by_fact(#[trigger] rs[i], keep) by {
        assert forall|k: int| 0 <= k < rs[i].effects.len() implies (keeps_effect(
            keep,
            (#[trigger] rs[i].effects[k]).id,
        ) <==> keep.contains(effect_fact(rs[i].effects[k]))) by {
            lemma_effect_at(rs, rs.len() as int, i, k);
            let j = effects_upto(rs, i).len() + k;
            assert(all_effects(rs)[j] == rs[i].effects[k]);
        }
    }
}

/// The effects of the kept records are the kept effects of all records.
proof fn lemma_kept_records_effects(rs: Seq<RecordView>, keep: Seq<FactView>, n: int)
    requires
        0 <= n <= rs.len(),
    ensures
        ({
            let es = effects_upto(rs, n);
            all_effects(kept_records(rs, keep, n)) == kept_effects(es, keep, es.len() as int)
        }),
    decreases n,
{
    if n > 0 {
        lemma_kept_records_effects(rs, keep, n - 1);
        let ks = kept_records(rs, keep, n - 1);
        let r = kept_record(rs[n - 1], keep);
        let a = effects_upto(rs, n - 1);
        let b = rs[n - 1].effects;
        lemma_kept_effects_concat(a, b, keep, b.len() as int);
        assert((a + b).len() == a.len() + b.len());
        if r.step is None && r.effects.len() == 0 {
            assert(all_effects(ks) + r.effects =~= all_effects(ks));
        } else {
            let more = ks.push(r);
            lemma_record_facts_same(ks, more, ks.len() as int);
            assert(effects_upto(more, more.len() as int) == effects_upto(more, ks.len() as int)
                + more[ks.len() as int].effects);
        }
    }
}

proof fn lemma_kept_effects_same(
    xs: Seq<EffectInstanceView>,
    ys: Seq<EffectInstanceView>,
    keep: Seq<FactView>,
    n: int,
)
    requires
        0 <= n <= xs.len(),
        n <= ys.len(),
        forall|i: int| 0 <= i < n ==> #[trigger] xs[i] == ys[i],
    ensures
        kept_effects(xs, keep, n) == kept_effects(ys, keep, n),
    decreases n,
{
    if n > 0 {
        lemma_kept_effects_same(xs, ys, keep, n - 1);
    }
}

proof fn lemma_kept_effects_concat(
    a: Seq<EffectInstanceView>,
    b: Seq<EffectInstanceView>,
    keep: Seq<FactView>,
    n: int,
)
    requires
        0 <= n <= b.len(),
    ensures
        kept_effects(a + b, keep, a.len() + n) == kept_effects(a, keep, a.len() as int)
            + kept_effects(b, keep, n),
    decreases n,
{
    if n == 0 {
        lemma_kept_effects_same(a + b, a, keep, a.len() as int);
        assert(kept_effects(a, keep, a.len() as int) + kept_effects(b, keep, 0) =~= kept_effects(
            a,
            keep,
            a.len() as int,
        ));
    } else {
        lemma_kept_effects_concat(a, b, keep, n - 1);
        assert((a + b)[a.len() + n - 1] == b[n - 1]);
        assert(kept_effects(a + b, keep, a.len() + n) =~= kept_effects(a, keep, a.len() as int)
            + kept_effects(b, keep, n));
    }
}

/// Whether an effect is one of the first `n`, and kept.
spec fn came_from(
    es: Seq<EffectInstanceView>,
    keep: Seq<FactView>,
    n: int,
    x: EffectInstanceView,
) -> bool {
    exists|i: int| 0 <= i < n && #[trigger] es[i] == x && keeps_effect(keep, es[i].id)
}

/// A kept effect is one of the effects; one that is kept is there.
proof fn lemma_kept_effects(es: Seq<EffectInstanceView>, keep: Seq<FactView>, n: int)
    requires
        0 <= n <= es.len(),
    ensures
        forall|k: int|
            0 <= k < kept_effects(es, keep, n).len() ==> came_from(
                es,
                keep,
                n,
                #[trigger] kept_effects(es, keep, n)[k],
            ),
        forall|i: int|
            0 <= i < n && keeps_effect(keep, (#[trigger] es[i]).id) ==> kept_effects(
                es,
                keep,
                n,
            ).contains(es[i]),
    decreases n,
{
    if n > 0 {
        lemma_kept_effects(es, keep, n - 1);
        let p = kept_effects(es, keep, n - 1);
        let q = kept_effects(es, keep, n);
        assert forall|k: int| 0 <= k < q.len() implies came_from(es, keep, n, #[trigger] q[k]) by {
            if k < p.len() {
                assert(q[k] == p[k]);
                assert(came_from(es, keep, n - 1, p[k]));
                let i = choose|i: int|
                    0 <= i < n - 1 && #[trigger] es[i] == p[k] && keeps_effect(keep, es[i].id);
                assert(es[i] == q[k]);
            } else {
                assert(keeps_effect(keep, es[n - 1].id));
                assert(es[n - 1] == q[k]);
            }
        }
        assert forall|i: int| 0 <= i < n && keeps_effect(keep, (#[trigger] es[i]).id) implies
            q.contains(es[i]) by {
            if i < n - 1 {
                assert(p.contains(es[i]));
                assert(q[p.index_of(es[i])] == es[i]);
            } else {
                assert(q[p.len() as int] == es[i]);
            }
        }
    }
}

/// Of the effects that are there, those are left that are kept.
proof fn lemma_left(rs: Seq<RecordView>, keep: Seq<FactView>, id: Str)
    ensures
        effect_named(kept_records(rs, keep, rs.len() as int), id) is Some <==> keeps_effect(
            keep,
            id,
        ) && effect_named(rs, id) is Some,
{
    let es = all_effects(rs);
    let ks = kept_effects(es, keep, es.len() as int);
    lemma_kept_records_effects(rs, keep, rs.len() as int);
    lemma_kept_effects(es, keep, es.len() as int);
    lemma_effect_from(es, id, 0);
    lemma_effect_from(ks, id, 0);
    if effect_from(ks, id, 0) is Some {
        let k = choose|k: int| 0 <= k < ks.len() && #[trigger] ks[k].id == id;
        let i = choose|i: int|
            0 <= i < es.len() && #[trigger] es[i] == ks[k] && keeps_effect(keep, es[i].id);
        assert(es[i].id == id);
    }
    if keeps_effect(keep, id) && effect_from(es, id, 0) is Some {
        let i = choose|i: int| 0 <= i < es.len() && #[trigger] es[i].id == id;
        assert(ks.contains(es[i]));
        let k = ks.index_of(es[i]);
        assert(ks[k].id == id);
    }
}

proof fn lemma_kept_edge_facts(
    edges: Seq<ObservedEdgeView>,
    keep: Seq<FactView>,
    records: Seq<RecordView>,
    n: int,
)
    requires
        0 <= n <= edges.len(),
        forall|id: Str| #[trigger] effect_named(records, id) is Some <==> keeps_effect(keep, id),
    ensures
        ({
            let ks = kept_edges(edges, keep, records, n);
            edge_facts(ks, ks.len() as int) == staying(edge_facts(edges, n), keep)
        }),
    decreases n,
{
    if n > 0 {
        lemma_kept_edge_facts(edges, keep, records, n - 1);
        let ks = kept_edges(edges, keep, records, n - 1);
        let e = edges[n - 1];
        let f = FactView::Edge { relation: e.ty, from: e.from, to: e.to };
        lemma_staying_push(edge_facts(edges, n - 1), f, keep);
        if stays(keep, f) {
            let more = ks.push(e);
            lemma_edge_facts(ks, ks.len() as int);
            lemma_edge_facts(more, more.len() as int);
            assert(edge_facts(more, more.len() as int) =~= edge_facts(ks, ks.len() as int).push(f));
        }
    }
}

proof fn lemma_left_of(obs: ObservationView, keep: Seq<FactView>)
    requires
        ids_differ(obs.records),
        facts_of(obs, keep),
    ensures
        forall|id: Str| #[trigger]
            effect_named(restricted(obs, keep).records, id) is Some <==> keeps_effect(keep, id),
{
    lemma_kept_by_fact(obs, keep);
    let es = all_effects(obs.records);
    assert forall|id: Str| #[trigger]
        effect_named(restricted(obs, keep).records, id) is Some <==> keeps_effect(keep, id) by {
        lemma_left(obs.records, keep, id);
        lemma_effect_from(es, id, 0);
        if keeps_effect(keep, id) {
            let j = choose|j: int| 0 <= j < es.len() && (#[trigger] es[j]).id == id;
            assert(es[j].id == id);
        }
    }
}

/// The facts of a restricted observation are the facts of the observation, in their order,
/// that are kept; an edge goes where an effect at one of its ends goes.
pub proof fn restriction_leaves_the_kept_facts(obs: ObservationView, keep: Seq<FactView>)
    requires
        defect(obs) is None,
        facts_of(obs, keep),
    ensures
        all_facts(restricted(obs, keep)) == staying(all_facts(obs), keep),
        restricted(obs, keep).run_id == obs.run_id,
        restricted(obs, keep).planes == obs.planes,
{
    lemma_valid_ids(obs);
    lemma_all_kept_by_fact(obs, keep);
    lemma_kept_records_facts(obs.records, keep, obs.records.len() as int);
    lemma_left_of(obs, keep);
    let records = kept_records(obs.records, keep, obs.records.len() as int);
    lemma_kept_edge_facts(obs.edges, keep, records, obs.edges.len() as int);
    lemma_staying_concat(
        record_facts(obs.records, obs.records.len() as int),
        edge_facts(obs.edges, obs.edges.len() as int),
        keep,
    );
}

proof fn lemma_all_stay(fs: Seq<FactView>, keep: Seq<FactView>)
    requires
        forall|i: int| 0 <= i < fs.len() ==> stays(keep, #[trigger] fs[i]),
    ensures
        staying(fs, keep) == fs,
    decreases fs.len(),
{
    if fs.len() > 0 {
        lemma_all_stay(fs.drop_last(), keep);
        assert(stays(keep, fs[fs.len() - 1]));
        assert(fs.drop_last().push(fs.last()) =~= fs);
    }
}

proof fn lemma_known_ends(
    es: Seq<EffectInstanceView>,
    edges: Seq<ObservedEdgeView>,
    i: int,
    k: int,
)
    requires
        0 <= i <= k < edges.len(),
        unknown_end_from(es, edges, i) is None,
    ensures
        effect_from(es, edges[k].from, 0) is Some,
        effect_from(es, edges[k].to, 0) is Some,
    decreases edges.len() - i,
{
    if i < k {
        lemma_known_ends(es, edges, i + 1, k);
    }
}

/// Keeping every fact leaves every fact.
pub proof fn keeping_everything_leaves_the_facts(obs: ObservationView, keep: Seq<FactView>)
    requires
        defect(obs) is None,
        facts_of(obs, keep),
        forall|f: FactView| #[trigger] all_facts(obs).contains(f) ==> keep.contains(f),
    ensures
        all_facts(restricted(obs, keep)) == all_facts(obs),
{
    let fs = all_facts(obs);
    let rs = obs.records;
    let es = all_effects(rs);
    let a = record_facts(rs, rs.len() as int);
    restriction_leaves_the_kept_facts(obs, keep);
    lemma_facts_include(rs, rs.len() as int);
    lemma_edge_facts(obs.edges, obs.edges.len() as int);
    assert forall|id: Str| effect_from(es, id, 0) is Some implies #[trigger] keeps_effect(
        keep,
        id,
    ) by {
        lemma_effect_from(es, id, 0);
        let j = choose|j: int| 0 <= j < es.len() && (#[trigger] es[j]).id == id;
        let f = effect_fact(effects_upto(rs, rs.len() as int)[j]);
        assert(a.contains(f));
        assert(fs[a.index_of(f)] == f);
        assert(fs.contains(f));
        assert(keep[keep.index_of(f)] == f);
    }
    assert forall|i: int| 0 <= i < fs.len() implies stays(keep, #[trigger] fs[i]) by {
        assert(fs.contains(fs[i]));
        if i < a.len() {
            assert(a[i] == fs[i]);
            assert(a.contains(fs[i]));
            lemma_record_facts(rs, rs.len() as int, fs[i]);
        } else {
            let k = i - a.len();
            assert(edge_facts(obs.edges, obs.edges.len() as int)[k] == fs[i]);
            lemma_known_ends(es, obs.edges, 0, k);
        }
    }
    lemma_all_stay(fs, keep);
}

proof fn lemma_kept_records_hold(rs: Seq<RecordView>, keep: Seq<FactView>, n: int)
    requires
        n <= rs.len(),
    ensures
        forall|i: int|
            0 <= i < kept_records(rs, keep, n).len() ==> (#[trigger] kept_records(
                rs,
                keep,
                n,
            )[i]).step is Some || kept_records(rs, keep, n)[i].effects.len() > 0,
    decreases n,
{
    if n > 0 {
        lemma_kept_records_hold(rs, keep, n - 1);
    }
}

/// A restriction leaves no record of which nothing is kept.
pub proof fn restriction_leaves_no_empty_record(obs: ObservationView, keep: Seq<FactView>, i: int)
    requires
        0 <= i < restricted(obs, keep).records.len(),
    ensures
        restricted(obs, keep).records[i].step is Some || restricted(
            obs,
            keep,
        ).records[i].effects.len() > 0,
{
    lemma_kept_records_hold(obs.records, keep, obs.records.len() as int);
}

// ---------------------------------------------------------------------------
// Restricting twice
// ---------------------------------------------------------------------------
/// Whether `c` holds exactly what both `a` and `b` hold.
pub open spec fn is_intersection(c: Seq<FactView>, a: Seq<FactView>, b: Seq<FactView>) -> bool {
    forall|f: FactView| #[trigger] c.contains(f) <==> a.contains(f) && b.contains(f)
}

proof fn lemma_effects_twice(
    es: Seq<EffectInstanceView>,
    a: Seq<FactView>,
    b: Seq<FactView>,
    c: Seq<FactView>,
    n: int,
)
    requires
        0 <= n <= es.len(),
        forall|i: int|
            0 <= i < n ==> (keeps_effect(c, (#[trigger] es[i]).id) <==> keeps_effect(a, es[i].id)
                && keeps_effect(b, es[i].id)),
    ensures
        ({
            let ks = kept_effects(es, a, n);
            kept_effects(ks, b, ks.len() as int) == kept_effects(es, c, n)
        }),
    decreases n,
{
    if n > 0 {
        lemma_effects_twice(es, a, b, c, n - 1);
        let ks = kept_effects(es, a, n - 1);
        if keeps_effect(a, es[n - 1].id) {
            let more = ks.push(es[n - 1]);
            lemma_kept_effects_same(ks, more, b, ks.len() as int);
        }
    }
}

proof fn lemma_kept_records_same(
    xs: Seq<RecordView>,
    ys: Seq<RecordView>,
    keep: Seq<FactView>,
    n: int,
)
    requires
        0 <= n <= xs.len(),
        n <= ys.len(),
        forall|i: int| 0 <= i < n ==> #[trigger] xs[i] == ys[i],
    ensures
        kept_records(xs, keep, n) == kept_records(ys, keep, n),
    decreases n,
{
    if n > 0 {
        lemma_kept_records_same(xs, ys, keep, n - 1);
    }
}

/// Whether `c` keeps of a record exactly what `a` and `b` both keep.
spec fn keeps_alike(r: RecordView, a: Seq<FactView>, b: Seq<FactView>, c: Seq<FactView>) -> bool {
    &&& r.step is Some ==> (keeps_step(c, r.id) <==> keeps_step(a, r.id) && keeps_step(b, r.id))
    &&& forall|k: int|
        0 <= k < r.effects.len() ==> (keeps_effect(c, (#[trigger] r.effects[k]).id)
            <==> keeps_effect(a, r.effects[k].id) && keeps_effect(b, r.effects[k].id))
}

proof fn lemma_records_twice(
    rs: Seq<RecordView>,
    a: Seq<FactView>,
    b: Seq<FactView>,
    c: Seq<FactView>,
    n: int,
)
    requires
        0 <= n <= rs.len(),
        forall|i: int| 0 <= i < n ==> keeps_alike(#[trigger] rs[i], a, b, c),
    ensures
        ({
            let ks = kept_records(rs, a, n);
            kept_records(ks, b, ks.len() as int) == kept_records(rs, c, n)
        }),
    decreases n,
{
    if n > 0 {
        lemma_records_twice(rs, a, b, c, n - 1);
        let ks = kept_records(rs, a, n - 1);
        let r = rs[n - 1];
        let x = kept_record(r, a);
        lemma_effects_twice(r.effects, a, b, c, r.effects.len() as int);
        assert(kept_record(x, b) == kept_record(r, c));
        if x.step is None && x.effects.len() == 0 {
            assert(kept_record(x, b).effects.len() == 0);
        } else {
            let more = ks.push(x);
            lemma_kept_records_same(ks, more, b, ks.len() as int);
        }
    }
}

proof fn lemma_kept_edges_same(
    xs: Seq<ObservedEdgeView>,
    ys: Seq<ObservedEdgeView>,
    keep: Seq<FactView>,
    records: Seq<RecordView>,
    n: int,
)
    requires
        0 <= n <= xs.len(),
        n <= ys.len(),
        forall|i: int| 0 <= i < n ==> #[trigger] xs[i] == ys[i],
    ensures
        kept_edges(xs, keep, records, n) == kept_edges(ys, keep, records, n),
    decreases n,
{
    if n > 0 {
        lemma_kept_edges_same(xs, ys, keep, records, n - 1);
    }
}

proof fn lemma_edges_twice(
    edges: Seq<ObservedEdgeView>,
    a: Seq<FactView>,
    b: Seq<FactView>,
    c: Seq<FactView>,
    first: Seq<RecordView>,
    second: Seq<RecordView>,
    n: int,
)
    requires
        0 <= n <= edges.len(),
        is_intersection(c, a, b),
        forall|id: Str| #[trigger]
            effect_named(second, id) is Some ==> effect_named(first, id) is Some,
    ensures
        ({
            let ks = kept_edges(edges, a, first, n);
            kept_edges(ks, b, second, ks.len() as int) == kept_edges(edges, c, second, n)
        }),
    decreases n,
{
    if n > 0 {
        lemma_edges_twice(edges, a, b, c, first, second, n - 1);
        let ks = kept_edges(edges, a, first, n - 1);
        let e = edges[n - 1];
        let more = ks.push(e);
        lemma_kept_edges_same(ks, more, b, second, ks.len() as int);
    }
}

/// Restricting twice is restricting once, to what is kept both times.
pub proof fn restricting_twice_keeps_the_intersection(
    obs: ObservationView,
    a: Seq<FactView>,
    b: Seq<FactView>,
    c: Seq<FactView>,
)
    requires
        defect(obs) is None,
        facts_of(obs, a),
        facts_of(obs, b),
        is_intersection(c, a, b),
    ensures
        restricted(restricted(obs, a), b) == restricted(obs, c),
{
    let rs = obs.records;
    let n = rs.len() as int;
    lemma_valid_ids(obs);
    assert(facts_of(obs, c));
    lemma_all_kept_by_fact(obs, a);
    lemma_all_kept_by_fact(obs, b);
    lemma_all_kept_by_fact(obs, c);
    assert forall|i: int| 0 <= i < n implies keeps_alike(#[trigger] rs[i], a, b, c) by {
        assert(kept_by_fact(rs[i], a) && kept_by_fact(rs[i], b) && kept_by_fact(rs[i], c));
        if rs[i].step is Some {
            let f = step_facts(rs[i])[0];
            assert(step_facts(rs[i]).contains(f));
        }
    }
    lemma_records_twice(rs, a, b, c, n);
    let first = kept_records(rs, a, n);
    let second = kept_records(rs, c, n);
    lemma_left_of(obs, a);
    lemma_left_of(obs, c);
    assert forall|id: Str| #[trigger] effect_named(second, id) is Some implies effect_named(
        first,
        id,
    ) is Some by {
        assert(effect_named(restricted(obs, c).records, id) is Some);
        assert(keeps_effect(c, id));
        let k = choose|k: int|
            0 <= k < c.len() && (#[trigger] c[k] matches FactView::Effect { id: x, .. } && x
                == id);
        assert(c.contains(c[k]));
        assert(a.contains(c[k]));
        assert(a[a.index_of(c[k])] == c[k]);
        assert(keeps_effect(a, id));
        assert(effect_named(restricted(obs, a).records, id) is Some);
    }
    lemma_edges_twice(obs.edges, a, b, c, first, second, obs.edges.len() as int);
}

/// Restricting again to the same facts changes nothing.
pub proof fn restricting_again_changes_nothing(obs: ObservationView, keep: Seq<FactView>)
    requires
        defect(obs) is None,
        facts_of(obs, keep),
    ensures
        restricted(restricted(obs, keep), keep) == restricted(obs, keep),
{
    restricting_twice_keeps_the_intersection(obs, keep, keep, keep);
}

// ---------------------------------------------------------------------------
// Validity
// ---------------------------------------------------------------------------
/// Where the kept ones of the first `n` records stood.
spec fn kept_positions(rs: Seq<RecordView>, keep: Seq<FactView>, n: int) -> Seq<int>
    decreases n,
{
    if n <= 0 {
        Seq::empty()
    } else {
        let r = kept_record(rs[n - 1], keep);
        if r.step is None && r.effects.len() == 0 {
            kept_positions(rs, keep, n - 1)
        } else {
            kept_positions(rs, keep, n - 1).push(n - 1)
        }
    }
}

proof fn lemma_kept_positions(rs: Seq<RecordView>, keep: Seq<FactView>, n: int)
    requires
        0 <= n <= rs.len(),
    ensures
        kept_positions(rs, keep, n).len() == kept_records(rs, keep, n).len(),
        kept_positions(rs, keep, n).len() <= n,
        forall|i: int|
            0 <= i < kept_positions(rs, keep, n).len() ==> {
                &&& 0 <= #[trigger] kept_positions(rs, keep, n)[i] < n
                &&& kept_records(rs, keep, n)[i] == kept_record(
                    rs[kept_positions(rs, keep, n)[i]],
                    keep,
                )
            },
        forall|i: int, j: int|
            0 <= i < j < kept_positions(rs, keep, n).len() ==> #[trigger] kept_positions(
                rs,
                keep,
                n,
            )[i] < #[trigger] kept_positions(rs, keep, n)[j],
    decreases n,
{
    if n > 0 {
        lemma_kept_positions(rs, keep, n - 1);
    }
}

proof fn lemma_kept_differ(es: Seq<EffectInstanceView>, keep: Seq<FactView>, n: int)
    requires
        0 <= n <= es.len(),
        forall|i: int, j: int| 0 <= i < j < es.len() ==> (#[trigger] es[i]).id != (#[trigger]
        es[j]).id,
    ensures
        forall|i: int, j: int|
            0 <= i < j < kept_effects(es, keep, n).len() ==> (#[trigger] kept_effects(
                es,
                keep,
                n,
            )[i]).id != (#[trigger] kept_effects(es, keep, n)[j]).id,
    decreases n,
{
    if n > 0 {
        lemma_kept_differ(es, keep, n - 1);
        lemma_kept_effects(es, keep, n - 1);
        let p = kept_effects(es, keep, n - 1);
        let q = kept_effects(es, keep, n);
        assert forall|i: int, j: int| 0 <= i < j < q.len() implies (#[trigger] q[i]).id != (
        #[trigger] q[j]).id by {
            assert(q[i] == p[i]);
            if j < p.len() {
                assert(q[j] == p[j]);
            } else {
                let k = choose|k: int|
                    0 <= k < n - 1 && #[trigger] es[k] == p[i] && keeps_effect(keep, es[k].id);
                assert(es[k].id != es[n - 1].id);
            }
        }
    }
}

proof fn lemma_kept_edges(
    edges: Seq<ObservedEdgeView>,
    keep: Seq<FactView>,
    records: Seq<RecordView>,
    n: int,
)
    requires
        0 <= n <= edges.len(),
    ensures
        forall|k: int|
            0 <= k < kept_edges(edges, keep, records, n).len() ==> {
                &&& effect_named(
                    records,
                    (#[trigger] kept_edges(edges, keep, records, n)[k]).from,
                ) is Some
                &&& effect_named(records, kept_edges(edges, keep, records, n)[k].to) is Some
                &&& edges.contains(kept_edges(edges, keep, records, n)[k])
            },
    decreases n,
{
    if n > 0 {
        lemma_kept_edges(edges, keep, records, n - 1);
        assert(edges.contains(edges[n - 1]));
    }
}

proof fn lemma_no_unknown_end(
    es: Seq<EffectInstanceView>,
    edges: Seq<ObservedEdgeView>,
    i: int,
)
    requires
        forall|k: int|
            0 <= k < edges.len() ==> effect_from(es, (#[trigger] edges[k]).from, 0) is Some
                && effect_from(es, edges[k].to, 0) is Some,
    ensures
        unknown_end_from(es, edges, i) is None,
    decreases edges.len() - i,
{
    if 0 <= i < edges.len() {
        lemma_no_unknown_end(es, edges, i + 1);
    }
}

proof fn lemma_holder(rs: Seq<RecordView>, id: Str, i: int)
    requires
        0 <= i,
    ensures
        holder_from(rs, id, i) matches Some(h) ==> i <= h < rs.len() && effect_from(
            rs[h].effects,
            id,
            0,
        ) is Some,
        holder_from(rs, id, i) is None ==> forall|h: int|
            i <= h < rs.len() ==> effect_from((#[trigger] rs[h]).effects, id, 0) is None,
    decreases rs.len() - i,
{
    if i < rs.len() && effect_from(rs[i].effects, id, 0) is None {
        lemma_holder(rs, id, i + 1);
    }
}

proof fn lemma_effects_grow(rs: Seq<RecordView>, m: int, n: int)
    requires
        0 <= m <= n <= rs.len(),
    ensures
        effects_upto(rs, m).len() <= effects_upto(rs, n).len(),
    decreases n,
{
    if m < n {
        lemma_effects_grow(rs, m, n - 1);
    }
}

/// No two records carry an effect with the same id.
proof fn lemma_one_holder(rs: Seq<RecordView>, id: Str, x: int, y: int)
    requires
        ids_differ(rs),
        0 <= x < y < rs.len(),
        effect_from(rs[x].effects, id, 0) is Some,
    ensures
        effect_from(rs[y].effects, id, 0) is None,
{
    let n = rs.len() as int;
    lemma_effect_from(rs[x].effects, id, 0);
    lemma_effect_from(rs[y].effects, id, 0);
    if effect_from(rs[y].effects, id, 0) is Some {
        let i = choose|i: int|
            0 <= i < rs[x].effects.len() && #[trigger] rs[x].effects[i] == effect_from(
                rs[x].effects,
                id,
                0,
            )->0;
        let j = choose|j: int|
            0 <= j < rs[y].effects.len() && #[trigger] rs[y].effects[j] == effect_from(
                rs[y].effects,
                id,
                0,
            )->0;
        lemma_effect_at(rs, n, x, i);
        lemma_effect_at(rs, n, y, j);
        lemma_effects_grow(rs, x + 1, y);
        let a = effects_upto(rs, x).len() + i;
        let b = effects_upto(rs, y).len() + j;
        assert(a < b);
        assert(all_effects(rs)[a].id == all_effects(rs)[b].id);
    }
}

proof fn lemma_kept_holder(rs: Seq<RecordView>, keep: Seq<FactView>, id: Str)
    requires
        ids_differ(rs),
    ensures
        holder_from(kept_records(rs, keep, rs.len() as int), id, 0) matches Some(h)
            ==> holder_from(rs, id, 0) == Some(kept_positions(rs, keep, rs.len() as int)[h]),
{
    let n = rs.len() as int;
    let ks = kept_records(rs, keep, n);
    let ps = kept_positions(rs, keep, n);
    lemma_kept_positions(rs, keep, n);
    lemma_holder(ks, id, 0);
    lemma_holder(rs, id, 0);
    if let Some(h) = holder_from(ks, id, 0) {
        let p = ps[h];
        let es = rs[p].effects;
        let fs = ks[h].effects;
        assert(ks[h] == kept_record(rs[p], keep));
        lemma_kept_effects(es, keep, es.len() as int);
        lemma_effect_from(fs, id, 0);
        lemma_effect_from(es, id, 0);
        let k = choose|k: int| 0 <= k < fs.len() && #[trigger] fs[k] == effect_from(fs, id, 0)->0;
        assert(kept_effects(es, keep, es.len() as int)[k] == fs[k]);
        let i = choose|i: int| 0 <= i < es.len() && #[trigger] es[i] == fs[k];
        assert(es[i].id == id);
        assert(effect_from(es, id, 0) is Some);
        let q = holder_from(rs, id, 0)->0;
        if q < p {
            lemma_one_holder(rs, id, q, p);
        } else if p < q {
            lemma_one_holder(rs, id, p, q);
        }
    }
}

/// Of the records before record `i` in its plane, the last among the first `n`.
proof fn lemma_last_before(rs: Seq<RecordView>, i: int, x: int, n: int) -> (j: int)
    requires
        0 <= i < rs.len(),
        0 <= x < n <= rs.len(),
        rs[x].plane == rs[i].plane,
        earlier(rs, x, i),
    ensures
        0 <= j < n,
        rs[j].plane == rs[i].plane,
        earlier(rs, j, i),
        forall|k: int|
            0 <= k < n && #[trigger] rs[k].plane == rs[i].plane && earlier(rs, k, i) ==> k == j
                || earlier(rs, k, j),
    decreases n,
{
    if x == n - 1 {
        if exists|y: int|
            0 <= y < n - 1 && #[trigger] rs[y].plane == rs[i].plane && earlier(rs, y, i) {
            let y = choose|y: int|
                0 <= y < n - 1 && #[trigger] rs[y].plane == rs[i].plane && earlier(rs, y, i);
            let j = lemma_last_before(rs, i, y, n - 1);
            lemma_earlier_total(rs, j, x);
            if earlier(rs, j, x) {
                assert forall|k: int|
                    0 <= k < n && #[trigger] rs[k].plane == rs[i].plane && earlier(
                        rs,
                        k,
                        i,
                    ) implies k == x || earlier(rs, k, x) by {
                    if k < n - 1 && k != j {
                        lemma_earlier_transitive(rs, k, j, x);
                    }
                }
                x
            } else {
                j
            }
        } else {
            x
        }
    } else {
        let j = lemma_last_before(rs, i, x, n - 1);
        let y = n - 1;
        if rs[y].plane == rs[i].plane && earlier(rs, y, i) {
            lemma_earlier_total(rs, j, y);
            if earlier(rs, j, y) {
                assert forall|k: int|
                    0 <= k < n && #[trigger] rs[k].plane == rs[i].plane && earlier(
                        rs,
                        k,
                        i,
                    ) implies k == y || earlier(rs, k, y) by {
                    if k < n - 1 && k != j {
                        lemma_earlier_transitive(rs, k, j, y);
                    }
                }
                y
            } else {
                j
            }
        } else {
            j
        }
    }
}

proof fn lemma_placed_pred(obs: ObservationView, k: nat, i: int, j: int)
    requires
        obs.records.len() <= usize::MAX,
        0 <= i < obs.records.len(),
        0 <= j < obs.records.len(),
        must_precede(obs, j, i),
        placed(predecessors(obs), k, i),
    ensures
        k > 0,
        placed(predecessors(obs), (k - 1) as nat, j),
{
    let n = obs.records.len() as int;
    lemma_preds_upto(obs, i, n);
    let preds = predecessors(obs);
    assert(preds[i] == preds_upto(obs, i, n));
    assert(preds_upto(obs, i, n).contains(j as usize));
    let x = preds[i].index_of(j as usize);
    assert(preds[i][x] as int == j);
}

/// What comes before a record in its plane is placed in an earlier round.
proof fn lemma_placed_before(obs: ObservationView, k: nat, i: int, x: int)
    requires
        obs.records.len() <= usize::MAX,
        0 <= i < obs.records.len(),
        0 <= x < obs.records.len(),
        obs.records[x].plane == obs.records[i].plane,
        earlier(obs.records, x, i),
        placed(predecessors(obs), k, i),
    ensures
        k > 0,
        placed(predecessors(obs), (k - 1) as nat, x),
    decreases k,
{
    let rs = obs.records;
    let j = lemma_last_before(rs, i, x, rs.len() as int);
    assert(just_before(rs, j, i));
    lemma_placed_pred(obs, k, i, j);
    assert(x == j || earlier(rs, x, j)) by {
        assert(rs[x].plane == rs[i].plane);
    }
    if x != j {
        lemma_placed_before(obs, (k - 1) as nat, j, x);
        lemma_placed_monotone(predecessors(obs), (k - 2) as nat, (k - 1) as nat, x);
    }
}

proof fn lemma_kept_placed(obs: ObservationView, keep: Seq<FactView>, k: nat, i: int)
    requires
        ids_differ(obs.records),
        obs.records.len() <= usize::MAX,
        0 <= i < restricted(obs, keep).records.len(),
        placed(
            predecessors(obs),
            k,
            kept_positions(obs.records, keep, obs.records.len() as int)[i],
        ),
    ensures
        placed(predecessors(restricted(obs, keep)), k, i),
    decreases k,
{
    let rs = obs.records;
    let n = rs.len() as int;
    let o = restricted(obs, keep);
    let ks = o.records;
    let m = ks.len() as int;
    let ps = kept_positions(rs, keep, n);
    let preds = predecessors(o);
    lemma_kept_positions(rs, keep, n);
    lemma_kept_edges(obs.edges, keep, ks, obs.edges.len() as int);
    lemma_preds_upto(o, i, m);
    assert(preds[i] == preds_upto(o, i, m));
    assert forall|x: int| 0 <= x < preds[i].len() implies placed(
        preds,
        (k - 1) as nat,
        (#[trigger] preds[i][x]) as int,
    ) by {
        let j = preds[i][x] as int;
        assert(preds_upto(o, i, m)[x] == preds[i][x]);
        assert(must_precede(o, j, i));
        assert(ks[i] == kept_record(rs[ps[i]], keep) && ks[j] == kept_record(rs[ps[j]], keep));
        if just_before(ks, j, i) {
            assert(earlier(ks, j, i));
            assert(earlier(rs, ps[j], ps[i]));
            lemma_placed_before(obs, k, ps[i], ps[j]);
        } else {
            let e = choose|e: int|
                0 <= e < o.edges.len() && holder_from(ks, (#[trigger] o.edges[e]).from, 0) == Some(
                    i,
                ) && holder_from(ks, o.edges[e].to, 0) == Some(j);
            let edge = o.edges[e];
            lemma_kept_holder(rs, keep, edge.from);
            lemma_kept_holder(rs, keep, edge.to);
            assert(obs.edges.contains(edge));
            let d = obs.edges.index_of(edge);
            assert(holder_from(rs, obs.edges[d].from, 0) == Some(ps[i]));
            assert(ps[i] != ps[j]);
            assert(depends_on(obs, ps[i], ps[j]));
            lemma_placed_pred(obs, k, ps[i], ps[j]);
        }
        lemma_kept_placed(obs, keep, (k - 1) as nat, j);
    }
}

/// The records that `k` rounds place.
spec fn placed_in(preds: Seq<Seq<usize>>, k: nat) -> Set<int> {
    vstd::set_lib::set_int_range(0, preds.len() as int).filter(|i: int| placed(preds, k, i))
}

spec fn settled(preds: Seq<Seq<usize>>, k: nat) -> bool {
    forall|a: int|
        0 <= a < preds.len() ==> #[trigger] placed(preds, k + 1, a) == placed(preds, k, a)
}

/// Each round places another record, until one places none.
proof fn lemma_rounds(preds: Seq<Seq<usize>>, k: nat)
    requires
        forall|a: int, x: int|
            0 <= a < preds.len() && 0 <= x < preds[a].len() ==> (#[trigger] preds[a][x])
                < preds.len(),
    ensures
        placed_in(preds, k).finite(),
        placed_in(preds, k).len() >= k || settled(preds, k),
    decreases k,
{
    let n = preds.len() as int;
    vstd::set_lib::lemma_int_range(0, n);
    vstd::set_lib::set_int_range(0, n).lemma_len_filter(|i: int| placed(preds, k, i));
    if k > 0 {
        let j = (k - 1) as nat;
        lemma_rounds(preds, j);
        if settled(preds, j) {
            assert forall|a: int| 0 <= a < preds.len() implies #[trigger] placed(preds, k + 1, a)
                == placed(preds, k, a) by {
                lemma_placed_stable(preds, j, k + 1, a);
                lemma_placed_stable(preds, j, k, a);
            }
        } else {
            let a = choose|a: int|
                0 <= a < preds.len() && #[trigger] placed(preds, j + 1, a) != placed(preds, j, a);
            let p = placed_in(preds, j);
            let q = placed_in(preds, k);
            assert forall|b: int| p.contains(b) implies #[trigger] q.contains(b) by {
                lemma_placed_monotone(preds, j, k, b);
            }
            if placed(preds, j, a) {
                lemma_placed_monotone(preds, j, k, a);
            }
            assert(j + 1 == k);
            assert(q.contains(a) && !p.contains(a));
            assert(p.insert(a).subset_of(q));
            vstd::set_lib::lemma_len_subset(p.insert(a), q);
        }
    }
}

/// As many rounds as there are records place all that any number of rounds places.
proof fn lemma_enough_rounds(preds: Seq<Seq<usize>>, k: nat, i: int)
    requires
        0 <= i < preds.len(),
        forall|a: int, x: int|
            0 <= a < preds.len() && 0 <= x < preds[a].len() ==> (#[trigger] preds[a][x])
                < preds.len(),
        placed(preds, k, i),
    ensures
        placed(preds, preds.len(), i),
{
    let n = preds.len();
    if k <= n {
        lemma_placed_monotone(preds, k, n, i);
    } else {
        lemma_rounds(preds, n);
        if settled(preds, n) {
            lemma_placed_stable(preds, n, k, i);
        } else {
            let all = vstd::set_lib::set_int_range(0, n as int);
            vstd::set_lib::lemma_int_range(0, n as int);
            vstd::set_lib::lemma_len_subset(placed_in(preds, n), all);
            vstd::set_lib::lemma_subset_equality(placed_in(preds, n), all);
            assert(placed_in(preds, n).contains(i));
        }
    }
}

proof fn lemma_not_stuck(preds: Seq<Seq<usize>>, i: int, a: int)
    requires
        0 <= i <= a < preds.len(),
        stuck_from(preds, i) is None,
    ensures
        placed(preds, preds.len(), a),
    decreases preds.len() - i,
{
    if i < a {
        lemma_not_stuck(preds, i + 1, a);
    }
}

proof fn lemma_none_stuck(preds: Seq<Seq<usize>>, i: int)
    requires
        forall|a: int| 0 <= a < preds.len() ==> #[trigger] placed(preds, preds.len(), a),
    ensures
        stuck_from(preds, i) is None,
    decreases preds.len() - i,
{
    if 0 <= i < preds.len() {
        lemma_none_stuck(preds, i + 1);
    }
}

/// What is left of a valid observation is valid.
pub proof fn restriction_keeps_validity(obs: ObservationView, keep: Seq<FactView>)
    requires
        defect(obs) is None,
        obs.records.len() <= usize::MAX,
    ensures
        defect(restricted(obs, keep)) is None,
{
    let rs = obs.records;
    let n = rs.len() as int;
    let o = restricted(obs, keep);
    let ks = o.records;
    let es = all_effects(rs);
    let fs = all_effects(ks);
    let ps = kept_positions(rs, keep, n);
    lemma_valid_ids(obs);
    lemma_kept_positions(rs, keep, n);
    let ids = record_ids(ks);
    assert forall|a: int, b: int| 0 <= a < b < ids.len() implies #[trigger] ids[a] != #[trigger]
        ids[b] by {
        assert(ps[a] < ps[b]);
        assert(rs[ps[a]].id != rs[ps[b]].id);
    }
    lemma_unrepeated(ids, 0);
    lemma_kept_records_effects(rs, keep, n);
    lemma_kept_differ(es, keep, es.len() as int);
    assert forall|a: int, b: int| 0 <= a < b < effect_ids(fs).len() implies #[trigger] effect_ids(
        fs,
    )[a] != #[trigger] effect_ids(fs)[b] by {
        assert(fs[a].id != fs[b].id);
    }
    lemma_unrepeated(effect_ids(fs), 0);
    lemma_kept_edges(obs.edges, keep, ks, obs.edges.len() as int);
    lemma_no_unknown_end(fs, o.edges, 0);
    let preds = predecessors(o);
    assert forall|a: int, x: int| 0 <= a < preds.len() && 0 <= x < preds[a].len() implies (
    #[trigger] preds[a][x]) < preds.len() by {
        lemma_preds_upto(o, a, ks.len() as int);
        assert(preds[a] == preds_upto(o, a, ks.len() as int));
        assert(preds_upto(o, a, ks.len() as int)[x] == preds[a][x]);
    }
    assert forall|a: int| 0 <= a < preds.len() implies #[trigger] placed(preds, preds.len(), a) by {
        assert(0 <= ps[a] < n);
        lemma_not_stuck(predecessors(obs), 0, ps[a]);
        lemma_kept_placed(obs, keep, rs.len(), a);
        lemma_enough_rounds(preds, rs.len(), a);
    }
    lemma_none_stuck(preds, 0);
}

} // verus!
