//! Minimal unsatisfiable sets: which observed facts alone already rule a run out.

use crate::net::{net_ok, Net, NetView};
use crate::observation::{
    all_facts, drop_fact, fact_before, facts_ascending, keeps_effect, kept_records,
    lemma_drop_fact, lemma_drop_fact_len, lemma_fact_total, lemma_put_fact_ascending,
    lemma_put_facts_contains, put_fact, put_facts, restricted, Fact, FactSet, FactView,
    Observation, ObservationView, Plane, PlaneView, Record, RecordView,
};
use crate::ordered::{
    append_to, empty_vec, increasing, lemma_put_skips, push_to, put, Dup, StrMap,
};
use crate::text::{same_text, Str};
use crate::verify::{can_search, fits, verified, verify, Verdict, VerifyOptions, MAX_STATES};
use vstd::prelude::*;

verus! {

/// A core of facts that alone rule the run out, how often the verifier was asked, whether no
/// fact can be spared, and whether the run is reachable once no plane counts as complete.
#[derive(Debug)]
pub struct MusResult {
    pub facts: Vec<Fact>,
    pub oracle_calls: usize,
    pub minimal: bool,
    pub relaxation_accepts: bool,
}

/// What a [`MusResult`] holds.
pub struct MusResultView {
    pub facts: Seq<FactView>,
    pub oracle_calls: usize,
    pub minimal: bool,
    pub relaxation_accepts: bool,
}

impl DeepView for MusResult {
    type V = MusResultView;

    open spec fn deep_view(&self) -> MusResultView {
        MusResultView {
            facts: self.facts.deep_view(),
            oracle_calls: self.oracle_calls,
            minimal: self.minimal,
            relaxation_accepts: self.relaxation_accepts,
        }
    }
}

/// How far to search for each set of facts.
#[derive(Debug, Clone, Copy)]
pub struct MusOptions {
    pub slack: usize,
    pub max_states: usize,
}

impl MusOptions {
    /// Slack enough for every record, and four steps more.
    pub fn for_observation(obs: &Observation) -> (r: Self)
        requires
            obs.records.len() + 4 <= usize::MAX,
        ensures
            r.slack == obs.records.len() + 4,
            r.max_states == MAX_STATES,
    {
        MusOptions { slack: obs.records.len() + 4, max_states: MAX_STATES }
    }
}

// ---------------------------------------------------------------------------
// The oracle
// ---------------------------------------------------------------------------
/// Planes of which none counts as complete.
pub open spec fn open_planes(planes: Seq<(Str, PlaneView)>) -> Seq<(Str, PlaneView)> {
    Seq::new(
        planes.len(),
        |i: int| (planes[i].0, PlaneView { complete: false, ..planes[i].1 }),
    )
}

/// Whether every effect of a record is in `keep`.
pub open spec fn is_whole(r: RecordView, keep: Seq<FactView>) -> bool {
    forall|i: int| 0 <= i < r.effects.len() ==> keeps_effect(keep, (#[trigger] r.effects[i]).id)
}

/// Whether a fact in `keep` says something by itself. That a step was taken says nothing
/// without the effects that it had.
pub open spec fn stands(obs: ObservationView, keep: Seq<FactView>, f: FactView) -> bool {
    match f {
        FactView::Step { record, step, principal } => forall|i: int|
            0 <= i < obs.records.len() && (#[trigger] obs.records[i]).id == record ==> is_whole(
                obs.records[i],
                keep,
            ),
        _ => true,
    }
}

/// Those of the first `n` facts in `keep` that say something by themselves.
pub open spec fn standing_upto(obs: ObservationView, keep: Seq<FactView>, n: int) -> Seq<FactView>
    decreases n,
{
    if n <= 0 {
        Seq::empty()
    } else if stands(obs, keep, keep[n - 1]) {
        put_fact(standing_upto(obs, keep, n - 1), keep[n - 1])
    } else {
        standing_upto(obs, keep, n - 1)
    }
}

/// Those of the facts in `keep` that say something by themselves.
pub open spec fn standing(obs: ObservationView, keep: Seq<FactView>) -> Seq<FactView> {
    standing_upto(obs, keep, keep.len() as int)
}

/// What is left of an observation when only the facts in `keep` remain and no plane counts as
/// complete.
pub open spec fn relaxed(obs: ObservationView, keep: Seq<FactView>) -> ObservationView {
    let r = restricted(obs, standing(obs, keep));
    ObservationView { planes: open_planes(r.planes), ..r }
}

/// How far to search for the facts in `keep`.
pub open spec fn oracle_options(
    obs: ObservationView,
    opts: MusOptions,
    keep: Seq<FactView>,
) -> VerifyOptions {
    VerifyOptions {
        bound: (relaxed(obs, keep).records.len() + opts.slack) as usize,
        slack: opts.slack,
        max_states: opts.max_states,
    }
}

/// Whether some run explains the facts in `keep`.
#[verifier::opaque]
pub open spec fn explainable(
    net: NetView,
    obs: ObservationView,
    opts: MusOptions,
    keep: Seq<FactView>,
) -> bool {
    verified(net, relaxed(obs, keep), oracle_options(obs, opts, keep)).verdict == Verdict::Accept
}

/// Whether the counters of the search for any set of facts cannot overflow.
pub open spec fn mus_fits(net: NetView, obs: ObservationView, opts: MusOptions) -> bool {
    &&& fits(net, VerifyOptions { bound: 0, slack: opts.slack, max_states: opts.max_states })
    &&& obs.records.len() + opts.slack <= usize::MAX
    &&& (all_facts(obs).len() + 2) * (all_facts(obs).len() + 2) <= usize::MAX
}

/// Whether the search for a core of this observation can be counted.
pub fn can_extract(net: &Net, obs: &Observation, options: &MusOptions) -> (r: bool)
    ensures
        r == mus_fits(net.deep_view(), obs.deep_view(), *options),
{
    let ghost n = all_facts(obs.deep_view()).len();
    let facts = obs.facts();
    assert(facts.len() == n);
    assert(obs.records.len() == obs.deep_view().records.len());
    let base = VerifyOptions {
        bound: 0,
        slack: options.slack,
        max_states: options.max_states,
    };
    let square = match facts.len().checked_add(2) {
        Some(m) => m.checked_mul(m).is_some(),
        None => {
            assert((n + 2) * (n + 2) > usize::MAX) by (nonlinear_arith)
                requires
                    n + 2 > usize::MAX,
                    usize::MAX >= 1,
            ;
            false
        },
    };
    can_search(net, &base) && obs.records.len().checked_add(options.slack).is_some() && square
}

proof fn lemma_kept_records_len(rs: Seq<RecordView>, keep: Seq<FactView>, n: int)
    requires
        0 <= n,
    ensures
        kept_records(rs, keep, n).len() <= n,
    decreases n,
{
    if n > 0 {
        lemma_kept_records_len(rs, keep, n - 1);
    }
}

fn open_all(planes: &StrMap<Plane>) -> (r: StrMap<Plane>)
    ensures
        r.deep_view() == open_planes(planes.deep_view()),
{
    let ghost pv = planes.deep_view();
    let ghost all = open_planes(pv);
    planes.ordered();
    let mut out: StrMap<Plane> = StrMap::new();
    let mut i: usize = 0;
    assert(all.take(0) =~= Seq::empty());
    while i < planes.len()
        invariant
            i <= pv.len(),
            pv == planes.deep_view(),
            increasing(pv),
            all == open_planes(pv),
            out.deep_view() == all.take(i as int),
        decreases pv.len() - i,
    {
        let plane = planes.value_at(i);
        let open = Plane { complete: false, carries: plane.carries.dup() };
        let ghost so_far = out.deep_view();
        let ghost k = pv[i as int].0;
        let ghost v = open.deep_view();
        out.insert(planes.key_at(i).clone(), open);
        proof {
            lemma_put_skips(so_far, k, v, i as int);
            assert(so_far.take(i as int) =~= so_far);
            assert(so_far.skip(i as int) =~= Seq::<(Str, PlaneView)>::empty());
            assert(put(Seq::<(Str, PlaneView)>::empty(), k, v) =~= seq![(k, v)]);
            assert(out.deep_view() =~= all.take(i + 1));
        }
        i = i + 1;
    }
    assert(all.take(i as int) =~= all);
    out
}

fn keeps_whole(r: &Record, keep: &FactSet) -> (b: bool)
    ensures
        b == is_whole(r.deep_view(), keep.deep_view()),
{
    let ghost es = r.deep_view().effects;
    let mut i: usize = 0;
    while i < r.effects.len()
        invariant
            i <= r.effects.len(),
            es == r.deep_view().effects,
            forall|j: int| 0 <= j < i ==> keeps_effect(keep.deep_view(), (#[trigger] es[j]).id),
        decreases r.effects.len() - i,
    {
        assert(es[i as int] == r.effects[i as int].deep_view());
        if !keep.has_effect(r.effects[i].id.as_str()) {
            return false;
        }
        i = i + 1;
    }
    true
}

fn says_something(obs: &Observation, keep: &FactSet, f: &Fact) -> (b: bool)
    ensures
        b == stands(obs.deep_view(), keep.deep_view(), f.deep_view()),
{
    let ghost rs = obs.deep_view().records;
    match f {
        Fact::Step { record, step, principal } => {
            let mut i: usize = 0;
            while i < obs.records.len()
                invariant
                    i <= obs.records.len(),
                    rs == obs.deep_view().records,
                    f.deep_view() matches FactView::Step { record: of, .. } && of == record@,
                    forall|j: int|
                        0 <= j < i && (#[trigger] rs[j]).id == record@ ==> is_whole(
                            rs[j],
                            keep.deep_view(),
                        ),
                decreases obs.records.len() - i,
            {
                assert(rs[i as int] == obs.records[i as int].deep_view());
                if same_text(obs.records[i].id.as_str(), record.as_str()) && !keeps_whole(
                    &obs.records[i],
                    keep,
                ) {
                    return false;
                }
                i = i + 1;
            }
            true
        },
        _ => true,
    }
}

fn keep_standing(obs: &Observation, keep: &FactSet) -> (r: FactSet)
    ensures
        r.deep_view() == standing(obs.deep_view(), keep.deep_view()),
{
    let ghost ov = obs.deep_view();
    let ghost kv = keep.deep_view();
    let mut out = FactSet::new();
    let mut i: usize = 0;
    while i < keep.len()
        invariant
            i <= kv.len(),
            ov == obs.deep_view(),
            kv == keep.deep_view(),
            out.deep_view() == standing_upto(ov, kv, i as int),
        decreases kv.len() - i,
    {
        let f = keep.item_at(i);
        if says_something(obs, keep, f) {
            out.insert(f.dup());
        }
        i = i + 1;
    }
    out
}

/// Whether some run explains the facts in `keep`; counts the question.
fn accepts(
    net: &Net,
    obs: &Observation,
    opts: MusOptions,
    keep: &FactSet,
    calls: &mut usize,
) -> (r: bool)
    requires
        net_ok(net.deep_view()),
        mus_fits(net.deep_view(), obs.deep_view(), opts),
        *old(calls) < usize::MAX,
    ensures
        r == explainable(net.deep_view(), obs.deep_view(), opts, keep.deep_view()),
        *final(calls) == *old(calls) + 1,
{
    *calls = *calls + 1;
    let told = keep_standing(obs, keep);
    let mut kept = obs.restrict(&told);
    proof {
        reveal(explainable);
        lemma_kept_records_len(
            obs.deep_view().records,
            told.deep_view(),
            obs.deep_view().records.len() as int,
        );
        assert(kept.deep_view().records.len() == kept.records.len());
    }
    let options = VerifyOptions {
        bound: kept.records.len() + opts.slack,
        slack: opts.slack,
        max_states: opts.max_states,
    };
    kept.planes = open_all(&kept.planes);
    verify(net, &kept, options).accepted()
}

// ---------------------------------------------------------------------------
// QuickXplain
// ---------------------------------------------------------------------------
/// The facts of `candidates` that are needed beside `background`, found by halving, and how
/// often the oracle was asked.
pub open spec fn explained_by(
    net: NetView,
    obs: ObservationView,
    opts: MusOptions,
    background: Seq<FactView>,
    changed: bool,
    candidates: Seq<FactView>,
) -> (Seq<FactView>, nat)
    decreases candidates.len(),
{
    let asked: nat = if changed {
        1
    } else {
        0
    };
    if changed && !explainable(net, obs, opts, background) {
        (Seq::empty(), asked)
    } else if candidates.len() <= 1 {
        (candidates, asked)
    } else {
        let half = (candidates.len() / 2) as int;
        let left = candidates.take(half);
        let right = candidates.skip(half);
        let first = explained_by(
            net,
            obs,
            opts,
            put_facts(background, left, left.len() as int),
            left.len() > 0,
            right,
        );
        let second = explained_by(
            net,
            obs,
            opts,
            put_facts(background, first.0, first.0.len() as int),
            first.0.len() > 0,
            left,
        );
        (first.0 + second.0, asked + first.1 + second.1)
    }
}

proof fn lemma_explained_size(
    net: NetView,
    obs: ObservationView,
    opts: MusOptions,
    background: Seq<FactView>,
    changed: bool,
    candidates: Seq<FactView>,
)
    ensures
        explained_by(net, obs, opts, background, changed, candidates).0.len() <= candidates.len(),
        candidates.len() > 0 ==> explained_by(
            net,
            obs,
            opts,
            background,
            changed,
            candidates,
        ).1 <= 2 * candidates.len() - 1,
        candidates.len() == 0 ==> explained_by(
            net,
            obs,
            opts,
            background,
            changed,
            candidates,
        ).1 <= 1,
        forall|f: FactView| #[trigger]
            explained_by(net, obs, opts, background, changed, candidates).0.contains(f)
                ==> candidates.contains(f),
    decreases candidates.len(),
{
    let r = explained_by(net, obs, opts, background, changed, candidates);
    if changed && !explainable(net, obs, opts, background) {
    } else if candidates.len() > 1 {
        let half = (candidates.len() / 2) as int;
        let left = candidates.take(half);
        let right = candidates.skip(half);
        let b1 = put_facts(background, left, left.len() as int);
        lemma_explained_size(net, obs, opts, b1, left.len() > 0, right);
        let first = explained_by(net, obs, opts, b1, left.len() > 0, right);
        let b2 = put_facts(background, first.0, first.0.len() as int);
        lemma_explained_size(net, obs, opts, b2, first.0.len() > 0, left);
        let second = explained_by(net, obs, opts, b2, first.0.len() > 0, left);
        assert forall|f: FactView| #[trigger] r.0.contains(f) implies candidates.contains(f) by {
            let i = r.0.index_of(f);
            if i < first.0.len() {
                assert(first.0[i] == f);
                assert(first.0.contains(f));
                let j = right.index_of(f);
                assert(candidates[half + j] == f);
            } else {
                assert(second.0[i - first.0.len()] == f);
                assert(second.0.contains(f));
                let j = left.index_of(f);
                assert(candidates[j] == f);
            }
        }
    }
}

fn quickxplain(
    net: &Net,
    obs: &Observation,
    opts: MusOptions,
    background: &FactSet,
    changed: bool,
    candidates: &Vec<Fact>,
    calls: &mut usize,
) -> (r: Vec<Fact>)
    requires
        net_ok(net.deep_view()),
        mus_fits(net.deep_view(), obs.deep_view(), opts),
        *old(calls) + 2 * candidates.len() + 1 <= usize::MAX,
    ensures
        (r.deep_view(), (*final(calls) - *old(calls)) as nat) == explained_by(
            net.deep_view(),
            obs.deep_view(),
            opts,
            background.deep_view(),
            changed,
            candidates.deep_view(),
        ),
        *final(calls) >= *old(calls),
    decreases candidates.len(),
{
    let ghost nv = net.deep_view();
    let ghost ov = obs.deep_view();
    let ghost bg = background.deep_view();
    let ghost cv = candidates.deep_view();
    let ghost start = *calls;
    if changed && !accepts(net, obs, opts, background, calls) {
        return empty_vec();
    }
    if candidates.len() <= 1 {
        return candidates.dup();
    }
    let half = candidates.len() / 2;
    let mut left: Vec<Fact> = empty_vec();
    let mut right: Vec<Fact> = empty_vec();
    let mut i: usize = 0;
    while i < candidates.len()
        invariant
            i <= candidates.len(),
            cv == candidates.deep_view(),
            half <= candidates.len(),
            left.deep_view() =~= cv.take(if i < half {
                i as int
            } else {
                half as int
            }),
            right.deep_view() =~= (if i < half {
                Seq::empty()
            } else {
                cv.subrange(half as int, i as int)
            }),
        decreases candidates.len() - i,
    {
        if i < half {
            push_to(&mut left, candidates[i].dup());
        } else {
            push_to(&mut right, candidates[i].dup());
        }
        i = i + 1;
    }
    assert(left.deep_view() =~= cv.take(half as int));
    assert(right.deep_view() =~= cv.skip(half as int));
    assert(left.len() == left.deep_view().len());
    assert(right.len() == right.deep_view().len());
    let mut with_left = background.dup();
    with_left.insert_all(&left);
    let mut first = quickxplain(net, obs, opts, &with_left, left.len() > 0, &right, calls);
    proof {
        lemma_explained_size(nv, ov, opts, with_left.deep_view(), true, right.deep_view());
        assert(first.len() == first.deep_view().len());
    }
    let mut with_first = background.dup();
    with_first.insert_all(&first);
    let second = quickxplain(net, obs, opts, &with_first, first.len() > 0, &left, calls);
    append_to(&mut first, second);
    first
}

// ---------------------------------------------------------------------------
// Shrinking
// ---------------------------------------------------------------------------
/// `current` after the first `n` facts of `round` have been tried in turn: each is taken out
/// if the rest still cannot be explained.
pub open spec fn tried(
    net: NetView,
    obs: ObservationView,
    opts: MusOptions,
    round: Seq<FactView>,
    n: int,
) -> Seq<FactView>
    decreases n,
{
    if n <= 0 {
        round
    } else {
        let current = tried(net, obs, opts, round, n - 1);
        let rest = drop_fact(current, round[n - 1]);
        if explainable(net, obs, opts, rest) {
            current
        } else {
            rest
        }
    }
}

/// What is left when no single fact can be taken out any more, and how often the oracle was
/// asked.
pub open spec fn shrunk(
    net: NetView,
    obs: ObservationView,
    opts: MusOptions,
    current: Seq<FactView>,
) -> (Seq<FactView>, nat)
    decreases current.len(),
{
    let next = tried(net, obs, opts, current, current.len() as int);
    if next.len() < current.len() {
        let r = shrunk(net, obs, opts, next);
        (r.0, r.1 + current.len())
    } else {
        (next, current.len())
    }
}

/// How many facts from position `i` on are tried before one can be spared.
pub open spec fn spared_from(
    net: NetView,
    obs: ObservationView,
    opts: MusOptions,
    core: Seq<FactView>,
    i: int,
) -> (bool, nat)
    decreases core.len() - i,
{
    if i < 0 || i >= core.len() {
        (true, 0)
    } else if !explainable(net, obs, opts, drop_fact(core, core[i])) {
        (false, 1)
    } else {
        let r = spared_from(net, obs, opts, core, i + 1);
        (r.0, r.1 + 1)
    }
}

proof fn lemma_spared_calls(
    net: NetView,
    obs: ObservationView,
    opts: MusOptions,
    core: Seq<FactView>,
    i: int,
)
    requires
        0 <= i <= core.len(),
    ensures
        spared_from(net, obs, opts, core, i).1 <= core.len() - i,
    decreases core.len() - i,
{
    if i < core.len() {
        lemma_spared_calls(net, obs, opts, core, i + 1);
    }
}

proof fn lemma_drop_len(s: Seq<FactView>, f: FactView)
    ensures
        drop_fact(s, f).len() <= s.len(),
{
    lemma_drop_fact_len(s, f);
}

proof fn lemma_tried_len(
    net: NetView,
    obs: ObservationView,
    opts: MusOptions,
    round: Seq<FactView>,
    n: int,
)
    requires
        0 <= n <= round.len(),
    ensures
        tried(net, obs, opts, round, n).len() <= round.len(),
    decreases n,
{
    if n > 0 {
        lemma_tried_len(net, obs, opts, round, n - 1);
        lemma_drop_len(tried(net, obs, opts, round, n - 1), round[n - 1]);
    }
}

proof fn lemma_shrunk_calls(
    net: NetView,
    obs: ObservationView,
    opts: MusOptions,
    current: Seq<FactView>,
)
    ensures
        shrunk(net, obs, opts, current).1 <= current.len() * (current.len() + 1),
        shrunk(net, obs, opts, current).0.len() <= current.len(),
    decreases current.len(),
{
    let n = current.len();
    let next = tried(net, obs, opts, current, n as int);
    lemma_tried_len(net, obs, opts, current, n as int);
    if next.len() < n {
        lemma_shrunk_calls(net, obs, opts, next);
        let m = next.len();
        assert(m * (m + 1) + n <= n * (n + 1)) by (nonlinear_arith)
            requires
                m + 1 <= n,
        ;
    } else {
        assert(n <= n * (n + 1)) by (nonlinear_arith);
    }
}

/// Tries each fact once, in order, and leaves out those that are not needed.
fn try_each(
    net: &Net,
    obs: &Observation,
    opts: MusOptions,
    core: FactSet,
    calls: &mut usize,
) -> (r: FactSet)
    requires
        net_ok(net.deep_view()),
        mus_fits(net.deep_view(), obs.deep_view(), opts),
        *old(calls) + core.deep_view().len() <= usize::MAX,
    ensures
        r.deep_view() == tried(
            net.deep_view(),
            obs.deep_view(),
            opts,
            core.deep_view(),
            core.deep_view().len() as int,
        ),
        *final(calls) == *old(calls) + core.deep_view().len(),
{
    let ghost nv = net.deep_view();
    let ghost ov = obs.deep_view();
    let ghost before_pass = core.deep_view();
    let ghost calls0 = *calls as nat;
    let round = core.to_vec();
    assert(round.len() == round.deep_view().len());
    let mut current = core;
    let mut i: usize = 0;
    while i < round.len()
        invariant
            i <= round.len(),
            nv == net.deep_view(),
            ov == obs.deep_view(),
            net_ok(nv),
            mus_fits(nv, ov, opts),
            round.deep_view() == before_pass,
            round.len() == before_pass.len(),
            current.deep_view() == tried(nv, ov, opts, before_pass, i as int),
            *calls == calls0 + i,
            calls0 + round.len() <= usize::MAX,
        decreases round.len() - i,
    {
        let mut rest = current.dup();
        rest.remove(&round[i]);
        assert(before_pass[i as int] == round[i as int].deep_view());
        if !accepts(net, obs, opts, &rest, calls) {
            current = rest;
        }
        i = i + 1;
    }
    current
}

fn shrink(
    net: &Net,
    obs: &Observation,
    opts: MusOptions,
    core: FactSet,
    calls: &mut usize,
) -> (r: (FactSet, bool))
    requires
        net_ok(net.deep_view()),
        mus_fits(net.deep_view(), obs.deep_view(), opts),
        *old(calls) + (core.deep_view().len() + 1) * (core.deep_view().len() + 1) <= usize::MAX,
    ensures
        ({
            let s = shrunk(net.deep_view(), obs.deep_view(), opts, core.deep_view());
            let m = spared_from(net.deep_view(), obs.deep_view(), opts, s.0, 0);
            &&& r.0.deep_view() == s.0
            &&& r.1 == m.0
            &&& *final(calls) == *old(calls) + s.1 + m.1
        }),
{
    let ghost nv = net.deep_view();
    let ghost ov = obs.deep_view();
    let ghost goal = shrunk(nv, ov, opts, core.deep_view());
    let ghost start = *calls as nat;
    proof {
        lemma_shrunk_calls(nv, ov, opts, core.deep_view());
        let n = core.deep_view().len();
        assert(n * (n + 1) + n <= (n + 1) * (n + 1)) by (nonlinear_arith);
    }
    let mut current = core;
    loop
        invariant_except_break
            goal.0 == shrunk(nv, ov, opts, current.deep_view()).0,
            *calls + shrunk(nv, ov, opts, current.deep_view()).1 == start + goal.1,
        invariant
            nv == net.deep_view(),
            ov == obs.deep_view(),
            net_ok(nv),
            mus_fits(nv, ov, opts),
            start + goal.1 <= usize::MAX,
        ensures
            current.deep_view() == goal.0,
            *calls == start + goal.1,
        decreases current.deep_view().len(),
    {
        let ghost before_pass = current.deep_view();
        let size = current.len();
        proof {
            lemma_tried_len(nv, ov, opts, before_pass, before_pass.len() as int);
        }
        current = try_each(net, obs, opts, current, calls);
        if current.len() >= size {
            break ;
        }
    }
    let items = current.to_vec();
    let ghost cv = current.deep_view();
    let ghost calls1 = *calls as nat;
    proof {
        lemma_spared_calls(nv, ov, opts, cv, 0);
    }
    let mut k: usize = 0;
    while k < items.len()
        invariant
            k <= items.len(),
            nv == net.deep_view(),
            ov == obs.deep_view(),
            net_ok(nv),
            mus_fits(nv, ov, opts),
            cv == current.deep_view(),
            items.deep_view() == cv,
            *calls == calls1 + k,
            calls1 + items.len() <= usize::MAX,
            cv == shrunk(nv, ov, opts, core.deep_view()).0,
            calls1 == *old(calls) + shrunk(nv, ov, opts, core.deep_view()).1,
            spared_from(nv, ov, opts, cv, 0).0 == spared_from(nv, ov, opts, cv, k as int).0,
            spared_from(nv, ov, opts, cv, 0).1 == spared_from(nv, ov, opts, cv, k as int).1 + k,
        decreases items.len() - k,
    {
        let mut rest = current.dup();
        rest.remove(&items[k]);
        assert(cv[k as int] == items[k as int].deep_view());
        if !accepts(net, obs, opts, &rest, calls) {
            return (current, false);
        }
        k = k + 1;
    }
    (current, true)
}

// ---------------------------------------------------------------------------
// Extraction
// ---------------------------------------------------------------------------
/// A core of facts that alone rule the run out.
pub open spec fn extracted(
    net: NetView,
    obs: ObservationView,
    opts: MusOptions,
) -> MusResultView {
    let facts = all_facts(obs);
    let all = put_facts(Seq::empty(), facts, facts.len() as int);
    if explainable(net, obs, opts, all) {
        MusResultView {
            facts: Seq::empty(),
            oracle_calls: 1,
            minimal: true,
            relaxation_accepts: true,
        }
    } else {
        let x = explained_by(net, obs, opts, Seq::empty(), false, facts);
        let core = if x.0.len() == 0 {
            facts
        } else {
            x.0
        };
        let s = shrunk(net, obs, opts, put_facts(Seq::empty(), core, core.len() as int));
        let m = spared_from(net, obs, opts, s.0, 0);
        MusResultView {
            facts: s.0,
            oracle_calls: (1 + x.1 + s.1 + m.1) as usize,
            minimal: m.0,
            relaxation_accepts: false,
        }
    }
}

proof fn lemma_put_facts_len(s: Seq<FactView>, fs: Seq<FactView>, n: int)
    requires
        0 <= n <= fs.len(),
    ensures
        put_facts(s, fs, n).len() <= s.len() + n,
    decreases n,
{
    if n > 0 {
        lemma_put_facts_len(s, fs, n - 1);
        lemma_put_fact_len(put_facts(s, fs, n - 1), fs[n - 1]);
    }
}

proof fn lemma_put_fact_len(s: Seq<FactView>, f: FactView)
    ensures
        put_fact(s, f).len() <= s.len() + 1,
    decreases s.len(),
{
    if s.len() > 0 {
        lemma_put_fact_len(s.drop_first(), f);
    }
}

/// Finds a core of facts that alone rule the run out.
pub fn extract(net: &Net, obs: &Observation, options: MusOptions) -> (r: MusResult)
    requires
        net_ok(net.deep_view()),
        mus_fits(net.deep_view(), obs.deep_view(), options),
    ensures
        r.deep_view() == extracted(net.deep_view(), obs.deep_view(), options),
{
    let ghost nv = net.deep_view();
    let ghost ov = obs.deep_view();
    let mut calls: usize = 0;
    let facts = obs.facts();
    let ghost fv = facts.deep_view();
    let ghost n = fv.len();
    assert(facts.len() == n);
    let mut all = FactSet::new();
    all.insert_all(&facts);
    proof {
        assert(4 <= (n + 2) * (n + 2)) by (nonlinear_arith);
        assert((n + 2) * (n + 2) == (n + 1) * (n + 1) + 2 * n + 3) by (nonlinear_arith);
    }
    if accepts(net, obs, options, &all, &mut calls) {
        return MusResult {
            facts: empty_vec(),
            oracle_calls: calls,
            minimal: true,
            relaxation_accepts: true,
        };
    }
    let nothing = FactSet::new();
    let core = quickxplain(net, obs, options, &nothing, false, &facts, &mut calls);
    proof {
        lemma_explained_size(nv, ov, options, Seq::empty(), false, fv);
        assert(core.len() == core.deep_view().len());
    }
    let mut start = FactSet::new();
    if core.len() == 0 {
        start.insert_all(&facts);
    } else {
        start.insert_all(&core);
    }
    proof {
        lemma_put_facts_len(Seq::empty(), fv, fv.len() as int);
        lemma_put_facts_len(Seq::empty(), core.deep_view(), core.deep_view().len() as int);
        let k = start.deep_view().len();
        assert((k + 1) * (k + 1) <= (n + 1) * (n + 1)) by (nonlinear_arith)
            requires
                k <= n,
        ;
    }
    let (kept, minimal) = shrink(net, obs, options, start, &mut calls);
    MusResult { facts: kept.to_vec(), oracle_calls: calls, minimal, relaxation_accepts: false }
}

// ---------------------------------------------------------------------------
// What a core is
// ---------------------------------------------------------------------------
/// Sets of facts with the same facts are the same.
pub proof fn lemma_same_facts(a: Seq<FactView>, b: Seq<FactView>)
    requires
        facts_ascending(a),
        facts_ascending(b),
        forall|f: FactView| #[trigger] a.contains(f) <==> b.contains(f),
    ensures
        a == b,
    decreases a.len(),
{
    if a.len() == 0 {
        if b.len() > 0 {
            assert(b.contains(b[0]));
            assert(a.contains(b[0]));
        }
        assert(a =~= b);
    } else {
        assert(a.contains(a[0]));
        assert(b.contains(a[0]));
        assert(b.contains(b[0]));
        assert(a.contains(b[0]));
        let i = b.index_of(a[0]);
        let j = a.index_of(b[0]);
        if i > 0 {
            assert(fact_before(b[0], b[i]));
            if j > 0 {
                assert(fact_before(a[0], a[j]));
                lemma_fact_total(a[0], b[0]);
            }
        }
        assert(a[0] == b[0]);
        let x = a.drop_first();
        let y = b.drop_first();
        assert forall|p: int, q: int| 0 <= p < q < x.len() implies fact_before(
            #[trigger] x[p],
            #[trigger] x[q],
        ) by {
            assert(fact_before(a[p + 1], a[q + 1]));
        }
        assert forall|p: int, q: int| 0 <= p < q < y.len() implies fact_before(
            #[trigger] y[p],
            #[trigger] y[q],
        ) by {
            assert(fact_before(b[p + 1], b[q + 1]));
        }
        lemma_fact_total(a[0], a[0]);
        assert forall|f: FactView| #[trigger] x.contains(f) <==> y.contains(f) by {
            if x.contains(f) {
                let p = x.index_of(f);
                assert(a[p + 1] == f);
                assert(fact_before(a[0], a[p + 1]));
                assert(a.contains(f));
                let q = b.index_of(f);
                assert(q > 0);
                assert(y[q - 1] == f);
            }
            if y.contains(f) {
                let p = y.index_of(f);
                assert(b[p + 1] == f);
                assert(fact_before(b[0], b[p + 1]));
                assert(b.contains(f));
                assert(a.contains(f));
                let q = a.index_of(f);
                assert(q > 0);
                assert(x[q - 1] == f);
            }
        }
        lemma_same_facts(x, y);
        assert(a =~= seq![a[0]] + x);
        assert(b =~= seq![b[0]] + y);
    }
}

proof fn lemma_put_facts_ascending(s: Seq<FactView>, fs: Seq<FactView>, n: int)
    requires
        facts_ascending(s),
    ensures
        facts_ascending(put_facts(s, fs, n)),
    decreases n,
{
    if n > 0 {
        lemma_put_facts_ascending(s, fs, n - 1);
        lemma_put_fact_ascending(put_facts(s, fs, n - 1), fs[n - 1]);
    }
}

proof fn lemma_put_all_contains(s: Seq<FactView>, fs: Seq<FactView>, q: FactView)
    ensures
        put_facts(s, fs, fs.len() as int).contains(q) <==> s.contains(q) || fs.contains(q),
{
    lemma_put_facts_contains(s, fs, fs.len() as int, q);
    if fs.contains(q) {
        let i = fs.index_of(q);
        assert(fs[i] == q);
    }
}

/// The facts that halving finds, together with the background, cannot be explained.
proof fn lemma_explained_fails(
    net: NetView,
    obs: ObservationView,
    opts: MusOptions,
    background: Seq<FactView>,
    changed: bool,
    candidates: Seq<FactView>,
)
    requires
        facts_ascending(background),
        !explainable(
            net,
            obs,
            opts,
            put_facts(background, candidates, candidates.len() as int),
        ),
    ensures
        ({
            let x = explained_by(net, obs, opts, background, changed, candidates).0;
            !explainable(net, obs, opts, put_facts(background, x, x.len() as int))
        }),
    decreases candidates.len(),
{
    if changed && !explainable(net, obs, opts, background) {
    } else if candidates.len() > 1 {
        let half = (candidates.len() / 2) as int;
        let left = candidates.take(half);
        let right = candidates.skip(half);
        assert(candidates =~= left + right);
        let b1 = put_facts(background, left, left.len() as int);
        lemma_put_facts_ascending(background, left, left.len() as int);
        lemma_put_facts_ascending(b1, right, right.len() as int);
        lemma_put_facts_ascending(background, candidates, candidates.len() as int);
        assert forall|q: FactView| #[trigger] put_facts(b1, right, right.len() as int).contains(q)
            <==> put_facts(background, candidates, candidates.len() as int).contains(q) by {
            lemma_put_all_contains(b1, right, q);
            lemma_put_all_contains(background, left, q);
            lemma_put_all_contains(background, candidates, q);
            crate::search::lemma_concat_contains(left, right, q);
        }
        lemma_same_facts(
            put_facts(b1, right, right.len() as int),
            put_facts(background, candidates, candidates.len() as int),
        );
        lemma_explained_fails(net, obs, opts, b1, left.len() > 0, right);
        let first = explained_by(net, obs, opts, b1, left.len() > 0, right).0;
        let b2 = put_facts(background, first, first.len() as int);
        lemma_put_facts_ascending(background, first, first.len() as int);
        lemma_put_facts_ascending(b2, left, left.len() as int);
        lemma_put_facts_ascending(b1, first, first.len() as int);
        assert forall|q: FactView| #[trigger] put_facts(b2, left, left.len() as int).contains(q)
            <==> put_facts(b1, first, first.len() as int).contains(q) by {
            lemma_put_all_contains(b2, left, q);
            lemma_put_all_contains(background, first, q);
            lemma_put_all_contains(b1, first, q);
            lemma_put_all_contains(background, left, q);
        }
        lemma_same_facts(
            put_facts(b2, left, left.len() as int),
            put_facts(b1, first, first.len() as int),
        );
        lemma_explained_fails(net, obs, opts, b2, first.len() > 0, left);
        let second = explained_by(net, obs, opts, b2, first.len() > 0, left).0;
        let out = first + second;
        lemma_put_facts_ascending(b2, second, second.len() as int);
        lemma_put_facts_ascending(background, out, out.len() as int);
        assert forall|q: FactView| #[trigger] put_facts(b2, second, second.len() as int).contains(q)
            <==> put_facts(background, out, out.len() as int).contains(q) by {
            lemma_put_all_contains(b2, second, q);
            lemma_put_all_contains(background, first, q);
            lemma_put_all_contains(background, out, q);
            crate::search::lemma_concat_contains(first, second, q);
        }
        lemma_same_facts(
            put_facts(b2, second, second.len() as int),
            put_facts(background, out, out.len() as int),
        );
    }
}

/// A pass keeps a set that cannot be explained one that cannot be explained, and takes facts
/// out only.
proof fn lemma_tried(
    net: NetView,
    obs: ObservationView,
    opts: MusOptions,
    round: Seq<FactView>,
    n: int,
)
    requires
        0 <= n <= round.len(),
        facts_ascending(round),
        !explainable(net, obs, opts, round),
    ensures
        facts_ascending(tried(net, obs, opts, round, n)),
        !explainable(net, obs, opts, tried(net, obs, opts, round, n)),
        forall|f: FactView| #[trigger]
            tried(net, obs, opts, round, n).contains(f) ==> round.contains(f),
        // A fact that was not tried yet is still there.
        forall|i: int| n <= i < round.len() ==> tried(net, obs, opts, round, n).contains(
            #[trigger] round[i],
        ),
        // Where nothing was taken out, no fact that was tried can be spared.
        tried(net, obs, opts, round, n).len() == round.len() ==> tried(net, obs, opts, round, n)
            == round && forall|i: int|
            0 <= i < n ==> explainable(net, obs, opts, drop_fact(round, #[trigger] round[i])),
    decreases n,
{
    if n > 0 {
        lemma_tried(net, obs, opts, round, n - 1);
        let c = tried(net, obs, opts, round, n - 1);
        let f = round[n - 1];
        let rest = drop_fact(c, f);
        lemma_drop_fact(c, f);
        lemma_drop_fact_len(c, f);
        lemma_tried_len(net, obs, opts, round, n - 1);
        assert(c.contains(round[n - 1]));
        assert forall|i: int| n <= i < round.len() implies tried(net, obs, opts, round, n).contains(
            #[trigger] round[i],
        ) by {
            assert(c.contains(round[i]));
            assert(fact_before(round[n - 1], round[i]));
            lemma_fact_total(round[i], round[i]);
        }
    } else {
        assert forall|i: int| n <= i < round.len() implies round.contains(#[trigger] round[i]) by {}
    }
}

/// What shrinking leaves cannot be explained, and no fact of it can be spared.
proof fn lemma_shrunk(
    net: NetView,
    obs: ObservationView,
    opts: MusOptions,
    current: Seq<FactView>,
)
    requires
        facts_ascending(current),
        !explainable(net, obs, opts, current),
    ensures
        ({
            let core = shrunk(net, obs, opts, current).0;
            &&& facts_ascending(core)
            &&& !explainable(net, obs, opts, core)
            &&& forall|f: FactView| #[trigger] core.contains(f) ==> current.contains(f)
            &&& forall|i: int|
                0 <= i < core.len() ==> explainable(
                    net,
                    obs,
                    opts,
                    drop_fact(core, #[trigger] core[i]),
                )
        }),
    decreases current.len(),
{
    let n = current.len() as int;
    lemma_tried(net, obs, opts, current, n);
    lemma_tried_len(net, obs, opts, current, n);
    let next = tried(net, obs, opts, current, n);
    if next.len() < current.len() {
        lemma_shrunk(net, obs, opts, next);
    }
}

proof fn lemma_spared(
    net: NetView,
    obs: ObservationView,
    opts: MusOptions,
    core: Seq<FactView>,
    i: int,
)
    requires
        0 <= i <= core.len(),
        forall|k: int|
            0 <= k < core.len() ==> explainable(
                net,
                obs,
                opts,
                drop_fact(core, #[trigger] core[k]),
            ),
    ensures
        spared_from(net, obs, opts, core, i).0,
    decreases core.len() - i,
{
    if i < core.len() {
        assert(explainable(net, obs, opts, drop_fact(core, core[i])));
        lemma_spared(net, obs, opts, core, i + 1);
    }
}

/// What is reported of a rejection is a minimal unsatisfiable set: facts that were observed,
/// each once, that no execution of the workflow produces together, and of which none can be
/// spared: without any one of them, the rest can be explained.
pub proof fn cores_are_unsatisfiable_and_minimal(
    net: NetView,
    obs: ObservationView,
    opts: MusOptions,
)
    requires
        !extracted(net, obs, opts).relaxation_accepts,
    ensures
        ({
            let core = extracted(net, obs, opts).facts;
            &&& facts_ascending(core)
            &&& forall|f: FactView| #[trigger] core.contains(f) ==> all_facts(obs).contains(f)
            &&& !explainable(net, obs, opts, core)
            &&& forall|i: int|
                0 <= i < core.len() ==> explainable(
                    net,
                    obs,
                    opts,
                    drop_fact(core, #[trigger] core[i]),
                )
            &&& extracted(net, obs, opts).minimal
        }),
{
    let facts = all_facts(obs);
    let x = explained_by(net, obs, opts, Seq::empty(), false, facts).0;
    lemma_explained_fails(net, obs, opts, Seq::empty(), false, facts);
    lemma_explained_size(net, obs, opts, Seq::empty(), false, facts);
    let chosen = if x.len() == 0 {
        facts
    } else {
        x
    };
    let start = put_facts(Seq::empty(), chosen, chosen.len() as int);
    lemma_put_facts_ascending(Seq::empty(), chosen, chosen.len() as int);
    lemma_shrunk(net, obs, opts, start);
    let core = shrunk(net, obs, opts, start).0;
    lemma_spared(net, obs, opts, core, 0);
    assert forall|f: FactView| #[trigger] core.contains(f) implies facts.contains(f) by {
        assert(start.contains(f));
        lemma_put_all_contains(Seq::empty(), chosen, f);
        if x.len() > 0 {
            assert(x.contains(f));
        }
    }
}

} // verus!
