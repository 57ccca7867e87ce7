//! What was observed of a run: records from independent log planes, the effects that they
//! carry, the edges between effects, and the partial order that all of this implies.

use crate::digest::{digest, digest_text};
use crate::ordered::{
    empty_vec, push_to, sorted_set, values_of, vec_contains, Dup, Same, StrMap, StrSet,
};
use crate::text::{
    before, cat2, cat3, cat4, cat5, join, joined, lemma_before_irreflexive, lemma_before_total,
    lemma_before_transitive, lemma_before_asymmetric, same_text, text_before, Str,
};
use vstd::prelude::*;
use vstd::utf8::{encode_utf8, is_char_boundary};

verus! {

/// A log plane: whether its log is complete, and the effect kinds that it carries.
#[derive(Debug)]
pub struct Plane {
    pub complete: bool,
    pub carries: Vec<String>,
}

/// What a [`Plane`] holds.
pub struct PlaneView {
    pub complete: bool,
    pub carries: Seq<Str>,
}

impl DeepView for Plane {
    type V = PlaneView;

    open spec fn deep_view(&self) -> PlaneView {
        PlaneView {
            complete: self.complete,
            carries: self.carries.deep_view(),
        }
    }
}

impl Dup for Plane {
    fn dup(&self) -> (r: Self) {
        Plane {
            complete: self.complete,
            carries: self.carries.dup(),
        }
    }
}

/// An observed effect.
#[derive(Debug)]
pub struct EffectInstance {
    pub id: String,
    pub kind: String,
    pub args: StrMap<String>,
}

/// What a [`EffectInstance`] holds.
pub struct EffectInstanceView {
    pub id: Str,
    pub kind: Str,
    pub args: Seq<(Str, Str)>,
}

impl DeepView for EffectInstance {
    type V = EffectInstanceView;

    open spec fn deep_view(&self) -> EffectInstanceView {
        EffectInstanceView {
            id: self.id.deep_view(),
            kind: self.kind.deep_view(),
            args: self.args.deep_view(),
        }
    }
}

impl Dup for EffectInstance {
    fn dup(&self) -> (r: Self) {
        EffectInstance {
            id: self.id.dup(),
            kind: self.kind.dup(),
            args: self.args.dup(),
        }
    }
}

/// An observed relation from one effect to another.
#[derive(Debug)]
pub struct ObservedEdge {
    pub ty: String,
    pub from: String,
    pub to: String,
}

/// What a [`ObservedEdge`] holds.
pub struct ObservedEdgeView {
    pub ty: Str,
    pub from: Str,
    pub to: Str,
}

impl DeepView for ObservedEdge {
    type V = ObservedEdgeView;

    open spec fn deep_view(&self) -> ObservedEdgeView {
        ObservedEdgeView {
            ty: self.ty.deep_view(),
            from: self.from.deep_view(),
            to: self.to.deep_view(),
        }
    }
}

impl Dup for ObservedEdge {
    fn dup(&self) -> (r: Self) {
        ObservedEdge {
            ty: self.ty.dup(),
            from: self.from.dup(),
            to: self.to.dup(),
        }
    }
}

/// A log record: who did what when, and with which effects.
#[derive(Debug)]
pub struct Record {
    pub id: String,
    pub plane: String,
    pub principal: String,
    pub step: Option<String>,
    pub ts: String,
    pub effects: Vec<EffectInstance>,
}

/// What a [`Record`] holds.
pub struct RecordView {
    pub id: Str,
    pub plane: Str,
    pub principal: Str,
    pub step: Option<Str>,
    pub ts: Str,
    pub effects: Seq<EffectInstanceView>,
}

impl DeepView for Record {
    type V = RecordView;

    open spec fn deep_view(&self) -> RecordView {
        RecordView {
            id: self.id.deep_view(),
            plane: self.plane.deep_view(),
            principal: self.principal.deep_view(),
            step: self.step.deep_view(),
            ts: self.ts.deep_view(),
            effects: self.effects.deep_view(),
        }
    }
}

impl Dup for Record {
    fn dup(&self) -> (r: Self) {
        Record {
            id: self.id.dup(),
            plane: self.plane.dup(),
            principal: self.principal.dup(),
            step: self.step.dup(),
            ts: self.ts.dup(),
            effects: self.effects.dup(),
        }
    }
}

/// The observation of one run.
#[derive(Debug)]
pub struct Observation {
    pub run_id: String,
    pub planes: StrMap<Plane>,
    pub records: Vec<Record>,
    pub edges: Vec<ObservedEdge>,
}

/// What a [`Observation`] holds.
pub struct ObservationView {
    pub run_id: Str,
    pub planes: Seq<(Str, PlaneView)>,
    pub records: Seq<RecordView>,
    pub edges: Seq<ObservedEdgeView>,
}

impl DeepView for Observation {
    type V = ObservationView;

    open spec fn deep_view(&self) -> ObservationView {
        ObservationView {
            run_id: self.run_id.deep_view(),
            planes: self.planes.deep_view(),
            records: self.records.deep_view(),
            edges: self.edges.deep_view(),
        }
    }
}

impl Dup for Observation {
    fn dup(&self) -> (r: Self) {
        Observation {
            run_id: self.run_id.dup(),
            planes: self.planes.dup(),
            records: self.records.dup(),
            edges: self.edges.dup(),
        }
    }
}

/// One observed fact.
#[derive(Debug)]
pub enum Fact {
    Step { record: String, step: String, principal: String },
    Effect { id: String, kind: String, args: StrMap<String> },
    Edge { relation: String, from: String, to: String },
}

/// What a [`Fact`] holds.
pub enum FactView {
    Step { record: Str, step: Str, principal: Str },
    Effect { id: Str, kind: Str, args: Seq<(Str, Str)> },
    Edge { relation: Str, from: Str, to: Str },
}

impl DeepView for Fact {
    type V = FactView;

    open spec fn deep_view(&self) -> FactView {
        match self {
            Fact::Step { record, step, principal } => FactView::Step {
                record: record.deep_view(),
                step: step.deep_view(),
                principal: principal.deep_view(),
            },
            Fact::Effect { id, kind, args } => FactView::Effect {
                id: id.deep_view(),
                kind: kind.deep_view(),
                args: args.deep_view(),
            },
            Fact::Edge { relation, from, to } => FactView::Edge {
                relation: relation.deep_view(),
                from: from.deep_view(),
                to: to.deep_view(),
            },
        }
    }
}

impl Dup for Fact {
    fn dup(&self) -> (r: Self) {
        match self {
            Fact::Step { record, step, principal } => Fact::Step {
                record: record.dup(),
                step: step.dup(),
                principal: principal.dup(),
            },
            Fact::Effect { id, kind, args } => Fact::Effect {
                id: id.dup(),
                kind: kind.dup(),
                args: args.dup(),
            },
            Fact::Edge { relation, from, to } => Fact::Edge {
                relation: relation.dup(),
                from: from.dup(),
                to: to.dup(),
            },
        }
    }
}

impl Same for Fact {
    fn same(&self, other: &Self) -> (r: bool) {
        match (self, other) {
            (
                Fact::Step { record, step, principal },
                Fact::Step { record: o_record, step: o_step, principal: o_principal },
            ) => {
                record.same(o_record) && step.same(o_step) && principal.same(o_principal)
            },
            (
                Fact::Effect { id, kind, args },
                Fact::Effect { id: o_id, kind: o_kind, args: o_args },
            ) => {
                id.same(o_id) && kind.same(o_kind) && args.same(o_args)
            },
            (
                Fact::Edge { relation, from, to },
                Fact::Edge { relation: o_relation, from: o_from, to: o_to },
            ) => {
                relation.same(o_relation) && from.same(o_from) && to.same(o_to)
            },
            _ => false,
        }
    }
}

/// Why an observation is not well formed.
#[derive(Debug)]
pub enum ObservationError {
    DuplicateRecord(String),
    DuplicateEffect(String),
    UnknownEffect { relation: String, id: String },
    CausalCycle(String),
}

/// What a [`ObservationError`] holds.
pub enum ObservationErrorView {
    DuplicateRecord(Str),
    DuplicateEffect(Str),
    UnknownEffect { relation: Str, id: Str },
    CausalCycle(Str),
}

impl DeepView for ObservationError {
    type V = ObservationErrorView;

    open spec fn deep_view(&self) -> ObservationErrorView {
        match self {
            ObservationError::DuplicateRecord(a0) => ObservationErrorView::DuplicateRecord(a0.deep_view()),
            ObservationError::DuplicateEffect(a0) => ObservationErrorView::DuplicateEffect(a0.deep_view()),
            ObservationError::UnknownEffect { relation, id } => ObservationErrorView::UnknownEffect {
                relation: relation.deep_view(),
                id: id.deep_view(),
            },
            ObservationError::CausalCycle(a0) => ObservationErrorView::CausalCycle(a0.deep_view()),
        }
    }
}

// ---------------------------------------------------------------------------
// Rendering
// ---------------------------------------------------------------------------
/// `key=value` for each of the first `n` arguments.
pub open spec fn assignments(m: Seq<(Str, Str)>, n: int) -> Seq<Str>
    decreases n,
{
    if n <= 0 {
        Seq::empty()
    } else {
        assignments(m, n - 1).push(m[n - 1].0 + "="@ + m[n - 1].1)
    }
}

/// A fact as a reader sees it.
pub open spec fn fact_text(f: FactView) -> Str {
    match f {
        FactView::Step { record, step, principal } => principal + " performed `"@ + step + "`"@,
        FactView::Effect { id, kind, args } => kind + "("@ + joined(
            assignments(args, args.len() as int),
            ", "@,
        ) + ")"@,
        FactView::Edge { relation, from, to } => relation + "("@ + from + " -> "@ + to + ")"@,
    }
}

/// What is wrong, as a reader sees it.
pub open spec fn observation_error_text(e: ObservationErrorView) -> Str {
    match e {
        ObservationErrorView::DuplicateRecord(id) => "duplicate record id `"@ + id + "`"@,
        ObservationErrorView::DuplicateEffect(id) => "duplicate effect id `"@ + id + "`"@,
        ObservationErrorView::UnknownEffect { relation, id } => "edge `"@ + relation
            + "` references unknown effect `"@ + id + "`"@,
        ObservationErrorView::CausalCycle(id) =>
            "observation contains a causal cycle involving record `"@ + id + "`"@,
    }
}

/// `key=value` for each entry, in key order.
pub fn assignment_texts(m: &StrMap<String>) -> (r: Vec<String>)
    ensures
        r.deep_view() == assignments(m.deep_view(), m.deep_view().len() as int),
{
    let mut out: Vec<String> = empty_vec();
    let mut i: usize = 0;
    while i < m.len()
        invariant
            i <= m.deep_view().len(),
            out.deep_view() == assignments(m.deep_view(), i as int),
        decreases m.deep_view().len() - i,
    {
        push_to(&mut out, cat3(m.key_at(i).as_str(), "=", m.value_at(i).as_str()));
        i = i + 1;
    }
    out
}

impl Fact {
    /// The fact as a reader sees it.
    pub fn render(&self) -> (r: String)
        ensures
            r@ == fact_text(self.deep_view()),
    {
        match self {
            Fact::Step { record, step, principal } => cat4(
                principal.as_str(),
                " performed `",
                step.as_str(),
                "`",
            ),
            Fact::Effect { id, kind, args } => {
                let parts = assignment_texts(args);
                let inner = join(&parts, ", ");
                cat4(kind.as_str(), "(", inner.as_str(), ")")
            },
            Fact::Edge { relation, from, to } => {
                let head = cat5(relation.as_str(), "(", from.as_str(), " -> ", to.as_str());
                cat2(head.as_str(), ")")
            },
        }
    }
}

impl ObservationError {
    /// What is wrong, as a reader sees it.
    pub fn render(&self) -> (r: String)
        ensures
            r@ == observation_error_text(self.deep_view()),
    {
        match self {
            ObservationError::DuplicateRecord(id) => cat3(
                "duplicate record id `",
                id.as_str(),
                "`",
            ),
            ObservationError::DuplicateEffect(id) => cat3(
                "duplicate effect id `",
                id.as_str(),
                "`",
            ),
            ObservationError::UnknownEffect { relation, id } => cat5(
                "edge `",
                relation.as_str(),
                "` references unknown effect `",
                id.as_str(),
                "`",
            ),
            ObservationError::CausalCycle(id) => cat3(
                "observation contains a causal cycle involving record `",
                id.as_str(),
                "`",
            ),
        }
    }
}

// ---------------------------------------------------------------------------
// Effects and records
// ---------------------------------------------------------------------------
/// The effects of the first `n` records, in order.
pub open spec fn effects_upto(rs: Seq<RecordView>, n: int) -> Seq<EffectInstanceView>
    decreases n,
{
    if n <= 0 {
        Seq::empty()
    } else {
        effects_upto(rs, n - 1) + rs[n - 1].effects
    }
}

/// All effects of a sequence of records.
pub open spec fn all_effects(rs: Seq<RecordView>) -> Seq<EffectInstanceView> {
    effects_upto(rs, rs.len() as int)
}

/// The effects of those of the first `n` records that name no step.
pub open spec fn dangling_upto(rs: Seq<RecordView>, n: int) -> Seq<EffectInstanceView>
    decreases n,
{
    if n <= 0 {
        Seq::empty()
    } else if rs[n - 1].step is None {
        dangling_upto(rs, n - 1) + rs[n - 1].effects
    } else {
        dangling_upto(rs, n - 1)
    }
}

/// The first effect at or after position `i` with the id `id`.
pub open spec fn effect_from(
    es: Seq<EffectInstanceView>,
    id: Str,
    i: int,
) -> Option<EffectInstanceView>
    decreases es.len() - i,
{
    if i < 0 || i >= es.len() {
        None
    } else if es[i].id == id {
        Some(es[i])
    } else {
        effect_from(es, id, i + 1)
    }
}

/// The first effect of `rs` with the id `id`.
pub open spec fn effect_named(rs: Seq<RecordView>, id: Str) -> Option<EffectInstanceView> {
    effect_from(all_effects(rs), id, 0)
}

/// The first record at or after position `i` that carries an effect with the id `id`.
pub open spec fn holder_from(rs: Seq<RecordView>, id: Str, i: int) -> Option<int>
    decreases rs.len() - i,
{
    if i < 0 || i >= rs.len() {
        None
    } else if effect_from(rs[i].effects, id, 0) is Some {
        Some(i)
    } else {
        holder_from(rs, id, i + 1)
    }
}

/// The positions, among the first `n`, of the records that name a step.
pub open spec fn steps_upto(rs: Seq<RecordView>, n: int) -> Seq<usize>
    decreases n,
{
    if n <= 0 {
        Seq::empty()
    } else if rs[n - 1].step is Some {
        steps_upto(rs, n - 1).push((n - 1) as usize)
    } else {
        steps_upto(rs, n - 1)
    }
}

/// The ids of a sequence of effects.
pub open spec fn effect_ids(es: Seq<EffectInstanceView>) -> Seq<Str> {
    Seq::new(es.len(), |i: int| es[i].id)
}

/// The ids of a sequence of records.
pub open spec fn record_ids(rs: Seq<RecordView>) -> Seq<Str> {
    Seq::new(rs.len(), |i: int| rs[i].id)
}

/// The argument values of the first `n` effects.
pub open spec fn arg_values(es: Seq<EffectInstanceView>, n: int) -> Seq<Str>
    decreases n,
{
    if n <= 0 {
        Seq::empty()
    } else {
        arg_values(es, n - 1) + values_of(es[n - 1].args)
    }
}

/// Whether some plane is complete and carries effects of this kind.
pub open spec fn carried(planes: Seq<(Str, PlaneView)>, kind: Str) -> bool {
    exists|i: int|
        0 <= i < planes.len() && (#[trigger] planes[i]).1.complete && planes[i].1.carries.contains(
            kind,
        )
}

pub proof fn lemma_effect_from(es: Seq<EffectInstanceView>, id: Str, i: int)
    requires
        0 <= i,
    ensures
        effect_from(es, id, i) matches Some(e) ==> e.id == id && exists|j: int|
            i <= j < es.len() && #[trigger] es[j] == e,
        effect_from(es, id, i) is None ==> forall|j: int|
            i <= j < es.len() ==> #[trigger] es[j].id != id,
    decreases es.len() - i,
{
    if i < es.len() && es[i].id != id {
        lemma_effect_from(es, id, i + 1);
    }
}

fn find_effect<'a>(es: &Vec<&'a EffectInstance>, id: &str) -> (r: Option<&'a EffectInstance>)
    ensures
        match r {
            Some(e) => effect_from(es.deep_view(), id@, 0) == Some(e.deep_view()),
            None => effect_from(es.deep_view(), id@, 0) is None,
        },
{
    let mut i: usize = 0;
    while i < es.len()
        invariant
            i <= es.len(),
            effect_from(es.deep_view(), id@, 0) == effect_from(es.deep_view(), id@, i as int),
        decreases es.len() - i,
    {
        if same_text(es[i].id.as_str(), id) {
            return Some(es[i]);
        }
        i = i + 1;
    }
    None
}

fn has_effect(es: &Vec<EffectInstance>, id: &str) -> (r: bool)
    ensures
        r == (effect_from(es.deep_view(), id@, 0) is Some),
{
    let mut i: usize = 0;
    while i < es.len()
        invariant
            i <= es.len(),
            effect_from(es.deep_view(), id@, 0) == effect_from(es.deep_view(), id@, i as int),
        decreases es.len() - i,
    {
        if same_text(es[i].id.as_str(), id) {
            return true;
        }
        i = i + 1;
    }
    false
}

fn effects_of<'a>(rs: &'a Vec<Record>) -> (r: Vec<&'a EffectInstance>)
    ensures
        r.deep_view() == all_effects(rs.deep_view()),
{
    let mut out: Vec<&EffectInstance> = empty_vec();
    let mut i: usize = 0;
    while i < rs.len()
        invariant
            i <= rs.len(),
            out.deep_view() == effects_upto(rs.deep_view(), i as int),
        decreases rs.len() - i,
    {
        let ghost so_far = out.deep_view();
        let es = &rs[i].effects;
        let mut j: usize = 0;
        assert(es.deep_view().take(0) =~= Seq::empty());
        assert(so_far + es.deep_view().take(0) =~= so_far);
        while j < es.len()
            invariant
                j <= es.len(),
                out.deep_view() == so_far + es.deep_view().take(j as int),
            decreases es.len() - j,
        {
            push_to(&mut out, &es[j]);
            assert(es.deep_view().take(j + 1) =~= es.deep_view().take(j as int).push(
                es.deep_view()[j as int],
            ));
            assert(out.deep_view() =~= so_far + es.deep_view().take(j + 1));
            j = j + 1;
        }
        assert(es.deep_view().take(j as int) =~= es.deep_view());
        i = i + 1;
    }
    out
}

// ---------------------------------------------------------------------------
// The order of records
// ---------------------------------------------------------------------------
/// Whether record `j` comes before record `i` by timestamp, and by position where the
/// timestamps are equal.
pub open spec fn earlier(rs: Seq<RecordView>, j: int, i: int) -> bool {
    before(rs[j].ts, rs[i].ts) || (rs[j].ts == rs[i].ts && j < i)
}

/// Whether record `j` is the last one before record `i` in the log plane of both.
pub open spec fn just_before(rs: Seq<RecordView>, j: int, i: int) -> bool {
    &&& rs[j].plane == rs[i].plane
    &&& earlier(rs, j, i)
    &&& forall|k: int|
        0 <= k < rs.len() && #[trigger] rs[k].plane == rs[i].plane && earlier(rs, k, i) ==> k == j
            || earlier(rs, k, j)
}

/// Whether an edge makes an effect of record `i` depend on one of another record `j`.
pub open spec fn depends_on(obs: ObservationView, i: int, j: int) -> bool {
    i != j && exists|e: int|
        0 <= e < obs.edges.len() && holder_from(
            obs.records,
            (#[trigger] obs.edges[e]).from,
            0,
        ) == Some(i) && holder_from(obs.records, obs.edges[e].to, 0) == Some(j)
}

/// Whether record `j` must come before record `i`: timestamps order records within a plane,
/// edges order them across planes.
pub open spec fn must_precede(obs: ObservationView, j: int, i: int) -> bool {
    just_before(obs.records, j, i) || depends_on(obs, i, j)
}

/// The records among the first `n` that must come before record `i`, in ascending order.
pub open spec fn preds_upto(obs: ObservationView, i: int, n: int) -> Seq<usize>
    decreases n,
{
    if n <= 0 {
        Seq::empty()
    } else if must_precede(obs, n - 1, i) {
        preds_upto(obs, i, n - 1).push((n - 1) as usize)
    } else {
        preds_upto(obs, i, n - 1)
    }
}

/// For each record, the records that must come before it.
pub open spec fn predecessors(obs: ObservationView) -> Seq<Seq<usize>> {
    Seq::new(
        obs.records.len(),
        |i: int| preds_upto(obs, i, obs.records.len() as int),
    )
}

/// Whether record `i` can be placed within `k` rounds, each of which places every record whose
/// predecessors are placed.
pub open spec fn placed(preds: Seq<Seq<usize>>, k: nat, i: int) -> bool
    decreases k,
{
    k > 0 && forall|x: int|
        0 <= x < preds[i].len() ==> placed(preds, (k - 1) as nat, (#[trigger] preds[i][x]) as int)
}

/// The first record at or after `i` that can never be placed.
pub open spec fn stuck_from(preds: Seq<Seq<usize>>, i: int) -> Option<int>
    decreases preds.len() - i,
{
    if i < 0 || i >= preds.len() {
        None
    } else if !placed(preds, preds.len(), i) {
        Some(i)
    } else {
        stuck_from(preds, i + 1)
    }
}

/// The order of the records: the predecessors of each, or the first record that a causal
/// cycle keeps from being placed.
pub open spec fn ordered(obs: ObservationView) -> Result<Seq<Seq<usize>>, ObservationErrorView> {
    let preds = predecessors(obs);
    match stuck_from(preds, 0) {
        Some(i) => Err(ObservationErrorView::CausalCycle(obs.records[i].id)),
        None => Ok(preds),
    }
}

pub proof fn lemma_earlier_transitive(rs: Seq<RecordView>, a: int, b: int, c: int)
    requires
        earlier(rs, a, b),
        earlier(rs, b, c),
    ensures
        earlier(rs, a, c),
{
    if before(rs[a].ts, rs[b].ts) && before(rs[b].ts, rs[c].ts) {
        lemma_before_transitive(rs[a].ts, rs[b].ts, rs[c].ts);
    }
}

pub proof fn lemma_earlier_total(rs: Seq<RecordView>, a: int, b: int)
    ensures
        a == b || earlier(rs, a, b) || earlier(rs, b, a),
        !(earlier(rs, a, b) && earlier(rs, b, a)),
        !earlier(rs, a, a),
{
    lemma_before_total(rs[a].ts, rs[b].ts);
    lemma_before_irreflexive(rs[a].ts);
    if before(rs[a].ts, rs[b].ts) {
        lemma_before_asymmetric(rs[a].ts, rs[b].ts);
    }
    if before(rs[b].ts, rs[a].ts) {
        lemma_before_asymmetric(rs[b].ts, rs[a].ts);
    }
}

pub proof fn lemma_preds_upto(obs: ObservationView, i: int, n: int)
    requires
        n <= usize::MAX,
    ensures
        forall|x: int|
            0 <= x < preds_upto(obs, i, n).len() ==> {
                &&& 0 <= #[trigger] preds_upto(obs, i, n)[x] < n
                &&& must_precede(obs, preds_upto(obs, i, n)[x] as int, i)
            },
        forall|j: int| 0 <= j < n && must_precede(obs, j, i) ==> #[trigger] preds_upto(
            obs,
            i,
            n,
        ).contains(j as usize),
    decreases n,
{
    if n > 0 {
        lemma_preds_upto(obs, i, n - 1);
        let p = preds_upto(obs, i, n - 1);
        let q = preds_upto(obs, i, n);
        assert forall|x: int| 0 <= x < q.len() implies 0 <= #[trigger] q[x] < n && must_precede(
            obs,
            q[x] as int,
            i,
        ) by {
            if x < p.len() {
                assert(q[x] == p[x]);
            }
        }
        assert forall|j: int| 0 <= j < n && must_precede(obs, j, i) implies #[trigger] q.contains(
            j as usize,
        ) by {
            if j == n - 1 {
                assert(q[q.len() - 1] == j as usize);
            } else {
                assert(p.contains(j as usize));
                let x = p.index_of(j as usize);
                assert(q[x] == j as usize);
            }
        }
    }
}

/// A record that can be placed within `k` rounds can be placed within more.
pub proof fn lemma_placed_monotone(preds: Seq<Seq<usize>>, k: nat, l: nat, i: int)
    requires
        placed(preds, k, i),
        k <= l,
    ensures
        placed(preds, l, i),
    decreases k,
{
    assert forall|x: int| 0 <= x < preds[i].len() implies placed(
        preds,
        (l - 1) as nat,
        (#[trigger] preds[i][x]) as int,
    ) by {
        lemma_placed_monotone(preds, (k - 1) as nat, (l - 1) as nat, preds[i][x] as int);
    }
}

/// Once a round places nothing new, no later round does.
pub proof fn lemma_placed_stable(preds: Seq<Seq<usize>>, k: nat, l: nat, i: int)
    requires
        k <= l,
        0 <= i < preds.len(),
        forall|a: int, x: int|
            0 <= a < preds.len() && 0 <= x < preds[a].len() ==> (#[trigger] preds[a][x])
                < preds.len(),
        forall|a: int| 0 <= a < preds.len() ==> #[trigger] placed(preds, k + 1, a) == placed(
            preds,
            k,
            a,
        ),
    ensures
        placed(preds, l, i) == placed(preds, k, i),
    decreases l,
{
    if l > k {
        if placed(preds, k, i) {
            lemma_placed_monotone(preds, k, l, i);
        }
        if placed(preds, l, i) {
            assert forall|x: int| 0 <= x < preds[i].len() implies placed(
                preds,
                k,
                (#[trigger] preds[i][x]) as int,
            ) by {
                lemma_placed_stable(preds, k, (l - 1) as nat, preds[i][x] as int);
            }
            assert(placed(preds, k + 1, i));
        }
    }
}

fn is_earlier(rs: &Vec<Record>, j: usize, i: usize) -> (r: bool)
    requires
        j < rs.len(),
        i < rs.len(),
    ensures
        r == earlier(rs.deep_view(), j as int, i as int),
{
    text_before(rs[j].ts.as_str(), rs[i].ts.as_str()) || (rs[j].ts == rs[i].ts && j < i)
}

/// The last record before record `i` in its plane.
fn neighbour(rs: &Vec<Record>, i: usize) -> (r: Option<usize>)
    requires
        i < rs.len(),
    ensures
        match r {
            Some(j) => j < rs.len() && just_before(rs.deep_view(), j as int, i as int) && forall|k: int|
                0 <= k < rs.len() && #[trigger] just_before(rs.deep_view(), k, i as int) ==> k == j,
            None => forall|k: int|
                0 <= k < rs.len() ==> !#[trigger] just_before(rs.deep_view(), k, i as int),
        },
{
    let ghost v = rs.deep_view();
    let mut best: Option<usize> = None;
    let mut k: usize = 0;
    while k < rs.len()
        invariant
            i < rs.len(),
            k <= rs.len(),
            v == rs.deep_view(),
            match best {
                Some(j) => j < k && v[j as int].plane == v[i as int].plane && earlier(
                    v,
                    j as int,
                    i as int,
                ) && forall|m: int|
                    0 <= m < k && #[trigger] v[m].plane == v[i as int].plane && earlier(
                        v,
                        m,
                        i as int,
                    ) ==> m == j || earlier(v, m, j as int),
                None => forall|m: int|
                    0 <= m < k && #[trigger] v[m].plane == v[i as int].plane ==> !earlier(
                        v,
                        m,
                        i as int,
                    ),
            },
        decreases rs.len() - k,
    {
        if rs[k].plane == rs[i].plane && is_earlier(rs, k, i) {
            match best {
                Some(j) => {
                    if is_earlier(rs, j, k) {
                        proof {
                            assert forall|m: int|
                                0 <= m < k + 1 && #[trigger] v[m].plane == v[i as int].plane
                                    && earlier(v, m, i as int) implies m == k || earlier(
                                v,
                                m,
                                k as int,
                            ) by {
                                if m < k && m != j {
                                    lemma_earlier_transitive(v, m, j as int, k as int);
                                }
                            }
                        }
                        best = Some(k);
                    } else {
                        proof {
                            lemma_earlier_total(v, j as int, k as int);
                        }
                    }
                },
                None => {
                    best = Some(k);
                },
            }
        }
        k = k + 1;
    }
    proof {
        match best {
            Some(j) => {
                assert(just_before(v, j as int, i as int));
                assert forall|m: int| 0 <= m < v.len() && #[trigger] just_before(
                    v,
                    m,
                    i as int,
                ) implies m == j by {
                    assert(v[j as int].plane == v[i as int].plane);
                    assert(v[m].plane == v[i as int].plane);
                    lemma_earlier_total(v, m, j as int);
                }
            },
            None => {},
        }
    }
    best
}

impl Observation {
    /// All effects, in record order.
    pub fn effects(&self) -> (r: Vec<&EffectInstance>)
        ensures
            r.deep_view() == all_effects(self.deep_view().records),
    {
        effects_of(&self.records)
    }

    /// The first effect with the given id.
    pub fn effect(&self, id: &str) -> (r: Option<&EffectInstance>)
        ensures
            match r {
                Some(e) => effect_named(self.deep_view().records, id@) == Some(e.deep_view()),
                None => effect_named(self.deep_view().records, id@) is None,
            },
    {
        let es = self.effects();
        find_effect(&es, id)
    }

    /// The first record that carries an effect with the given id.
    pub fn record_of_effect(&self, id: &str) -> (r: Option<usize>)
        ensures
            match r {
                Some(i) => i < self.records.len() && holder_from(
                    self.deep_view().records,
                    id@,
                    0,
                ) == Some(i as int),
                None => holder_from(self.deep_view().records, id@, 0) is None,
            },
    {
        let ghost rs = self.records.deep_view();
        let mut i: usize = 0;
        while i < self.records.len()
            invariant
                i <= self.records.len(),
                rs == self.records.deep_view(),
                holder_from(rs, id@, 0) == holder_from(rs, id@, i as int),
            decreases self.records.len() - i,
        {
            if has_effect(&self.records[i].effects, id) {
                return Some(i);
            }
            i = i + 1;
        }
        None
    }

    /// The positions of the records that name a step.
    pub fn step_records(&self) -> (r: Vec<usize>)
        ensures
            r@ == steps_upto(self.deep_view().records, self.deep_view().records.len() as int),
    {
        let mut out: Vec<usize> = Vec::new();
        let mut i: usize = 0;
        while i < self.records.len()
            invariant
                i <= self.records.len(),
                out@ == steps_upto(self.records.deep_view(), i as int),
            decreases self.records.len() - i,
        {
            if self.records[i].step.is_some() {
                out.push(i);
            }
            i = i + 1;
        }
        out
    }

    /// The effects of the records that name no step.
    pub fn dangling_effects(&self) -> (r: Vec<&EffectInstance>)
        ensures
            r.deep_view() == dangling_upto(
                self.deep_view().records,
                self.deep_view().records.len() as int,
            ),
    {
        let mut out: Vec<&EffectInstance> = empty_vec();
        let mut i: usize = 0;
        while i < self.records.len()
            invariant
                i <= self.records.len(),
                out.deep_view() == dangling_upto(self.records.deep_view(), i as int),
            decreases self.records.len() - i,
        {
            if self.records[i].step.is_none() {
                let ghost so_far = out.deep_view();
                let es = &self.records[i].effects;
                let mut j: usize = 0;
                assert(so_far + es.deep_view().take(0) =~= so_far);
                while j < es.len()
                    invariant
                        j <= es.len(),
                        out.deep_view() == so_far + es.deep_view().take(j as int),
                    decreases es.len() - j,
                {
                    push_to(&mut out, &es[j]);
                    assert(out.deep_view() =~= so_far + es.deep_view().take(j + 1));
                    j = j + 1;
                }
                assert(es.deep_view().take(j as int) =~= es.deep_view());
            }
            i = i + 1;
        }
        out
    }

    /// Every argument value that occurs.
    pub fn value_domain(&self) -> (r: StrSet)
        ensures
            r.deep_view() == sorted_set(
                arg_values(
                    all_effects(self.deep_view().records),
                    all_effects(self.deep_view().records).len() as int,
                ),
            ),
    {
        let es = self.effects();
        let mut values: Vec<String> = empty_vec();
        let mut i: usize = 0;
        while i < es.len()
            invariant
                i <= es.len(),
                values.deep_view() == arg_values(es.deep_view(), i as int),
            decreases es.len() - i,
        {
            let ghost so_far = values.deep_view();
            let args = &es[i].args;
            let ghost vs = values_of(args.deep_view());
            let mut j: usize = 0;
            assert(so_far + vs.take(0) =~= so_far);
            while j < args.len()
                invariant
                    j <= args.deep_view().len(),
                    vs == values_of(args.deep_view()),
                    values.deep_view() == so_far + vs.take(j as int),
                decreases args.deep_view().len() - j,
            {
                push_to(&mut values, args.value_at(j).clone());
                assert(values.deep_view() =~= so_far + vs.take(j + 1));
                j = j + 1;
            }
            assert(vs.take(j as int) =~= vs);
            i = i + 1;
        }
        let mut out = StrSet::new();
        out.insert_all(&values);
        out
    }

    /// Whether some complete plane carries effects of this kind.
    pub fn plane_carries(&self, kind: &str) -> (r: bool)
        ensures
            r == carried(self.deep_view().planes, kind@),
    {
        let ghost planes = self.planes.deep_view();
        let mut i: usize = 0;
        while i < self.planes.len()
            invariant
                i <= planes.len(),
                planes == self.planes.deep_view(),
                forall|j: int|
                    0 <= j < i ==> !((#[trigger] planes[j]).1.complete
                        && planes[j].1.carries.contains(kind@)),
            decreases planes.len() - i,
        {
            let p = self.planes.value_at(i);
            if p.complete && vec_contains(&p.carries, kind) {
                assert(planes[i as int].1.complete);
                return true;
            }
            i = i + 1;
        }
        false
    }

    /// Whether an edge makes record `i` depend on record `j`.
    fn depends(&self, i: usize, j: usize) -> (r: bool)
        requires
            i < self.records.len(),
            j < self.records.len(),
        ensures
            r == depends_on(self.deep_view(), i as int, j as int),
    {
        if i == j {
            return false;
        }
        let ghost obs = self.deep_view();
        let mut e: usize = 0;
        while e < self.edges.len()
            invariant
                i != j,
                e <= self.edges.len(),
                obs == self.deep_view(),
                forall|f: int|
                    0 <= f < e ==> !(holder_from(obs.records, (#[trigger] obs.edges[f]).from, 0)
                        == Some(i as int) && holder_from(obs.records, obs.edges[f].to, 0) == Some(
                        j as int,
                    )),
            decreases self.edges.len() - e,
        {
            let source = self.record_of_effect(self.edges[e].from.as_str());
            let target = self.record_of_effect(self.edges[e].to.as_str());
            assert(obs.edges[e as int] == self.edges[e as int].deep_view());
            match (source, target) {
                (Some(s), Some(t)) => {
                    if s == i && t == j {
                        return true;
                    }
                },
                _ => {},
            }
            e = e + 1;
        }
        false
    }

    /// The records that must come before record `i`.
    fn preds_of(&self, i: usize) -> (r: Vec<usize>)
        requires
            i < self.records.len(),
        ensures
            r@ == preds_upto(self.deep_view(), i as int, self.records.len() as int),
    {
        let near = neighbour(&self.records, i);
        let mut out: Vec<usize> = Vec::new();
        let mut j: usize = 0;
        while j < self.records.len()
            invariant
                i < self.records.len(),
                j <= self.records.len(),
                match near {
                    Some(n) => just_before(self.records.deep_view(), n as int, i as int) && forall|k: int|
                        0 <= k < self.records.len() && #[trigger] just_before(
                            self.records.deep_view(),
                            k,
                            i as int,
                        ) ==> k == n,
                    None => forall|k: int|
                        0 <= k < self.records.len() ==> !#[trigger] just_before(
                            self.records.deep_view(),
                            k,
                            i as int,
                        ),
                },
                out@ == preds_upto(self.deep_view(), i as int, j as int),
            decreases self.records.len() - j,
        {
            let close = match near {
                Some(n) => n == j,
                None => false,
            };
            assert(close == just_before(self.deep_view().records, j as int, i as int));
            if close || self.depends(i, j) {
                out.push(j);
            }
            j = j + 1;
        }
        out
    }

    /// For each record the records that must come before it; an error where a causal cycle
    /// makes that impossible.
    pub fn order(&self) -> (r: Result<Vec<Vec<usize>>, ObservationError>)
        ensures
            match r {
                Ok(p) => ordered(self.deep_view()) == Ok::<Seq<Seq<usize>>, ObservationErrorView>(
                    p.deep_view(),
                ),
                Err(e) => ordered(self.deep_view()) == Err::<
                    Seq<Seq<usize>>,
                    ObservationErrorView,
                >(e.deep_view()),
            },
    {
        let n = self.records.len();
        let ghost obs = self.deep_view();
        let mut preds: Vec<Vec<usize>> = Vec::new();
        let mut i: usize = 0;
        while i < n
            invariant
                n == self.records.len(),
                obs == self.deep_view(),
                i <= n,
                preds.len() == i,
                forall|a: int|
                    0 <= a < i ==> (#[trigger] preds[a]).deep_view() == preds_upto(
                        obs,
                        a,
                        n as int,
                    ),
            decreases n - i,
        {
            let p = self.preds_of(i);
            assert(p.deep_view() =~= p@);
            preds.push(p);
            i = i + 1;
        }
        assert(preds.deep_view() =~= predecessors(obs));
        let ghost pv = preds.deep_view();
        proof {
            assert forall|a: int, x: int| 0 <= a < pv.len() && 0 <= x < pv[a].len() implies (
            #[trigger] pv[a][x]) < pv.len() by {
                lemma_preds_upto(obs, a, n as int);
                assert(pv[a] == preds_upto(obs, a, n as int));
            }
        }
        let done = placeable(&preds);
        let mut k: usize = 0;
        while k < n
            invariant
                n == self.records.len(),
                obs == self.deep_view(),
                pv == predecessors(obs),
                pv.len() == n,
                done.len() == n,
                k <= n,
                forall|a: int| 0 <= a < n ==> #[trigger] done[a] == placed(pv, n as nat, a),
                stuck_from(pv, 0) == stuck_from(pv, k as int),
            decreases n - k,
        {
            if !done[k] {
                return Err(ObservationError::CausalCycle(self.records[k].id.clone()));
            }
            k = k + 1;
        }
        Ok(preds)
    }
}

/// Which records can be placed at all.
fn placeable(preds: &Vec<Vec<usize>>) -> (done: Vec<bool>)
    requires
        forall|a: int, x: int|
            0 <= a < preds.deep_view().len() && 0 <= x < preds.deep_view()[a].len() ==> (
            #[trigger] preds.deep_view()[a][x]) < preds.deep_view().len(),
    ensures
        done.len() == preds.len(),
        forall|a: int|
            0 <= a < preds.len() ==> #[trigger] done[a] == placed(
                preds.deep_view(),
                preds.len() as nat,
                a,
            ),
{
    let n = preds.len();
    let ghost pv = preds.deep_view();
    let mut done: Vec<bool> = Vec::new();
    let mut z: usize = 0;
    while z < n
        invariant
            z <= n,
            done.len() == z,
            forall|a: int| 0 <= a < z ==> #[trigger] done[a] == false,
        decreases n - z,
    {
        done.push(false);
        z = z + 1;
    }
    let mut round: usize = 0;
    while round < n
        invariant
            n == preds.len(),
            pv == preds.deep_view(),
            round <= n,
            done.len() == n,
            forall|a: int, x: int|
                0 <= a < pv.len() && 0 <= x < pv[a].len() ==> (#[trigger] pv[a][x]) < pv.len(),
            forall|a: int| 0 <= a < n ==> #[trigger] done[a] == placed(pv, round as nat, a),
        decreases n - round,
    {
        let mut next: Vec<bool> = Vec::new();
        let mut changed = false;
        let mut i: usize = 0;
        while i < n
            invariant
                n == preds.len(),
                pv == preds.deep_view(),
                i <= n,
                done.len() == n,
                next.len() == i,
                forall|a: int, x: int|
                    0 <= a < pv.len() && 0 <= x < pv[a].len() ==> (#[trigger] pv[a][x]) < pv.len(),
                forall|a: int| 0 <= a < n ==> #[trigger] done[a] == placed(pv, round as nat, a),
                forall|a: int| 0 <= a < i ==> #[trigger] next[a] == placed(pv, (round + 1) as nat, a),
                !changed ==> forall|a: int| 0 <= a < i ==> #[trigger] next[a] == done[a],
            decreases n - i,
        {
            let mut ready = true;
            let mut x: usize = 0;
            assert(pv[i as int] == preds[i as int].deep_view());
            while x < preds[i].len()
                invariant
                    n == preds.len(),
                    i < n,
                    pv == preds.deep_view(),
                    pv[i as int] == preds[i as int].deep_view(),
                    x <= preds[i as int].len(),
                    done.len() == n,
                    forall|a: int, y: int|
                        0 <= a < pv.len() && 0 <= y < pv[a].len() ==> (#[trigger] pv[a][y])
                            < pv.len(),
                    forall|a: int| 0 <= a < n ==> #[trigger] done[a] == placed(pv, round as nat, a),
                    ready == forall|y: int|
                        0 <= y < x ==> placed(
                            pv,
                            round as nat,
                            (#[trigger] pv[i as int][y]) as int,
                        ),
                decreases preds[i as int].len() - x,
            {
                let q = preds[i][x];
                assert(pv[i as int][x as int] == q);
                assert(done[q as int] == placed(pv, round as nat, q as int));
                if !done[q] {
                    ready = false;
                }
                x = x + 1;
            }
            if ready != done[i] {
                changed = true;
            }
            next.push(ready);
            i = i + 1;
        }
        if !changed {
            proof {
                assert forall|a: int| 0 <= a < pv.len() implies #[trigger] placed(
                    pv,
                    (round + 1) as nat,
                    a,
                ) == placed(pv, round as nat, a) by {
                    assert(next[a] == done[a]);
                }
                assert forall|a: int| 0 <= a < n implies #[trigger] done[a] == placed(
                    pv,
                    n as nat,
                    a,
                ) by {
                    lemma_placed_stable(pv, round as nat, n as nat, a);
                }
            }
            return done;
        }
        done = next;
        round = round + 1;
    }
    done
}

// ---------------------------------------------------------------------------
// Well-formedness
// ---------------------------------------------------------------------------
/// The first item at or after position `i` that occurs earlier.
pub open spec fn repeated_from(ids: Seq<Str>, i: int) -> Option<Str>
    decreases ids.len() - i,
{
    if i < 0 || i >= ids.len() {
        None
    } else if exists|j: int| 0 <= j < i && #[trigger] ids[j] == ids[i] {
        Some(ids[i])
    } else {
        repeated_from(ids, i + 1)
    }
}

/// The first end, source before target, of an edge at or after position `i` that is the id of
/// no effect.
pub open spec fn unknown_end_from(
    es: Seq<EffectInstanceView>,
    edges: Seq<ObservedEdgeView>,
    i: int,
) -> Option<ObservationErrorView>
    decreases edges.len() - i,
{
    if i < 0 || i >= edges.len() {
        None
    } else if effect_from(es, edges[i].from, 0) is None {
        Some(
            ObservationErrorView::UnknownEffect { relation: edges[i].ty, id: edges[i].from },
        )
    } else if effect_from(es, edges[i].to, 0) is None {
        Some(ObservationErrorView::UnknownEffect { relation: edges[i].ty, id: edges[i].to })
    } else {
        unknown_end_from(es, edges, i + 1)
    }
}

/// What is wrong with an observation, if anything: a repeated record id, a repeated effect id,
/// an edge that ends in no effect, or a causal cycle, reported in this order.
pub open spec fn defect(obs: ObservationView) -> Option<ObservationErrorView> {
    let es = all_effects(obs.records);
    match repeated_from(record_ids(obs.records), 0) {
        Some(id) => Some(ObservationErrorView::DuplicateRecord(id)),
        None => match repeated_from(effect_ids(es), 0) {
            Some(id) => Some(ObservationErrorView::DuplicateEffect(id)),
            None => match unknown_end_from(es, obs.edges, 0) {
                Some(e) => Some(e),
                None => match ordered(obs) {
                    Err(e) => Some(e),
                    Ok(_) => None,
                },
            },
        },
    }
}

fn find_repeated(ids: &Vec<String>) -> (r: Option<String>)
    ensures
        r.deep_view() == repeated_from(ids.deep_view(), 0),
{
    let ghost v = ids.deep_view();
    let mut i: usize = 0;
    while i < ids.len()
        invariant
            i <= ids.len(),
            v == ids.deep_view(),
            repeated_from(v, 0) == repeated_from(v, i as int),
        decreases ids.len() - i,
    {
        let mut j: usize = 0;
        while j < i
            invariant
                j <= i,
                i < ids.len(),
                v == ids.deep_view(),
                repeated_from(v, 0) == repeated_from(v, i as int),
                forall|k: int| 0 <= k < j ==> #[trigger] v[k] != v[i as int],
            decreases i - j,
        {
            if ids[j] == ids[i] {
                assert(v[j as int] == v[i as int]);
                return Some(ids[i].clone());
            }
            j = j + 1;
        }
        i = i + 1;
    }
    None
}

impl Observation {
    /// Checks the observation; the first defect is the error.
    pub fn validate(&self) -> (r: Result<(), ObservationError>)
        ensures
            match r {
                Ok(_) => defect(self.deep_view()) is None,
                Err(e) => defect(self.deep_view()) == Some(e.deep_view()),
            },
    {
        let ghost obs = self.deep_view();
        let mut ids: Vec<String> = empty_vec();
        let mut i: usize = 0;
        while i < self.records.len()
            invariant
                i <= self.records.len(),
                obs == self.deep_view(),
                ids.deep_view() == record_ids(obs.records).take(i as int),
            decreases self.records.len() - i,
        {
            push_to(&mut ids, self.records[i].id.clone());
            assert(ids.deep_view() =~= record_ids(obs.records).take(i + 1));
            i = i + 1;
        }
        assert(record_ids(obs.records).take(i as int) =~= record_ids(obs.records));
        match find_repeated(&ids) {
            Some(id) => {
                return Err(ObservationError::DuplicateRecord(id));
            },
            None => {},
        }
        let es = self.effects();
        let ghost esv = es.deep_view();
        let mut names: Vec<String> = empty_vec();
        let mut j: usize = 0;
        while j < es.len()
            invariant
                j <= es.len(),
                esv == es.deep_view(),
                names.deep_view() == effect_ids(esv).take(j as int),
            decreases es.len() - j,
        {
            push_to(&mut names, es[j].id.clone());
            assert(names.deep_view() =~= effect_ids(esv).take(j + 1));
            j = j + 1;
        }
        assert(effect_ids(esv).take(j as int) =~= effect_ids(esv));
        match find_repeated(&names) {
            Some(id) => {
                return Err(ObservationError::DuplicateEffect(id));
            },
            None => {},
        }
        let mut k: usize = 0;
        while k < self.edges.len()
            invariant
                k <= self.edges.len(),
                obs == self.deep_view(),
                esv == es.deep_view(),
                esv == all_effects(obs.records),
                repeated_from(record_ids(obs.records), 0) is None,
                repeated_from(effect_ids(esv), 0) is None,
                unknown_end_from(esv, obs.edges, 0) == unknown_end_from(esv, obs.edges, k as int),
            decreases self.edges.len() - k,
        {
            let edge = &self.edges[k];
            assert(obs.edges[k as int] == edge.deep_view());
            if find_effect(&es, edge.from.as_str()).is_none() {
                return Err(
                    ObservationError::UnknownEffect {
                        relation: edge.ty.clone(),
                        id: edge.from.clone(),
                    },
                );
            }
            if find_effect(&es, edge.to.as_str()).is_none() {
                return Err(
                    ObservationError::UnknownEffect {
                        relation: edge.ty.clone(),
                        id: edge.to.clone(),
                    },
                );
            }
            k = k + 1;
        }
        match self.order() {
            Ok(_) => Ok(()),
            Err(e) => Err(e),
        }
    }
}

// ---------------------------------------------------------------------------
// Facts
// ---------------------------------------------------------------------------
/// The fact that a record names a step.
pub open spec fn step_facts(r: RecordView) -> Seq<FactView> {
    match r.step {
        Some(step) => seq![FactView::Step { record: r.id, step, principal: r.principal }],
        None => Seq::empty(),
    }
}

/// The facts that the first `n` of a record's effects are.
pub open spec fn effect_facts(es: Seq<EffectInstanceView>, n: int) -> Seq<FactView>
    decreases n,
{
    if n <= 0 {
        Seq::empty()
    } else {
        effect_facts(es, n - 1).push(
            FactView::Effect { id: es[n - 1].id, kind: es[n - 1].kind, args: es[n - 1].args },
        )
    }
}

/// The facts of the first `n` records.
pub open spec fn record_facts(rs: Seq<RecordView>, n: int) -> Seq<FactView>
    decreases n,
{
    if n <= 0 {
        Seq::empty()
    } else {
        record_facts(rs, n - 1) + step_facts(rs[n - 1]) + effect_facts(
            rs[n - 1].effects,
            rs[n - 1].effects.len() as int,
        )
    }
}

/// The facts that the first `n` edges are.
pub open spec fn edge_facts(es: Seq<ObservedEdgeView>, n: int) -> Seq<FactView>
    decreases n,
{
    if n <= 0 {
        Seq::empty()
    } else {
        edge_facts(es, n - 1).push(
            FactView::Edge { relation: es[n - 1].ty, from: es[n - 1].from, to: es[n - 1].to },
        )
    }
}

/// All facts of an observation: record by record the step and the effects, and then the edges.
pub open spec fn all_facts(obs: ObservationView) -> Seq<FactView> {
    record_facts(obs.records, obs.records.len() as int) + edge_facts(
        obs.edges,
        obs.edges.len() as int,
    )
}

impl Observation {
    /// All facts of the observation.
    pub fn facts(&self) -> (r: Vec<Fact>)
        ensures
            r.deep_view() == all_facts(self.deep_view()),
    {
        let ghost obs = self.deep_view();
        let mut out: Vec<Fact> = empty_vec();
        let mut i: usize = 0;
        while i < self.records.len()
            invariant
                i <= self.records.len(),
                obs == self.deep_view(),
                out.deep_view() == record_facts(obs.records, i as int),
            decreases self.records.len() - i,
        {
            let r = &self.records[i];
            assert(obs.records[i as int] == r.deep_view());
            let ghost so_far = out.deep_view();
            match &r.step {
                Some(step) => {
                    push_to(
                        &mut out,
                        Fact::Step {
                            record: r.id.clone(),
                            step: step.clone(),
                            principal: r.principal.clone(),
                        },
                    );
                },
                None => {},
            }
            assert(out.deep_view() =~= so_far + step_facts(r.deep_view()));
            let ghost named = out.deep_view();
            let ghost es = r.effects.deep_view();
            let mut j: usize = 0;
            assert(named + effect_facts(es, 0) =~= named);
            while j < r.effects.len()
                invariant
                    j <= r.effects.len(),
                    es == r.effects.deep_view(),
                    out.deep_view() == named + effect_facts(es, j as int),
                decreases r.effects.len() - j,
            {
                let e = &r.effects[j];
                push_to(
                    &mut out,
                    Fact::Effect { id: e.id.clone(), kind: e.kind.clone(), args: e.args.dup() },
                );
                assert(out.deep_view() =~= named + effect_facts(es, j + 1));
                j = j + 1;
            }
            i = i + 1;
        }
        let ghost told = out.deep_view();
        let mut k: usize = 0;
        assert(told + edge_facts(obs.edges, 0) =~= told);
        while k < self.edges.len()
            invariant
                k <= self.edges.len(),
                obs == self.deep_view(),
                out.deep_view() == told + edge_facts(obs.edges, k as int),
            decreases self.edges.len() - k,
        {
            let e = &self.edges[k];
            push_to(
                &mut out,
                Fact::Edge { relation: e.ty.clone(), from: e.from.clone(), to: e.to.clone() },
            );
            assert(out.deep_view() =~= told + edge_facts(obs.edges, k + 1));
            k = k + 1;
        }
        out
    }
}

// ---------------------------------------------------------------------------
// Sets of facts
// ---------------------------------------------------------------------------
/// Whether `a` comes before `b` in dictionary order, word by word.
pub open spec fn words_before(a: Seq<Str>, b: Seq<Str>) -> bool
    decreases a.len(),
{
    if b.len() == 0 {
        false
    } else if a.len() == 0 {
        true
    } else if a[0] != b[0] {
        before(a[0], b[0])
    } else {
        words_before(a.drop_first(), b.drop_first())
    }
}

/// Keys and values of `m` in turn.
pub open spec fn flattened(m: Seq<(Str, Str)>) -> Seq<Str> {
    Seq::new(
        2 * m.len(),
        |i: int|
            if i % 2 == 0 {
                m[i / 2].0
            } else {
                m[i / 2].1
            },
    )
}

/// Steps come before effects and effects before edges.
pub open spec fn fact_rank(f: FactView) -> int {
    match f {
        FactView::Step { .. } => 0,
        FactView::Effect { .. } => 1,
        FactView::Edge { .. } => 2,
    }
}

/// The words by which facts of one rank are ordered.
pub open spec fn fact_words(f: FactView) -> Seq<Str> {
    match f {
        FactView::Step { record, step, principal } => seq![record, step, principal],
        FactView::Effect { id, kind, args } => seq![id, kind] + flattened(args),
        FactView::Edge { relation, from, to } => seq![relation, from, to],
    }
}

/// Whether fact `a` comes before fact `b`.
pub open spec fn fact_before(a: FactView, b: FactView) -> bool {
    fact_rank(a) < fact_rank(b) || (fact_rank(a) == fact_rank(b) && words_before(
        fact_words(a),
        fact_words(b),
    ))
}

/// `s` with `f` added, in order and without repetition.
pub open spec fn put_fact(s: Seq<FactView>, f: FactView) -> Seq<FactView>
    decreases s.len(),
{
    if s.len() == 0 {
        seq![f]
    } else if s[0] == f {
        s
    } else if fact_before(f, s[0]) {
        seq![f] + s
    } else {
        seq![s[0]] + put_fact(s.drop_first(), f)
    }
}

/// `s` with the first `n` items of `fs` added.
pub open spec fn put_facts(s: Seq<FactView>, fs: Seq<FactView>, n: int) -> Seq<FactView>
    decreases n,
{
    if n <= 0 {
        s
    } else {
        put_fact(put_facts(s, fs, n - 1), fs[n - 1])
    }
}

/// `s` with the first item that is `f` taken out.
pub open spec fn drop_fact(s: Seq<FactView>, f: FactView) -> Seq<FactView>
    decreases s.len(),
{
    if s.len() == 0 {
        s
    } else if s[0] == f {
        s.drop_first()
    } else {
        seq![s[0]] + drop_fact(s.drop_first(), f)
    }
}

/// Whether the facts of `s` are strictly increasing.
pub open spec fn facts_ascending(s: Seq<FactView>) -> bool {
    forall|i: int, j: int| 0 <= i < j < s.len() ==> fact_before(#[trigger] s[i], #[trigger] s[j])
}

pub proof fn lemma_words_total(a: Seq<Str>, b: Seq<Str>)
    ensures
        a == b || words_before(a, b) || words_before(b, a),
        !(words_before(a, b) && words_before(b, a)),
        !words_before(a, a),
    decreases a.len(),
{
    if a.len() > 0 {
        lemma_words_total(a.drop_first(), a.drop_first());
    }
    if a.len() > 0 && b.len() > 0 {
        if a[0] == b[0] {
            lemma_words_total(a.drop_first(), b.drop_first());
            if a.drop_first() == b.drop_first() {
                assert(a =~= seq![a[0]] + a.drop_first());
                assert(b =~= seq![b[0]] + b.drop_first());
            }
        } else {
            lemma_before_total(a[0], b[0]);
            if before(a[0], b[0]) {
                lemma_before_asymmetric(a[0], b[0]);
            }
        }
    } else if a.len() == 0 && b.len() == 0 {
        assert(a =~= b);
    }
}

pub proof fn lemma_words_transitive(a: Seq<Str>, b: Seq<Str>, c: Seq<Str>)
    requires
        words_before(a, b),
        words_before(b, c),
    ensures
        words_before(a, c),
    decreases a.len(),
{
    if a.len() > 0 {
        if a[0] == b[0] && b[0] == c[0] {
            lemma_words_transitive(a.drop_first(), b.drop_first(), c.drop_first());
        } else if a[0] != b[0] && b[0] != c[0] {
            lemma_before_transitive(a[0], b[0], c[0]);
            lemma_before_irreflexive(a[0]);
        }
    }
}

proof fn lemma_flattened_injective(a: Seq<(Str, Str)>, b: Seq<(Str, Str)>)
    requires
        flattened(a) == flattened(b),
    ensures
        a == b,
{
    assert(flattened(a).len() == 2 * a.len());
    assert(flattened(b).len() == 2 * b.len());
    assert forall|i: int| 0 <= i < a.len() implies a[i] == b[i] by {
        assert(flattened(a)[2 * i] == a[i].0);
        assert(flattened(b)[2 * i] == b[i].0);
        assert(flattened(a)[2 * i + 1] == a[i].1);
        assert(flattened(b)[2 * i + 1] == b[i].1);
    }
    assert(a =~= b);
}

pub proof fn lemma_fact_total(a: FactView, b: FactView)
    ensures
        a == b || fact_before(a, b) || fact_before(b, a),
        !(fact_before(a, b) && fact_before(b, a)),
        !fact_before(a, a),
{
    lemma_words_total(fact_words(a), fact_words(b));
    lemma_words_total(fact_words(a), fact_words(a));
    if fact_rank(a) == fact_rank(b) && fact_words(a) == fact_words(b) {
        let p = fact_words(a);
        let q = fact_words(b);
        assert(p[0] == q[0] && p[1] == q[1]);
        match a {
            FactView::Effect { id, kind, args } => {
                match b {
                    FactView::Effect { id: i2, kind: k2, args: a2 } => {
                        assert(p.skip(2) =~= flattened(args));
                        assert(q.skip(2) =~= flattened(a2));
                        lemma_flattened_injective(args, a2);
                    },
                    _ => {},
                }
            },
            _ => {
                assert(p[2] == q[2]);
            },
        }
    }
}

pub proof fn lemma_fact_transitive(a: FactView, b: FactView, c: FactView)
    requires
        fact_before(a, b),
        fact_before(b, c),
    ensures
        fact_before(a, c),
{
    if fact_rank(a) == fact_rank(b) && fact_rank(b) == fact_rank(c) {
        lemma_words_transitive(fact_words(a), fact_words(b), fact_words(c));
    }
}

/// Adding a fact adds exactly that fact.
pub proof fn lemma_put_fact_contains(s: Seq<FactView>, f: FactView, q: FactView)
    ensures
        put_fact(s, f).contains(q) <==> (q == f || s.contains(q)),
    decreases s.len(),
{
    let p = put_fact(s, f);
    if s.len() == 0 {
        assert(p[0] == f);
    } else if s[0] == f {
        assert(p[0] == f);
    } else if fact_before(f, s[0]) {
        assert(p[0] == f);
        if s.contains(q) {
            let i = s.index_of(q);
            assert(p[i + 1] == q);
        }
        if p.contains(q) && q != f {
            let i = p.index_of(q);
            assert(s[i - 1] == q);
        }
    } else {
        let d = s.drop_first();
        let r = put_fact(d, f);
        lemma_put_fact_contains(d, f, q);
        if s.contains(q) {
            let i = s.index_of(q);
            if i == 0 {
                assert(p[0] == q);
            } else {
                assert(d[i - 1] == q);
            }
        }
        if r.contains(q) {
            let i = r.index_of(q);
            assert(p[i + 1] == q);
        }
        if p.contains(q) {
            let i = p.index_of(q);
            if i > 0 {
                assert(r[i - 1] == q);
            } else {
                assert(s[0] == q);
            }
        }
        if d.contains(q) {
            let i = d.index_of(q);
            assert(s[i + 1] == q);
        }
    }
}

/// Adding facts adds exactly those facts.
pub proof fn lemma_put_facts_contains(s: Seq<FactView>, fs: Seq<FactView>, n: int, q: FactView)
    requires
        0 <= n <= fs.len(),
    ensures
        put_facts(s, fs, n).contains(q) <==> (s.contains(q) || exists|i: int|
            0 <= i < n && #[trigger] fs[i] == q),
    decreases n,
{
    if n > 0 {
        lemma_put_facts_contains(s, fs, n - 1, q);
        lemma_put_fact_contains(put_facts(s, fs, n - 1), fs[n - 1], q);
    }
}

/// Adding a fact keeps the facts in order and without repetition.
pub proof fn lemma_put_fact_ascending(s: Seq<FactView>, f: FactView)
    requires
        facts_ascending(s),
    ensures
        facts_ascending(put_fact(s, f)),
    decreases s.len(),
{
    let p = put_fact(s, f);
    if s.len() > 0 && s[0] != f {
        if fact_before(f, s[0]) {
            assert forall|i: int, j: int| 0 <= i < j < p.len() implies fact_before(
                #[trigger] p[i],
                #[trigger] p[j],
            ) by {
                assert(p[j] == s[j - 1]);
                if i > 0 {
                    assert(p[i] == s[i - 1]);
                } else if j > 1 {
                    lemma_fact_transitive(f, s[0], s[j - 1]);
                }
            }
        } else {
            lemma_fact_total(f, s[0]);
            let d = s.drop_first();
            assert(forall|j: int| 0 <= j < d.len() ==> #[trigger] d[j] == s[j + 1]);
            lemma_put_fact_ascending(d, f);
            let q = put_fact(d, f);
            assert forall|i: int, j: int| 0 <= i < j < p.len() implies fact_before(
                #[trigger] p[i],
                #[trigger] p[j],
            ) by {
                assert(p[j] == q[j - 1]);
                if i > 0 {
                    assert(p[i] == q[i - 1]);
                } else {
                    lemma_put_fact_contains(d, f, q[j - 1]);
                    assert(q.contains(q[j - 1]));
                    if q[j - 1] != f {
                        let x = d.index_of(q[j - 1]);
                        assert(s[x + 1] == q[j - 1]);
                    }
                }
            }
        }
    }
}

/// Taking a fact out keeps the facts in order, and no fact goes but that one.
pub proof fn lemma_drop_fact(s: Seq<FactView>, f: FactView)
    requires
        facts_ascending(s),
    ensures
        facts_ascending(drop_fact(s, f)),
        forall|q: FactView| #[trigger]
            drop_fact(s, f).contains(q) <==> (q != f && s.contains(q)),
    decreases s.len(),
{
    let p = drop_fact(s, f);
    if s.len() > 0 {
        let d = s.drop_first();
        assert(forall|j: int| 0 <= j < d.len() ==> #[trigger] d[j] == s[j + 1]);
        lemma_fact_total(s[0], s[0]);
        if s[0] == f {
            assert forall|q: FactView| #[trigger] p.contains(q) <==> (q != f && s.contains(q)) by {
                if p.contains(q) {
                    let i = d.index_of(q);
                    assert(s[i + 1] == q);
                    assert(fact_before(s[0], s[i + 1]));
                }
                if q != f && s.contains(q) {
                    let i = s.index_of(q);
                    assert(d[i - 1] == q);
                }
            }
        } else {
            lemma_drop_fact(d, f);
            let r = drop_fact(d, f);
            assert forall|q: FactView| #[trigger] p.contains(q) <==> (q != f && s.contains(q)) by {
                if p.contains(q) {
                    let i = p.index_of(q);
                    if i > 0 {
                        assert(r[i - 1] == q);
                        assert(r.contains(q));
                        let x = d.index_of(q);
                        assert(s[x + 1] == q);
                    } else {
                        assert(s[0] == q);
                    }
                }
                if q != f && s.contains(q) {
                    let i = s.index_of(q);
                    if i > 0 {
                        assert(d[i - 1] == q);
                        assert(r.contains(q));
                        let x = r.index_of(q);
                        assert(p[x + 1] == q);
                    } else {
                        assert(p[0] == q);
                    }
                }
            }
            assert forall|i: int, j: int| 0 <= i < j < p.len() implies fact_before(
                #[trigger] p[i],
                #[trigger] p[j],
            ) by {
                assert(p[j] == r[j - 1]);
                if i > 0 {
                    assert(p[i] == r[i - 1]);
                } else {
                    assert(r.contains(r[j - 1]));
                    let x = d.index_of(r[j - 1]);
                    assert(s[x + 1] == r[j - 1]);
                }
            }
        }
    }
}

/// Taking out a fact that is there leaves one fact less.
pub proof fn lemma_drop_fact_len(s: Seq<FactView>, f: FactView)
    ensures
        s.contains(f) ==> drop_fact(s, f).len() == s.len() - 1,
        !s.contains(f) ==> drop_fact(s, f) == s,
    decreases s.len(),
{
    if s.len() > 0 {
        if s[0] == f {
            assert(s.contains(s[0]));
        } else {
            let d = s.drop_first();
            lemma_drop_fact_len(d, f);
            if s.contains(f) {
                let i = s.index_of(f);
                assert(d[i - 1] == f);
            }
            if d.contains(f) {
                let i = d.index_of(f);
                assert(s[i + 1] == f);
            } else {
                assert(drop_fact(s, f) =~= s);
            }
        }
    }
}

fn flatten(m: &StrMap<String>, out: &mut Vec<String>)
    ensures
        final(out).deep_view() == old(out).deep_view() + flattened(m.deep_view()),
{
    let ghost start = out.deep_view();
    let ghost mv = m.deep_view();
    let mut i: usize = 0;
    assert(start + flattened(mv).take(0) =~= start);
    while i < m.len()
        invariant
            i <= mv.len(),
            mv == m.deep_view(),
            out.deep_view() == start + flattened(mv).take(2 * i),
        decreases mv.len() - i,
    {
        push_to(out, m.key_at(i).clone());
        push_to(out, m.value_at(i).clone());
        assert(flattened(mv)[2 * i] == mv[i as int].0);
        assert(flattened(mv)[2 * i + 1] == mv[i as int].1);
        assert(out.deep_view() =~= start + flattened(mv).take(2 * (i + 1)));
        i = i + 1;
    }
    assert(flattened(mv).take(2 * i) =~= flattened(mv));
}

fn words_of(f: &Fact) -> (r: Vec<String>)
    ensures
        r.deep_view() == fact_words(f.deep_view()),
{
    let mut out: Vec<String> = empty_vec();
    match f {
        Fact::Step { record, step, principal } => {
            push_to(&mut out, record.clone());
            push_to(&mut out, step.clone());
            push_to(&mut out, principal.clone());
        },
        Fact::Effect { id, kind, args } => {
            push_to(&mut out, id.clone());
            push_to(&mut out, kind.clone());
            assert(out.deep_view() =~= seq![id@, kind@]);
            flatten(args, &mut out);
        },
        Fact::Edge { relation, from, to } => {
            push_to(&mut out, relation.clone());
            push_to(&mut out, from.clone());
            push_to(&mut out, to.clone());
        },
    }
    assert(out.deep_view() =~= fact_words(f.deep_view()));
    out
}

fn rank_of(f: &Fact) -> (r: usize)
    ensures
        r == fact_rank(f.deep_view()),
{
    match f {
        Fact::Step { .. } => 0,
        Fact::Effect { .. } => 1,
        Fact::Edge { .. } => 2,
    }
}

fn list_before(a: &Vec<String>, b: &Vec<String>) -> (r: bool)
    ensures
        r == words_before(a.deep_view(), b.deep_view()),
{
    let ghost x = a.deep_view();
    let ghost y = b.deep_view();
    let mut i: usize = 0;
    assert(x.skip(0) =~= x);
    assert(y.skip(0) =~= y);
    while i < a.len() && i < b.len()
        invariant
            i <= a.len(),
            i <= b.len(),
            x == a.deep_view(),
            y == b.deep_view(),
            words_before(x, y) == words_before(x.skip(i as int), y.skip(i as int)),
        decreases a.len() - i,
    {
        assert(x.skip(i as int)[0] == a[i as int]@);
        assert(y.skip(i as int)[0] == b[i as int]@);
        if a[i] != b[i] {
            return text_before(a[i].as_str(), b[i].as_str());
        }
        assert(x.skip(i as int).drop_first() =~= x.skip(i + 1));
        assert(y.skip(i as int).drop_first() =~= y.skip(i + 1));
        i = i + 1;
    }
    i < b.len()
}

/// Whether fact `a` comes before fact `b`.
fn comes_before(a: &Fact, b: &Fact) -> (r: bool)
    ensures
        r == fact_before(a.deep_view(), b.deep_view()),
{
    let p = rank_of(a);
    let q = rank_of(b);
    if p < q {
        return true;
    }
    if q < p {
        return false;
    }
    list_before(&words_of(a), &words_of(b))
}

/// A set of facts, kept in order.
#[derive(Debug)]
pub struct FactSet {
    items: Vec<Fact>,
}

impl DeepView for FactSet {
    type V = Seq<FactView>;

    closed spec fn deep_view(&self) -> Seq<FactView> {
        self.items.deep_view()
    }
}

impl FactSet {
    #[verifier::type_invariant]
    spec fn in_order(&self) -> bool {
        facts_ascending(self.items.deep_view())
    }

    pub fn new() -> (r: Self)
        ensures
            r.deep_view() == Seq::<FactView>::empty(),
    {
        let items: Vec<Fact> = empty_vec();
        FactSet { items }
    }

    /// The facts of a set are strictly increasing.
    pub fn ordered(&self)
        ensures
            facts_ascending(self.deep_view()),
    {
        proof {
            use_type_invariant(self);
        }
    }

    pub fn len(&self) -> (n: usize)
        ensures
            n == self.deep_view().len(),
    {
        self.items.len()
    }

    pub fn item_at(&self, i: usize) -> (f: &Fact)
        requires
            i < self.deep_view().len(),
        ensures
            f.deep_view() == self.deep_view()[i as int],
    {
        &self.items[i]
    }

    /// The facts, in order.
    pub fn to_vec(&self) -> (r: Vec<Fact>)
        ensures
            r.deep_view() == self.deep_view(),
    {
        self.items.dup()
    }

    pub fn contains(&self, f: &Fact) -> (r: bool)
        ensures
            r == self.deep_view().contains(f.deep_view()),
    {
        let ghost s = self.items.deep_view();
        let mut i: usize = 0;
        while i < self.items.len()
            invariant
                i <= self.items.len(),
                s == self.items.deep_view(),
                forall|j: int| 0 <= j < i ==> s[j] != f.deep_view(),
            decreases self.items.len() - i,
        {
            if self.items[i].same(f) {
                assert(s[i as int] == f.deep_view());
                return true;
            }
            i = i + 1;
        }
        false
    }

    /// Adds a fact.
    pub fn insert(&mut self, f: Fact)
        ensures
            final(self).deep_view() == put_fact(old(self).deep_view(), f.deep_view()),
    {
        proof {
            use_type_invariant(&*self);
            lemma_put_fact_ascending(self.items.deep_view(), f.deep_view());
        }
        let ghost s = self.deep_view();
        let ghost v = f.deep_view();
        let mut i: usize = 0;
        assert(s.skip(0) =~= s);
        assert(s.take(0) + put_fact(s, v) =~= put_fact(s, v));
        while i < self.items.len()
            invariant
                i <= self.items.len(),
                s == self.items.deep_view(),
                v == f.deep_view(),
                facts_ascending(s),
                put_fact(s, v) == s.take(i as int) + put_fact(s.skip(i as int), v),
            ensures
                i <= self.items.len(),
                put_fact(s, v) == s.take(i as int) + put_fact(s.skip(i as int), v),
                i < self.items.len() ==> s[i as int] != v && fact_before(v, s[i as int]),
            decreases self.items.len() - i,
        {
            let ghost rest = s.skip(i as int);
            assert(rest[0] == s[i as int]);
            if self.items[i].same(&f) {
                assert(put_fact(s, v) =~= s);
                return;
            }
            if comes_before(&f, &self.items[i]) {
                break;
            }
            assert(rest.drop_first() =~= s.skip(i + 1));
            assert(put_fact(s, v) =~= s.take(i + 1) + put_fact(s.skip(i + 1), v));
            i = i + 1;
        }
        let ghost rest = s.skip(i as int);
        assert(i < s.len() ==> rest[0] == s[i as int]);
        assert(put_fact(rest, v) =~= seq![v] + rest);
        let mut work: Vec<Fact> = empty_vec();
        std::mem::swap(&mut work, &mut self.items);
        work.insert(i, f);
        assert(work.deep_view() =~= put_fact(s, v));
        self.items = work;
    }

    /// Adds every fact of `fs`.
    pub fn insert_all(&mut self, fs: &Vec<Fact>)
        ensures
            final(self).deep_view() == put_facts(
                old(self).deep_view(),
                fs.deep_view(),
                fs.deep_view().len() as int,
            ),
    {
        let ghost s = self.deep_view();
        let mut i: usize = 0;
        while i < fs.len()
            invariant
                i <= fs.len(),
                self.deep_view() == put_facts(s, fs.deep_view(), i as int),
            decreases fs.len() - i,
        {
            self.insert(fs[i].dup());
            i = i + 1;
        }
    }

    /// Takes a fact out.
    pub fn remove(&mut self, f: &Fact)
        ensures
            final(self).deep_view() == drop_fact(old(self).deep_view(), f.deep_view()),
    {
        proof {
            use_type_invariant(&*self);
            lemma_drop_fact(self.items.deep_view(), f.deep_view());
        }
        let ghost s = self.deep_view();
        let ghost v = f.deep_view();
        let mut i: usize = 0;
        assert(s.skip(0) =~= s);
        assert(s.take(0) + drop_fact(s, v) =~= drop_fact(s, v));
        while i < self.items.len()
            invariant
                i <= self.items.len(),
                s == self.items.deep_view(),
                s == old(self).deep_view(),
                v == f.deep_view(),
                facts_ascending(drop_fact(s, v)),
                drop_fact(s, v) == s.take(i as int) + drop_fact(s.skip(i as int), v),
            decreases self.items.len() - i,
        {
            let ghost rest = s.skip(i as int);
            assert(rest[0] == s[i as int]);
            if self.items[i].same(f) {
                let mut work: Vec<Fact> = empty_vec();
                std::mem::swap(&mut work, &mut self.items);
                let _ = work.remove(i);
                assert(work.deep_view() =~= drop_fact(s, v));
                self.items = work;
                return;
            }
            assert(rest.drop_first() =~= s.skip(i + 1));
            assert(drop_fact(s, v) =~= s.take(i + 1) + drop_fact(s.skip(i + 1), v));
            i = i + 1;
        }
        assert(drop_fact(s, v) =~= s);
    }
}

impl Dup for FactSet {
    fn dup(&self) -> (r: Self) {
        proof {
            use_type_invariant(self);
        }
        FactSet { items: self.items.dup() }
    }
}

// ---------------------------------------------------------------------------
// Restriction to a set of facts
// ---------------------------------------------------------------------------
/// Whether `keep` holds a step fact of the record with this id.
pub open spec fn keeps_step(keep: Seq<FactView>, id: Str) -> bool {
    exists|i: int|
        0 <= i < keep.len() && (#[trigger] keep[i] matches FactView::Step { record, .. } && record
            == id)
}

/// Whether `keep` holds an effect fact with this id.
pub open spec fn keeps_effect(keep: Seq<FactView>, wanted: Str) -> bool {
    exists|i: int|
        0 <= i < keep.len() && (#[trigger] keep[i] matches FactView::Effect { id, .. } && id
            == wanted)
}

/// Whether `keep` holds this edge.
pub open spec fn keeps_edge(keep: Seq<FactView>, e: ObservedEdgeView) -> bool {
    keep.contains(FactView::Edge { relation: e.ty, from: e.from, to: e.to })
}

/// Those of the first `n` effects that are kept.
pub open spec fn kept_effects(
    es: Seq<EffectInstanceView>,
    keep: Seq<FactView>,
    n: int,
) -> Seq<EffectInstanceView>
    decreases n,
{
    if n <= 0 {
        Seq::empty()
    } else if keeps_effect(keep, es[n - 1].id) {
        kept_effects(es, keep, n - 1).push(es[n - 1])
    } else {
        kept_effects(es, keep, n - 1)
    }
}

/// A record with only the step and the effects that are kept.
pub open spec fn kept_record(r: RecordView, keep: Seq<FactView>) -> RecordView {
    RecordView {
        step: if keeps_step(keep, r.id) {
            r.step
        } else {
            None
        },
        effects: kept_effects(r.effects, keep, r.effects.len() as int),
        ..r
    }
}

/// The first `n` records as kept, without those of which nothing is left.
pub open spec fn kept_records(rs: Seq<RecordView>, keep: Seq<FactView>, n: int) -> Seq<RecordView>
    decreases n,
{
    if n <= 0 {
        Seq::empty()
    } else {
        let r = kept_record(rs[n - 1], keep);
        if r.step is None && r.effects.len() == 0 {
            kept_records(rs, keep, n - 1)
        } else {
            kept_records(rs, keep, n - 1).push(r)
        }
    }
}

/// Those of the first `n` edges that are kept and whose ends both are.
pub open spec fn kept_edges(
    edges: Seq<ObservedEdgeView>,
    keep: Seq<FactView>,
    records: Seq<RecordView>,
    n: int,
) -> Seq<ObservedEdgeView>
    decreases n,
{
    if n <= 0 {
        Seq::empty()
    } else if keeps_edge(keep, edges[n - 1]) && effect_named(records, edges[n - 1].from) is Some
        && effect_named(records, edges[n - 1].to) is Some {
        kept_edges(edges, keep, records, n - 1).push(edges[n - 1])
    } else {
        kept_edges(edges, keep, records, n - 1)
    }
}

/// What is left of an observation when only the facts in `keep` remain.
pub open spec fn restricted(obs: ObservationView, keep: Seq<FactView>) -> ObservationView {
    let records = kept_records(obs.records, keep, obs.records.len() as int);
    ObservationView {
        run_id: obs.run_id,
        planes: obs.planes,
        records,
        edges: kept_edges(obs.edges, keep, records, obs.edges.len() as int),
    }
}

impl FactSet {
    fn has_step(&self, id: &str) -> (r: bool)
        ensures
            r == keeps_step(self.deep_view(), id@),
    {
        let ghost s = self.items.deep_view();
        let mut i: usize = 0;
        while i < self.items.len()
            invariant
                i <= self.items.len(),
                s == self.items.deep_view(),
                forall|j: int|
                    0 <= j < i ==> !(#[trigger] s[j] matches FactView::Step { record, .. }
                        && record == id@),
            decreases self.items.len() - i,
        {
            assert(s[i as int] == self.items[i as int].deep_view());
            match &self.items[i] {
                Fact::Step { record, .. } => {
                    if same_text(record.as_str(), id) {
                        return true;
                    }
                },
                _ => {},
            }
            i = i + 1;
        }
        false
    }

    pub(crate) fn has_effect(&self, wanted: &str) -> (r: bool)
        ensures
            r == keeps_effect(self.deep_view(), wanted@),
    {
        let ghost s = self.items.deep_view();
        let mut i: usize = 0;
        while i < self.items.len()
            invariant
                i <= self.items.len(),
                s == self.items.deep_view(),
                forall|j: int|
                    0 <= j < i ==> !(#[trigger] s[j] matches FactView::Effect { id, .. } && id
                        == wanted@),
            decreases self.items.len() - i,
        {
            assert(s[i as int] == self.items[i as int].deep_view());
            match &self.items[i] {
                Fact::Effect { id, .. } => {
                    if same_text(id.as_str(), wanted) {
                        return true;
                    }
                },
                _ => {},
            }
            i = i + 1;
        }
        false
    }
}

impl Observation {
    /// The observation with only the facts in `keep`.
    pub fn restrict(&self, keep: &FactSet) -> (r: Observation)
        ensures
            r.deep_view() == restricted(self.deep_view(), keep.deep_view()),
    {
        let ghost obs = self.deep_view();
        let ghost kv = keep.deep_view();
        let mut records: Vec<Record> = empty_vec();
        let mut i: usize = 0;
        while i < self.records.len()
            invariant
                i <= self.records.len(),
                obs == self.deep_view(),
                kv == keep.deep_view(),
                records.deep_view() == kept_records(obs.records, kv, i as int),
            decreases self.records.len() - i,
        {
            let r = &self.records[i];
            let ghost rv = obs.records[i as int];
            assert(rv == r.deep_view());
            let step: Option<String> = if keep.has_step(r.id.as_str()) {
                r.step.dup()
            } else {
                None
            };
            let mut effects: Vec<EffectInstance> = empty_vec();
            let mut j: usize = 0;
            while j < r.effects.len()
                invariant
                    j <= r.effects.len(),
                    kv == keep.deep_view(),
                    effects.deep_view() == kept_effects(r.effects.deep_view(), kv, j as int),
                decreases r.effects.len() - j,
            {
                if keep.has_effect(r.effects[j].id.as_str()) {
                    push_to(&mut effects, r.effects[j].dup());
                }
                j = j + 1;
            }
            if step.is_some() || effects.len() > 0 {
                let kept = Record {
                    id: r.id.clone(),
                    plane: r.plane.clone(),
                    principal: r.principal.clone(),
                    step,
                    ts: r.ts.clone(),
                    effects,
                };
                assert(kept.deep_view() == kept_record(rv, kv));
                push_to(&mut records, kept);
            } else {
                assert(effects.deep_view().len() == 0);
            }
            i = i + 1;
        }
        let ghost rsv = records.deep_view();
        let mut edges: Vec<ObservedEdge> = empty_vec();
        let mut k: usize = 0;
        while k < self.edges.len()
            invariant
                k <= self.edges.len(),
                obs == self.deep_view(),
                kv == keep.deep_view(),
                rsv == records.deep_view(),
                edges.deep_view() == kept_edges(obs.edges, kv, rsv, k as int),
            decreases self.edges.len() - k,
        {
            let e = &self.edges[k];
            assert(obs.edges[k as int] == e.deep_view());
            let live = effects_of(&records);
            let fact = Fact::Edge { relation: e.ty.clone(), from: e.from.clone(), to: e.to.clone() };
            if keep.contains(&fact) && find_effect(&live, e.from.as_str()).is_some() && find_effect(
                &live,
                e.to.as_str(),
            ).is_some() {
                push_to(&mut edges, e.dup());
            }
            k = k + 1;
        }
        Observation { run_id: self.run_id.clone(), planes: self.planes.dup(), records, edges }
    }
}

impl Observation {
    /// The digest of an observation, given its canonical encoding.
    pub fn hash(canonical: &[u8]) -> (r: String)
        ensures
            r@ == digest_text(canonical@),
            is_char_boundary(encode_utf8(r@), 12),
    {
        digest(canonical)
    }
}

} // verus!
