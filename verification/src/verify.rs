//! The bounded search for a path of the net that explains an observation, and the verdict
//! that comes of it.

use crate::expand::{
    expand, expansion, found_by_record, found_by_transition, found_step, leads, lemma_expansion,
    lemma_outcome, lemma_start, looked_at, next_names, outcome, pledges_hold, refined, start_of,
    HaulView,
};
use crate::guess::{find_mark, mark_of, renamed_values};
use crate::matching::{check_edges, edge_failures, guard_holds};
use crate::net::{
    canonical_text, is_final_marking, joined_tokens, lemma_compiled_from, lemma_fired_len, net_ok,
    transition_ok, within, CompiledTransitionView, Failure, FailureView, Net, NetView,
};
use crate::observation::{
    all_effects, effect_named, lemma_preds_upto, ordered, preds_upto, steps_upto, Observation,
    ObservationView, RecordView,
};
use crate::ordered::{append_to, empty_vec, push_to, sorted_set, Dup, Same, StrSet};
use crate::search::{
    attempt, env_for, further, has_room, ids_of, is_next, lemma_max_growth, lemma_targets,
    max_growth, preds_done, preds_ok, record_check, room_for, score, state_ok, targets_of, AimView,
    AttemptView, CheckView, SearchState, StateView, WitnessStep, WitnessStepView,
};
use crate::states::{render_key, state_key};
use crate::text::{cat2, join, joined, Str};
use vstd::hash_set::StringHashSet;
use vstd::prelude::*;

verus! {

/// Whether the observed run is reachable in the declared workflow.
#[derive(Debug, Clone, Copy, PartialEq, Eq, Structural)]
pub enum Verdict {
    Accept,
    Reject,
}

impl DeepView for Verdict {
    type V = Verdict;

    open spec fn deep_view(&self) -> Verdict {
        *self
    }
}

impl Dup for Verdict {
    fn dup(&self) -> (r: Self) {
        *self
    }
}

/// The first recorded step that could come next and has no explanation.
#[derive(Debug)]
pub struct BlockedStep {
    pub step: String,
    pub record: String,
    pub principal: String,
}

/// What a [`BlockedStep`] holds.
pub struct BlockedStepView {
    pub step: Str,
    pub record: Str,
    pub principal: Str,
}

impl DeepView for BlockedStep {
    type V = BlockedStepView;

    open spec fn deep_view(&self) -> BlockedStepView {
        BlockedStepView {
            step: self.step.deep_view(),
            record: self.record.deep_view(),
            principal: self.principal.deep_view(),
        }
    }
}

impl Dup for BlockedStep {
    fn dup(&self) -> (r: Self) {
        BlockedStep {
            step: self.step.dup(),
            record: self.record.dup(),
            principal: self.principal.dup(),
        }
    }
}

/// What came of a verification: the verdict with a path that explains the run, or with what
/// keeps it from being explained and the longest part that is. `exhausted` tells that a limit
/// left something out, so that a rejection is no proof.
#[derive(Debug)]
pub struct VerifyOutcome {
    pub verdict: Verdict,
    pub witness: Option<Vec<WitnessStep>>,
    pub failures: Vec<Failure>,
    pub bound: usize,
    pub slack: usize,
    pub states_explored: usize,
    pub exhausted: bool,
    pub explained: Vec<WitnessStep>,
    pub observed_steps: usize,
    pub blocked: Option<BlockedStep>,
}

/// What a [`VerifyOutcome`] holds.
pub struct VerifyOutcomeView {
    pub verdict: Verdict,
    pub witness: Option<Seq<WitnessStepView>>,
    pub failures: Seq<FailureView>,
    pub bound: usize,
    pub slack: usize,
    pub states_explored: usize,
    pub exhausted: bool,
    pub explained: Seq<WitnessStepView>,
    pub observed_steps: usize,
    pub blocked: Option<BlockedStepView>,
}

impl DeepView for VerifyOutcome {
    type V = VerifyOutcomeView;

    open spec fn deep_view(&self) -> VerifyOutcomeView {
        VerifyOutcomeView {
            verdict: self.verdict,
            witness: self.witness.deep_view(),
            failures: self.failures.deep_view(),
            bound: self.bound,
            slack: self.slack,
            states_explored: self.states_explored,
            exhausted: self.exhausted,
            explained: self.explained.deep_view(),
            observed_steps: self.observed_steps,
            blocked: self.blocked.deep_view(),
        }
    }
}

impl Dup for VerifyOutcome {
    fn dup(&self) -> (r: Self) {
        VerifyOutcome {
            verdict: self.verdict,
            witness: self.witness.dup(),
            failures: self.failures.dup(),
            bound: self.bound,
            slack: self.slack,
            states_explored: self.states_explored,
            exhausted: self.exhausted,
            explained: self.explained.dup(),
            observed_steps: self.observed_steps,
            blocked: self.blocked.dup(),
        }
    }
}

/// How far to search: the longest path, the most unlogged steps in it, and the most states
/// looked at.
#[derive(Debug, Clone, Copy)]
pub struct VerifyOptions {
    pub bound: usize,
    pub slack: usize,
    pub max_states: usize,
}

/// The most states looked at, unless another number is given.
pub const MAX_STATES: usize = 200_000;

impl Default for VerifyOptions {
    fn default() -> (r: Self)
        ensures
            r == (VerifyOptions { bound: 16, slack: 0, max_states: MAX_STATES }),
    {
        VerifyOptions { bound: 16, slack: 0, max_states: MAX_STATES }
    }
}

/// How many records name a step.
pub open spec fn step_count(obs: ObservationView) -> nat {
    steps_upto(obs.records, obs.records.len() as int).len()
}

/// The length of a path that explains every recorded step, with `slack` unlogged ones.
pub open spec fn roomy_bound(obs: ObservationView, slack: int) -> int {
    (if step_count(obs) > 1 {
        step_count(obs) as int
    } else {
        1
    }) + slack
}

impl VerifyOptions {
    /// A bound that leaves room for every recorded step and for `slack` unlogged ones.
    pub fn for_observation(obs: &Observation, slack: usize) -> (r: Self)
        requires
            roomy_bound(obs.deep_view(), slack as int) <= usize::MAX,
        ensures
            r.bound == roomy_bound(obs.deep_view(), slack as int),
            r.slack == slack,
            r.max_states == MAX_STATES,
    {
        let n = obs.step_records().len();
        let most: usize = if n > 1 {
            n
        } else {
            1
        };
        VerifyOptions { bound: most + slack, slack, max_states: MAX_STATES }
    }
}

/// The transitions of a path, in order.
pub open spec fn path_text(path: Seq<WitnessStepView>) -> Str {
    joined(Seq::new(path.len(), |i: int| path[i].transition), " -> "@)
}

fn render_path(path: &Vec<WitnessStep>) -> (r: String)
    ensures
        r@ == path_text(path.deep_view()),
{
    let ghost all = Seq::new(path.deep_view().len(), |i: int| path.deep_view()[i].transition);
    let mut names: Vec<String> = empty_vec();
    let mut i: usize = 0;
    while i < path.len()
        invariant
            i <= path.len(),
            all == Seq::new(path.deep_view().len(), |i: int| path.deep_view()[i].transition),
            names.deep_view() =~= all.take(i as int),
        decreases path.len() - i,
    {
        push_to(&mut names, path[i].transition.clone());
        i = i + 1;
    }
    assert(all.take(i as int) =~= all);
    join(&names, " -> ")
}

impl VerifyOutcome {
    /// Whether the run is reachable.
    pub fn accepted(&self) -> (r: bool)
        ensures
            r == (self.deep_view().verdict == Verdict::Accept),
    {
        self.verdict == Verdict::Accept
    }

    /// The transitions of the witness, in order.
    pub fn witness_path(&self) -> (r: String)
        ensures
            r@ == (match self.deep_view().witness {
                Some(path) => path_text(path),
                None => Seq::empty(),
            }),
    {
        match &self.witness {
            Some(path) => render_path(path),
            None => {
                let r = String::new();
                assert(r@ =~= Seq::<char>::empty());
                r
            },
        }
    }

    /// The transitions of the part that is explained, in order.
    pub fn explained_path(&self) -> (r: String)
        ensures
            r@ == path_text(self.deep_view().explained),
    {
        render_path(&self.explained)
    }
}

// ---------------------------------------------------------------------------
// The log of failures
// ---------------------------------------------------------------------------
/// The failures found at the states that have come furthest.
pub struct LogView {
    pub score: (nat, nat),
    pub items: Seq<FailureView>,
}

/// The log with one more failure: one from a state that has come further replaces all others,
/// and one that is there is not added again.
pub open spec fn logged(log: LogView, sc: (nat, nat), f: FailureView) -> LogView {
    if further(sc, log.score) {
        LogView { score: sc, items: seq![f] }
    } else if sc == log.score && !log.items.contains(f) {
        LogView { score: log.score, items: log.items.push(f) }
    } else {
        log
    }
}

/// The log with the first `n` of `fs` added.
pub open spec fn logged_all(log: LogView, sc: (nat, nat), fs: Seq<FailureView>, n: int) -> LogView
    decreases n,
{
    if n <= 0 {
        log
    } else {
        logged(logged_all(log, sc, fs, n - 1), sc, fs[n - 1])
    }
}

struct FailureLog {
    score: (usize, usize),
    items: Vec<Failure>,
}

impl FailureLog {
    spec fn log_view(&self) -> LogView {
        LogView {
            score: (self.score.0 as nat, self.score.1 as nat),
            items: self.items.deep_view(),
        }
    }

    fn push(&mut self, sc: (usize, usize), f: Failure)
        ensures
            final(self).log_view() == logged(
                old(self).log_view(),
                (sc.0 as nat, sc.1 as nat),
                f.deep_view(),
            ),
    {
        if sc.0 > self.score.0 || (sc.0 == self.score.0 && sc.1 > self.score.1) {
            self.score = sc;
            self.items = empty_vec();
            push_to(&mut self.items, f);
            assert(self.items.deep_view() =~= seq![f.deep_view()]);
            return;
        }
        if sc.0 == self.score.0 && sc.1 == self.score.1 && !self.has(&f) {
            push_to(&mut self.items, f);
        }
    }

    fn has(&self, f: &Failure) -> (r: bool)
        ensures
            r == self.log_view().items.contains(f.deep_view()),
    {
        let ghost v = self.items.deep_view();
        let mut i: usize = 0;
        while i < self.items.len()
            invariant
                i <= self.items.len(),
                v == self.items.deep_view(),
                forall|j: int| 0 <= j < i ==> v[j] != f.deep_view(),
            decreases self.items.len() - i,
        {
            if self.items[i].same(f) {
                assert(v[i as int] == f.deep_view());
                return true;
            }
            i = i + 1;
        }
        false
    }

    fn push_all(&mut self, sc: (usize, usize), fs: &Vec<Failure>)
        ensures
            final(self).log_view() == logged_all(
                old(self).log_view(),
                (sc.0 as nat, sc.1 as nat),
                fs.deep_view(),
                fs.deep_view().len() as int,
            ),
    {
        let ghost start = self.log_view();
        let mut i: usize = 0;
        while i < fs.len()
            invariant
                i <= fs.len(),
                self.log_view() == logged_all(
                    start,
                    (sc.0 as nat, sc.1 as nat),
                    fs.deep_view(),
                    i as int,
                ),
            decreases fs.len() - i,
        {
            self.push(sc, fs[i].dup());
            i = i + 1;
        }
    }
}

// ---------------------------------------------------------------------------
// The search
// ---------------------------------------------------------------------------
/// Whether every flag is set.
pub open spec fn all_set(v: Seq<bool>) -> bool {
    forall|i: int| 0 <= i < v.len() ==> v[i]
}

/// The ids of all observed effects, in order.
pub open spec fn effect_set(obs: ObservationView) -> Seq<Str> {
    sorted_set(ids_of(all_effects(obs.records)))
}

/// Whether a state explains the whole observation in a final marking.
pub open spec fn accepting(net: NetView, obs: ObservationView, s: StateView) -> bool {
    &&& all_set(s.consumed)
    &&& s.matched == effect_set(obs)
    &&& is_final_marking(net.finals, s.marking)
}

/// The order of the records; none where a cycle makes that impossible.
pub open spec fn order_of(obs: ObservationView) -> Seq<Seq<usize>> {
    match ordered(obs) {
        Ok(preds) => preds,
        Err(_) => Seq::new(obs.records.len(), |i: int| Seq::<usize>::empty()),
    }
}

/// The state before any step.
pub open spec fn initial_state(net: NetView, obs: ObservationView) -> StateView {
    StateView {
        marking: net.initial,
        consumed: Seq::new(obs.records.len(), |i: int| obs.records[i].step is None),
        matched: Seq::empty(),
        slack_used: 0,
        depth: 0,
        fresh: 0,
        path: Seq::empty(),
        pledges: Seq::empty(),
    }
}

/// What the search finds from a state: by observed steps, and by unlogged ones where there is
/// slack left.
pub open spec fn expanded(
    net: NetView,
    obs: ObservationView,
    slack: nat,
    s: StateView,
) -> HaulView {
    expansion(net, obs, order_of(obs), slack, s)
}

/// Where the search stands: the states yet to be looked at, the last one first; the keys of
/// those that were expanded; how many were looked at; the one that has come furthest; the
/// failures found; and whether something was left out on the way.
pub struct QuestView {
    pub stack: Seq<StateView>,
    pub seen: Set<Str>,
    pub states: nat,
    pub best: StateView,
    pub log: LogView,
    pub cut: bool,
}

/// How the search ended, and whether it ended before everything had been looked at.
pub struct FindView {
    pub found: Option<StateView>,
    pub quest: QuestView,
    pub exhausted: bool,
}

/// The search from here on, depth first.
pub open spec fn searched(
    net: NetView,
    obs: ObservationView,
    opts: VerifyOptions,
    q: QuestView,
) -> FindView
    decreases opts.max_states + 1 - q.states,
{
    if q.stack.len() == 0 {
        FindView { found: None, quest: q, exhausted: q.cut }
    } else {
        let s = q.stack.last();
        let popped = QuestView { stack: q.stack.drop_last(), states: q.states + 1, ..q };
        if popped.states > opts.max_states {
            FindView { found: None, quest: popped, exhausted: true }
        } else if s.depth > opts.bound || q.seen.contains(state_key(mark_of(net, obs), s)) {
            searched(net, obs, opts, popped)
        } else {
            let best = if further(score(s), score(q.best)) {
                s
            } else {
                q.best
            };
            let entered = QuestView {
                seen: q.seen.insert(state_key(mark_of(net, obs), s)),
                best,
                ..popped
            };
            if accepting(net, obs, s) {
                FindView { found: Some(s), quest: entered, exhausted: false }
            } else {
                let haul = expanded(net, obs, opts.slack as nat, s);
                searched(
                    net,
                    obs,
                    opts,
                    QuestView {
                        stack: entered.stack + haul.states,
                        log: logged_all(q.log, score(s), haul.faults, haul.faults.len() as int),
                        cut: q.cut || haul.cut,
                        ..entered
                    },
                )
            }
        }
    }
}

/// Where the search begins.
pub open spec fn first_quest(net: NetView, obs: ObservationView) -> QuestView {
    QuestView {
        stack: seq![initial_state(net, obs)],
        seen: Set::empty(),
        states: 0,
        best: initial_state(net, obs),
        log: LogView { score: (0, 0), items: Seq::empty() },
        cut: false,
    }
}

/// The whole search.
#[verifier::opaque]
pub open spec fn search_result(net: NetView, obs: ObservationView, opts: VerifyOptions) -> FindView {
    searched(net, obs, opts, first_quest(net, obs))
}

// ---------------------------------------------------------------------------
// The outcome
// ---------------------------------------------------------------------------
/// The steps among the first `n` records that a state does not explain.
pub open spec fn unexplained_steps(
    rs: Seq<RecordView>,
    consumed: Seq<bool>,
    n: int,
) -> Seq<FailureView>
    decreases n,
{
    if n <= 0 {
        Seq::empty()
    } else if !consumed[n - 1] && rs[n - 1].step is Some {
        unexplained_steps(rs, consumed, n - 1).push(
            FailureView::StepNotExplained {
                step: rs[n - 1].step->Some_0,
                record: rs[n - 1].id,
            },
        )
    } else {
        unexplained_steps(rs, consumed, n - 1)
    }
}

/// Those of the first `n` effects that a state does not explain.
pub open spec fn unexplained_effects(
    obs: ObservationView,
    ids: Seq<Str>,
    matched: Seq<Str>,
    n: int,
) -> Seq<FailureView>
    decreases n,
{
    if n <= 0 {
        Seq::empty()
    } else {
        let rest = unexplained_effects(obs, ids, matched, n - 1);
        if matched.contains(ids[n - 1]) {
            rest
        } else {
            match effect_named(obs.records, ids[n - 1]) {
                Some(e) => rest.push(
                    FailureView::UnmatchedEffect {
                        effect: ids[n - 1],
                        kind: e.kind,
                        detail: "no transition of the workflow emits it on any accepting path"@,
                    },
                ),
                None => rest,
            }
        }
    }
}

/// What is told of a rejection: the failures that the search found; where it found none, the
/// steps and effects that the best state leaves unexplained; and where there are none, the
/// marking that it stops at.
pub open spec fn told_failures(
    net: NetView,
    obs: ObservationView,
    log: LogView,
    best: StateView,
) -> Seq<FailureView> {
    let left = unexplained_steps(obs.records, best.consumed, obs.records.len() as int)
        + unexplained_effects(obs, effect_set(obs), best.matched, effect_set(obs).len() as int);
    if log.items.len() > 0 {
        log.items
    } else if left.len() > 0 {
        left
    } else {
        seq![
            FailureView::NoFinalMarking {
                detail: "every path consistent with the observation stops at marking "@
                    + canonical_text(net.place_names, best.marking),
            },
        ]
    }
}

/// The first record at or after position `i` that could come next and is not explained.
pub open spec fn blocked_from(
    obs: ObservationView,
    preds: Seq<Seq<usize>>,
    s: StateView,
    i: int,
) -> Option<BlockedStepView>
    decreases obs.records.len() - i,
{
    if i < 0 || i >= obs.records.len() {
        None
    } else if is_next(obs, preds, s, i) {
        Some(
            BlockedStepView {
                step: obs.records[i].step->Some_0,
                record: obs.records[i].id,
                principal: obs.records[i].principal,
            },
        )
    } else {
        blocked_from(obs, preds, s, i + 1)
    }
}

/// The outcome of a verification.
pub open spec fn verified(
    net: NetView,
    obs: ObservationView,
    opts: VerifyOptions,
) -> VerifyOutcomeView {
    let edges = edge_failures(net.spec, obs, obs.edges.len() as int);
    let blank = VerifyOutcomeView {
        verdict: Verdict::Reject,
        witness: None,
        failures: edges,
        bound: opts.bound,
        slack: opts.slack,
        states_explored: 0,
        exhausted: false,
        explained: Seq::empty(),
        observed_steps: step_count(obs) as usize,
        blocked: None,
    };
    if edges.len() > 0 {
        blank
    } else {
        let r = search_result(net, obs, opts);
        match r.found {
            Some(s) => VerifyOutcomeView {
                verdict: Verdict::Accept,
                witness: Some(s.path),
                failures: Seq::empty(),
                states_explored: r.quest.states as usize,
                explained: s.path,
                ..blank
            },
            None => VerifyOutcomeView {
                failures: told_failures(net, obs, r.quest.log, r.quest.best),
                states_explored: r.quest.states as usize,
                exhausted: r.exhausted,
                explained: r.quest.best.path,
                blocked: blocked_from(obs, order_of(obs), r.quest.best, 0),
                ..blank
            },
        }
    }
}

/// Whether the counters of a search cannot overflow: a path has at most as many steps as states
/// are looked at, and each step mints a limited number of fresh values.
pub open spec fn fits(net: NetView, opts: VerifyOptions) -> bool {
    opts.max_states < usize::MAX && opts.max_states * max_growth(
        net.transitions,
        net.transitions.len() as int,
    ) <= usize::MAX
}

/// Whether a search of this net with these options can be counted.
pub fn can_search(net: &Net, options: &VerifyOptions) -> (r: bool)
    ensures
        r == fits(net.deep_view(), *options),
{
    options.max_states < usize::MAX && has_room(net, options.max_states)
}

// ---------------------------------------------------------------------------
// What every state of the search keeps
// ---------------------------------------------------------------------------
/// What holds of every state that the search meets.
pub open spec fn met_ok(net: NetView, obs: ObservationView, slack: nat, s: StateView) -> bool {
    &&& state_ok(net, obs, s)
    &&& pledges_hold(s.pledges)
    &&& s.slack_used <= slack
    &&& s.slack_used <= s.depth
    &&& s.fresh <= s.depth * max_growth(net.transitions, net.transitions.len() as int)
}

/// The order of the records is one of the observation.
pub proof fn lemma_order_ok(obs: ObservationView)
    requires
        obs.records.len() <= usize::MAX,
    ensures
        preds_ok(order_of(obs), obs),
{
    let n = obs.records.len() as int;
    let preds = order_of(obs);
    assert forall|i: int| 0 <= i < preds.len() implies within(#[trigger] preds[i], n) by {
        lemma_preds_upto(obs, i, n);
        match ordered(obs) {
            Ok(p) => {
                assert(preds[i] == preds_upto(obs, i, n));
            },
            Err(_) => {},
        }
    }
}

/// What a firing that was found keeps.
proof fn lemma_led_met(
    net: NetView,
    obs: ObservationView,
    slack: nat,
    s: StateView,
    t: CompiledTransitionView,
    aims: Seq<AimView>,
    next: StateView,
)
    requires
        net_ok(net),
        met_ok(net, obs, slack, s),
        leads(net, obs, mark_of(net, obs), s, t, aims, next),
        exists|i: int| 0 <= i < net.transitions.len() && #[trigger] net.transitions[i] == t,
        forall|j: int|
            0 <= j < aims.len() ==> ((#[trigger] aims[j]) matches AimView::Record(ix) ==> 0 <= ix
                < obs.records.len()),
        forall|j: int| 0 <= j < aims.len() && (#[trigger] aims[j]) is Target ==> s.slack_used < slack,
    ensures
        met_ok(net, obs, slack, next),
        next.depth == s.depth + 1,
{
    let mark = mark_of(net, obs);
    let (k, j) = choose|k: int, j: int|
        0 <= k < looked_at(s, t).len() && 0 <= j < aims.len() && outcome(
            net,
            obs,
            mark,
            s,
            t,
            #[trigger] looked_at(s, t)[k],
            #[trigger] aims[j],
        ).states.contains(next);
    let choice = looked_at(s, t)[k];
    let aim = aims[j];
    let r = lemma_outcome(net, obs, mark, s, t, choice, aim, next);
    let start = start_of(s, t, choice, aim);
    let names = next_names(mark, start, t.binds.len());
    lemma_start(s, t, choice, aim);
    let i = choose|i: int| 0 <= i < net.transitions.len() && #[trigger] net.transitions[i] == t;
    let g = max_growth(net.transitions, net.transitions.len() as int);
    lemma_max_growth(net.transitions, net.transitions.len() as int, i);
    assert((s.depth + 1) * g == s.depth * g + g) by (nonlinear_arith);
    let c = refined(r, s);
    lemma_attempt(net, obs, c, t, choice, aim, renamed_values(r, names));
}

/// What a firing does to the counts, and that the guards still hold.
pub proof fn lemma_attempt(
    net: NetView,
    obs: ObservationView,
    s: StateView,
    t: CompiledTransitionView,
    choice: Seq<usize>,
    aim: AimView,
    names: Seq<Str>,
)
    requires
        net_ok(net),
        state_ok(net, obs, s),
        transition_ok(t, net.place_names.len() as int),
        aim matches AimView::Record(ix) ==> 0 <= ix < obs.records.len(),
        pledges_hold(s.pledges),
    ensures
        attempt(net, obs, s, t, choice, aim, names) matches AttemptView::Go(x) ==> {
            &&& state_ok(net, obs, x)
            &&& pledges_hold(x.pledges)
            &&& x.depth == s.depth + 1
            &&& x.slack_used == s.slack_used + (if aim is Record {
                0nat
            } else {
                1nat
            })
        },
{
    match attempt(net, obs, s, t, choice, aim, names) {
        AttemptView::Go(x) => {
            let base = joined_tokens(
                s.marking,
                t.consumes,
                choice,
                t.consumes.len() as int,
            )->Some_0;
            let env = env_for(net, obs, t, aim, s.matched, base, names)->Ok_0.0;
            lemma_fired_len(net, s.marking, t, choice, env);
            assert forall|i: int| 0 <= i < x.pledges.len() implies guard_holds(
                (#[trigger] x.pledges[i]).0,
                x.pledges[i].1,
            ) by {
                if i < s.pledges.len() {
                    assert(x.pledges[i] == s.pledges[i]);
                }
            }
        },
        _ => {},
    }
}

/// A step that was found keeps what holds of every state that the search meets, and is one step
/// deeper.
pub proof fn lemma_found_met(
    net: NetView,
    obs: ObservationView,
    slack: nat,
    s: StateView,
    next: StateView,
)
    requires
        net_ok(net),
        met_ok(net, obs, slack, s),
        found_step(net, obs, order_of(obs), slack, s, next),
    ensures
        met_ok(net, obs, slack, next),
        next.depth == s.depth + 1,
{
    let mark = mark_of(net, obs);
    let preds = order_of(obs);
    if exists|ix: int|
        0 <= ix < obs.records.len() && #[trigger] found_by_record(
            net,
            obs,
            mark,
            preds,
            s,
            next,
            ix,
        ) {
        let ix = choose|ix: int|
            0 <= ix < obs.records.len() && #[trigger] found_by_record(
                net,
                obs,
                mark,
                preds,
                s,
                next,
                ix,
            );
        match record_check(net, obs, preds, s, ix) {
            CheckView::Ready(t) => {
                lemma_compiled_from(net.transitions, obs.records[ix].step->Some_0, 0);
                let aims = seq![AimView::Record(ix)];
                lemma_led_met(net, obs, slack, s, t, aims, next);
            },
            _ => {},
        }
    } else {
        let ti = choose|ti: int|
            0 <= ti < net.transitions.len() && #[trigger] found_by_transition(
                net,
                obs,
                mark,
                s,
                next,
                ti,
            );
        let t = net.transitions[ti];
        let aims = targets_of(obs, s, t);
        assert forall|j: int| 0 <= j < aims.len() implies (#[trigger] aims[j]) is Target by {
            lemma_targets(obs, s, t, j);
        }
        lemma_led_met(net, obs, slack, s, t, aims, next);
    }
}

proof fn lemma_expanded_met(net: NetView, obs: ObservationView, slack: nat, s: StateView)
    requires
        net_ok(net),
        met_ok(net, obs, slack, s),
    ensures
        forall|i: int|
            0 <= i < expanded(net, obs, slack, s).states.len() ==> {
                let next = #[trigger] expanded(net, obs, slack, s).states[i];
                met_ok(net, obs, slack, next) && next.depth == s.depth + 1
            },
{
    let all = expanded(net, obs, slack, s).states;
    assert forall|i: int| 0 <= i < all.len() implies {
        let next = #[trigger] all[i];
        met_ok(net, obs, slack, next) && next.depth == s.depth + 1
    } by {
        assert(all.contains(all[i]));
        lemma_expansion(net, obs, order_of(obs), slack, s, all[i]);
        lemma_found_met(net, obs, slack, s, all[i]);
    }
}

// ---------------------------------------------------------------------------
// Verification
// ---------------------------------------------------------------------------
fn all_true(v: &Vec<bool>) -> (r: bool)
    ensures
        r == all_set(v@),
{
    let mut i: usize = 0;
    while i < v.len()
        invariant
            i <= v.len(),
            forall|j: int| 0 <= j < i ==> v@[j],
        decreases v.len() - i,
    {
        if !v[i] {
            return false;
        }
        i = i + 1;
    }
    true
}

fn effect_ids(obs: &Observation) -> (r: StrSet)
    ensures
        r.deep_view() == effect_set(obs.deep_view()),
{
    let es = obs.effects();
    let ghost ev = es.deep_view();
    let mut ids: Vec<String> = empty_vec();
    let mut i: usize = 0;
    while i < es.len()
        invariant
            i <= es.len(),
            ev == es.deep_view(),
            ids.deep_view() =~= ids_of(ev).take(i as int),
        decreases es.len() - i,
    {
        push_to(&mut ids, es[i].id.clone());
        i = i + 1;
    }
    assert(ids_of(ev).take(i as int) =~= ids_of(ev));
    let mut out = StrSet::new();
    out.insert_all(&ids);
    out
}

fn record_order(obs: &Observation) -> (r: Vec<Vec<usize>>)
    ensures
        r.deep_view() == order_of(obs.deep_view()),
{
    match obs.order() {
        Ok(p) => p,
        Err(_) => {
            let ghost all = Seq::new(
                obs.deep_view().records.len(),
                |i: int| Seq::<usize>::empty(),
            );
            let mut out: Vec<Vec<usize>> = empty_vec();
            let mut i: usize = 0;
            while i < obs.records.len()
                invariant
                    i <= obs.records.len(),
                    all == Seq::new(
                        obs.deep_view().records.len(),
                        |i: int| Seq::<usize>::empty(),
                    ),
                    out.deep_view() =~= all.take(i as int),
                decreases obs.records.len() - i,
            {
                push_to(&mut out, empty_vec());
                i = i + 1;
            }
            assert(all.take(i as int) =~= all);
            out
        },
    }
}

fn start_state(net: &Net, obs: &Observation) -> (r: SearchState)
    ensures
        r.deep_view() == initial_state(net.deep_view(), obs.deep_view()),
{
    let mut consumed: Vec<bool> = Vec::new();
    let ghost all = initial_state(net.deep_view(), obs.deep_view()).consumed;
    let mut i: usize = 0;
    while i < obs.records.len()
        invariant
            i <= obs.records.len(),
            all == initial_state(net.deep_view(), obs.deep_view()).consumed,
            consumed@ =~= all.take(i as int),
        decreases obs.records.len() - i,
    {
        assert(obs.deep_view().records[i as int] == obs.records[i as int].deep_view());
        consumed.push(obs.records[i].step.is_none());
        i = i + 1;
    }
    assert(all.take(i as int) =~= all);
    SearchState {
        marking: net.initial.dup(),
        consumed,
        matched: StrSet::new(),
        slack_used: 0,
        depth: 0,
        fresh: 0,
        path: empty_vec(),
        pledges: empty_vec(),
    }
}

struct Quest {
    stack: Vec<SearchState>,
    seen: StringHashSet,
    states: usize,
    best: SearchState,
    log: FailureLog,
    cut: bool,
}

impl Quest {
    spec fn quest_view(&self) -> QuestView {
        QuestView {
            stack: self.stack.deep_view(),
            seen: self.seen@,
            states: self.states as nat,
            best: self.best.deep_view(),
            log: self.log.log_view(),
            cut: self.cut,
        }
    }
}

/// What the search keeps of where it stands.
pub open spec fn quest_ok(
    net: NetView,
    obs: ObservationView,
    opts: VerifyOptions,
    q: QuestView,
) -> bool {
    &&& q.states <= opts.max_states
    &&& state_ok(net, obs, q.best)
    &&& forall|i: int|
        0 <= i < q.stack.len() ==> met_ok(net, obs, opts.slack as nat, #[trigger] q.stack[i])
            && q.stack[i].depth <= q.states
}

fn is_further(a: (usize, usize), b: (usize, usize)) -> (r: bool)
    ensures
        r == further((a.0 as nat, a.1 as nat), (b.0 as nat, b.1 as nat)),
{
    a.0 > b.0 || (a.0 == b.0 && a.1 > b.1)
}

proof fn lemma_room(net: NetView, opts: VerifyOptions, depth: nat, fresh: nat)
    requires
        fits(net, opts),
        depth + 1 <= opts.max_states,
        fresh <= depth * max_growth(net.transitions, net.transitions.len() as int),
    ensures
        room_for(net, fresh as int),
{
    let g = max_growth(net.transitions, net.transitions.len() as int);
    let m = opts.max_states as nat;
    assert(depth * g + g <= m * g) by (nonlinear_arith)
        requires
            depth + 1 <= m,
    ;
}

fn pop_state(stack: &mut Vec<SearchState>) -> (r: Option<SearchState>)
    ensures
        match r {
            Some(s) => old(stack).deep_view().len() > 0 && s.deep_view() == old(
                stack,
            ).deep_view().last() && final(stack).deep_view() == old(stack).deep_view().drop_last(),
            None => old(stack).deep_view().len() == 0 && final(stack).deep_view() == old(
                stack,
            ).deep_view(),
        },
{
    let ghost before_pop = stack.deep_view();
    let r = stack.pop();
    proof {
        if r is Some {
            assert(stack.deep_view() =~= before_pop.drop_last());
        }
    }
    r
}

/// The state that explains the observation, where the search finds one; whether the search ended
/// before everything had been looked at.
fn run_search(
    net: &Net,
    obs: &Observation,
    mark: &str,
    preds: &Vec<Vec<usize>>,
    effects: &StrSet,
    opts: VerifyOptions,
    quest: &mut Quest,
) -> (r: (Option<SearchState>, bool))
    requires
        net_ok(net.deep_view()),
        fits(net.deep_view(), opts),
        mark@ == mark_of(net.deep_view(), obs.deep_view()),
        preds.deep_view() == order_of(obs.deep_view()),
        preds_ok(preds.deep_view(), obs.deep_view()),
        effects.deep_view() == effect_set(obs.deep_view()),
        quest_ok(net.deep_view(), obs.deep_view(), opts, old(quest).quest_view()),
    ensures
        (FindView {
            found: r.0.deep_view(),
            quest: final(quest).quest_view(),
            exhausted: r.1,
        }) == searched(net.deep_view(), obs.deep_view(), opts, old(quest).quest_view()),
        state_ok(net.deep_view(), obs.deep_view(), final(quest).quest_view().best),
{
    let ghost nv = net.deep_view();
    let ghost ov = obs.deep_view();
    let ghost goal = searched(nv, ov, opts, quest.quest_view());
    loop
        invariant
            nv == net.deep_view(),
            ov == obs.deep_view(),
            net_ok(nv),
            fits(nv, opts),
            mark@ == mark_of(nv, ov),
            preds.deep_view() == order_of(ov),
            preds_ok(preds.deep_view(), ov),
            effects.deep_view() == effect_set(ov),
            quest_ok(nv, ov, opts, quest.quest_view()),
            goal == searched(nv, ov, opts, quest.quest_view()),
            goal == searched(nv, ov, opts, old(quest).quest_view()),
        decreases opts.max_states + 1 - quest.states,
    {
        let ghost q = quest.quest_view();
        let s = match pop_state(&mut quest.stack) {
            Some(s) => s,
            None => {
                assert(quest.quest_view().stack =~= q.stack);
                return (None, quest.cut);
            },
        };
        let ghost sv = s.deep_view();
        assert(sv == q.stack[q.stack.len() - 1]);
        quest.states = quest.states + 1;
        if quest.states > opts.max_states {
            return (None, true);
        }
        if s.depth > opts.bound {
            continue ;
        }
        let key = render_key(mark, &s);
        if !quest.seen.insert(key) {
            assert(quest.seen@ =~= q.seen);
            continue ;
        }
        let sc = s.score();
        if is_further(sc, quest.best.score()) {
            quest.best = s.dup();
        }
        if all_true(&s.consumed) && s.matched.same(effects) && net.is_final(&s.marking) {
            return (Some(s), false);
        }
        proof {
            lemma_room(nv, opts, sv.depth, sv.fresh);
            lemma_expanded_met(nv, ov, opts.slack as nat, sv);
        }
        let ghost rest = quest.stack.deep_view();
        let ghost log0 = quest.log.log_view();
        let haul = expand(net, obs, mark, preds, opts.slack, &s);
        quest.cut = quest.cut || haul.cut;
        quest.log.push_all(sc, &haul.faults);
        append_to(&mut quest.stack, haul.states);
        proof {
            let now = quest.quest_view();
            assert forall|i: int| 0 <= i < now.stack.len() implies met_ok(
                nv,
                ov,
                opts.slack as nat,
                #[trigger] now.stack[i],
            ) && now.stack[i].depth <= now.states by {
                if i < rest.len() {
                    assert(now.stack[i] == q.stack[i]);
                } else {
                    assert(now.stack[i] == expanded(nv, ov, opts.slack as nat, sv).states[i
                        - rest.len()]);
                }
            }
        }
    }
}

fn list_unexplained(obs: &Observation, effects: &StrSet, best: &SearchState) -> (r: Vec<Failure>)
    requires
        best.consumed.len() == obs.records.len(),
        effects.deep_view() == effect_set(obs.deep_view()),
    ensures
        r.deep_view() == unexplained_steps(
            obs.deep_view().records,
            best.deep_view().consumed,
            obs.deep_view().records.len() as int,
        ) + unexplained_effects(
            obs.deep_view(),
            effect_set(obs.deep_view()),
            best.deep_view().matched,
            effect_set(obs.deep_view()).len() as int,
        ),
{
    let ghost ov = obs.deep_view();
    let ghost bv = best.deep_view();
    let ghost ids = effect_set(ov);
    let mut out: Vec<Failure> = empty_vec();
    let mut i: usize = 0;
    while i < obs.records.len()
        invariant
            i <= obs.records.len(),
            best.consumed.len() == obs.records.len(),
            ov == obs.deep_view(),
            bv == best.deep_view(),
            out.deep_view() == unexplained_steps(ov.records, bv.consumed, i as int),
        decreases obs.records.len() - i,
    {
        let r = &obs.records[i];
        assert(ov.records[i as int] == r.deep_view());
        if !best.consumed[i] {
            match &r.step {
                Some(step) => {
                    push_to(
                        &mut out,
                        Failure::StepNotExplained { step: step.clone(), record: r.id.clone() },
                    );
                },
                None => {},
            }
        }
        i = i + 1;
    }
    let ghost steps = out.deep_view();
    let mut k: usize = 0;
    assert(steps + unexplained_effects(ov, ids, bv.matched, 0) =~= steps);
    while k < effects.len()
        invariant
            k <= ids.len(),
            ov == obs.deep_view(),
            bv == best.deep_view(),
            ids == effects.deep_view(),
            out.deep_view() == steps + unexplained_effects(ov, ids, bv.matched, k as int),
        decreases ids.len() - k,
    {
        let id = effects.item_at(k);
        if !best.matched.contains(id.as_str()) {
            match obs.effect(id.as_str()) {
                Some(e) => {
                    push_to(
                        &mut out,
                        Failure::UnmatchedEffect {
                            effect: id.clone(),
                            kind: e.kind.clone(),
                            detail:
                                "no transition of the workflow emits it on any accepting path".to_string(),
                        },
                    );
                },
                None => {},
            }
        }
        assert(out.deep_view() =~= steps + unexplained_effects(ov, ids, bv.matched, k + 1));
        k = k + 1;
    }
    out
}

fn find_blocked(obs: &Observation, preds: &Vec<Vec<usize>>, best: &SearchState) -> (r: Option<
    BlockedStep,
>)
    requires
        preds_ok(preds.deep_view(), obs.deep_view()),
        best.consumed.len() == obs.records.len(),
    ensures
        r.deep_view() == blocked_from(
            obs.deep_view(),
            preds.deep_view(),
            best.deep_view(),
            0,
        ),
{
    let ghost ov = obs.deep_view();
    let ghost pv = preds.deep_view();
    let ghost bv = best.deep_view();
    let mut i: usize = 0;
    while i < obs.records.len()
        invariant
            i <= obs.records.len(),
            best.consumed.len() == obs.records.len(),
            ov == obs.deep_view(),
            pv == preds.deep_view(),
            bv == best.deep_view(),
            preds_ok(pv, ov),
            blocked_from(ov, pv, bv, 0) == blocked_from(ov, pv, bv, i as int),
        decreases obs.records.len() - i,
    {
        let r = &obs.records[i];
        assert(ov.records[i as int] == r.deep_view());
        assert(pv[i as int] == preds[i as int].deep_view());
        match &r.step {
            Some(step) => {
                if !best.consumed[i] && preds_done(&preds[i], &best.consumed) {
                    return Some(
                        BlockedStep {
                            step: step.clone(),
                            record: r.id.clone(),
                            principal: r.principal.clone(),
                        },
                    );
                }
            },
            None => {},
        }
        i = i + 1;
    }
    None
}

/// Searches for a path of the net that explains the observation.
pub fn verify(net: &Net, obs: &Observation, options: VerifyOptions) -> (r: VerifyOutcome)
    requires
        net_ok(net.deep_view()),
        fits(net.deep_view(), options),
    ensures
        r.deep_view() == verified(net.deep_view(), obs.deep_view(), options),
{
    let ghost nv = net.deep_view();
    let ghost ov = obs.deep_view();
    let observed_steps = obs.step_records().len();
    let edges = check_edges(&net.spec, obs);
    if edges.len() > 0 {
        assert(edges.deep_view().len() > 0);
        return VerifyOutcome {
            verdict: Verdict::Reject,
            witness: None,
            failures: edges,
            bound: options.bound,
            slack: options.slack,
            states_explored: 0,
            exhausted: false,
            explained: empty_vec(),
            observed_steps,
            blocked: None,
        };
    }
    assert(edges.deep_view().len() == 0);
    let preds = record_order(obs);
    assert(obs.records.len() == ov.records.len());
    proof {
        lemma_order_ok(ov);
    }
    let effects = effect_ids(obs);
    let mark = find_mark(net, obs);
    let start = start_state(net, obs);
    let mut stack: Vec<SearchState> = empty_vec();
    push_to(&mut stack, start.dup());
    let mut quest = Quest {
        stack,
        seen: StringHashSet::new(),
        states: 0,
        best: start,
        log: FailureLog { score: (0, 0), items: empty_vec() },
        cut: false,
    };
    proof {
        assert(quest.quest_view().stack =~= first_quest(nv, ov).stack);
        assert(quest.quest_view() == first_quest(nv, ov));
        assert(quest_ok(nv, ov, options, quest.quest_view())) by {
            assert(0 * max_growth(nv.transitions, nv.transitions.len() as int) == 0)
                by (nonlinear_arith);
        }
    }
    proof {
        reveal(search_result);
    }
    let (found, exhausted) = run_search(
        net,
        obs,
        mark.as_str(),
        &preds,
        &effects,
        options,
        &mut quest,
    );
    match found {
        Some(s) => VerifyOutcome {
            verdict: Verdict::Accept,
            witness: Some(s.path.dup()),
            failures: empty_vec(),
            bound: options.bound,
            slack: options.slack,
            states_explored: quest.states,
            exhausted: false,
            explained: s.path,
            observed_steps,
            blocked: None,
        },
        None => {
            let blocked = find_blocked(obs, &preds, &quest.best);
            let mut failures = quest.log.items;
            if failures.len() == 0 {
                assert(failures.deep_view().len() == 0);
                failures = list_unexplained(obs, &effects, &quest.best);
                if failures.len() == 0 {
                    assert(failures.deep_view().len() == 0);
                    let marking = net.canonical(&quest.best.marking);
                    push_to(
                        &mut failures,
                        Failure::NoFinalMarking {
                            detail: cat2(
                                "every path consistent with the observation stops at marking ",
                                marking.as_str(),
                            ),
                        },
                    );
                    assert(failures.deep_view() =~= told_failures(
                        nv,
                        ov,
                        quest.quest_view().log,
                        quest.quest_view().best,
                    ));
                } else {
                    assert(failures.deep_view().len() > 0);
                }
            } else {
                assert(failures.deep_view().len() > 0);
            }
            VerifyOutcome {
                verdict: Verdict::Reject,
                witness: None,
                failures,
                bound: options.bound,
                slack: options.slack,
                states_explored: quest.states,
                exhausted,
                explained: quest.best.path,
                observed_steps,
                blocked,
            }
        },
    }
}

} // verus!
