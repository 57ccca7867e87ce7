//! What is told of a run that was verified.
use crate::adapters::{adapter_error_text, AdapterErrorView};
use crate::certificate::{certificate_error_text, CertificateErrorView};
use crate::digest::short_text;
use crate::explain::is_concrete;
use crate::judge::{assessed, plain_options, robustness};
use crate::load::{short_name, wsl_error_text, LoadedSpecView, WslErrorView};
use crate::matching::{edge_failures, resolved};
use crate::model::{place_from, transition_from, PlaceView, TransitionView};
use crate::net::{
    canonical_text, failure_text, place_text, token_text, FailureView, NetView,
};
use crate::observation::{
    assignments, effect_named, fact_before, fact_text, flattened, observation_error_text,
    steps_upto, words_before, FactView,
    ObservationErrorView, ObservationView, RecordView,
};
use crate::ordered::{insert_text, lookup, sorted_texts, sorted_upto};
use crate::search::{
    further, is_next, lemma_push_contains, score, set_flags, StateView, WitnessStepView,
};
use crate::service::fallback_view;
use crate::text::{
    before, decimal, joined, lemma_before_asymmetric, lemma_before_total, lemma_before_transitive,
    replaced, Str,
};
use crate::verify::{
    blocked_from, effect_set, logged, order_of, path_text, step_count, told_failures,
    unexplained_effects, unexplained_steps, verified, BlockedStepView, LogView, Verdict,
    VerifyOptions, VerifyOutcomeView,
};
use vstd::prelude::*;

verus! {

// ---------------------------------------------------------------------------
// Outcomes
// ---------------------------------------------------------------------------
/// Whether a record is one that comes next and is told as blocked.
pub open spec fn tells_of_blocked(r: RecordView, b: BlockedStepView) -> bool {
    r.step == Some(b.step) && r.id == b.record && r.principal == b.principal
}

proof fn lemma_blocked(obs: ObservationView, preds: Seq<Seq<usize>>, s: StateView, i: int)
    requires
        0 <= i,
    ensures
        blocked_from(obs, preds, s, i) is None <==> forall|k: int|
            i <= k < obs.records.len() ==> !(#[trigger] is_next(obs, preds, s, k)),
        blocked_from(obs, preds, s, i) matches Some(b) ==> exists|k: int|
            i <= k < obs.records.len() && #[trigger] is_next(obs, preds, s, k) && tells_of_blocked(
                obs.records[k],
                b,
            ) && forall|j: int| i <= j < k ==> !(#[trigger] is_next(obs, preds, s, j)),
    decreases obs.records.len() - i,
{
    if i < obs.records.len() {
        if is_next(obs, preds, s, i) {
            assert(tells_of_blocked(
                obs.records[i],
                blocked_from(obs, preds, s, i)->0,
            ));
        } else {
            lemma_blocked(obs, preds, s, i + 1);
            if blocked_from(obs, preds, s, i) is Some {
                let b = blocked_from(obs, preds, s, i)->0;
                let k = choose|k: int|
                    i + 1 <= k < obs.records.len() && #[trigger] is_next(obs, preds, s, k)
                        && tells_of_blocked(obs.records[k], b) && forall|j: int|
                        i + 1 <= j < k ==> !(#[trigger] is_next(obs, preds, s, j));
                assert(is_next(obs, preds, s, k));
            }
        }
    }
}

/// An outcome says what it was searched with. Where something is wrong with an edge nothing is
/// searched, and that is all that is told. An accepted run has a witness, which is what was
/// explained, and no failures; a rejected one has no witness, and always some failure. What is
/// told as blocked is the step of a record.
pub proof fn what_an_outcome_says(net: NetView, obs: ObservationView, opts: VerifyOptions)
    ensures
        ({
            let o = verified(net, obs, opts);
            let edges = edge_failures(net.spec, obs, obs.edges.len() as int);
            &&& o.bound == opts.bound && o.slack == opts.slack
            &&& o.observed_steps == step_count(obs) as usize
            &&& edges.len() > 0 ==> o.verdict == Verdict::Reject && o.failures == edges
                && o.states_explored == 0 && o.explained.len() == 0 && o.blocked is None
                && !o.exhausted
            &&& o.verdict == Verdict::Accept <==> o.witness is Some
            &&& o.verdict == Verdict::Accept <==> o.failures.len() == 0
            &&& o.witness matches Some(w) ==> o.explained == w && o.blocked is None && !o.exhausted
            &&& o.blocked matches Some(b) ==> exists|k: int|
                0 <= k < obs.records.len() && tells_of_blocked(#[trigger] obs.records[k], b)
        }),
{
    let edges = edge_failures(net.spec, obs, obs.edges.len() as int);
    let r = crate::verify::search_result(net, obs, opts);
    if edges.len() == 0 && r.found is None {
        lemma_blocked(obs, order_of(obs), r.quest.best, 0);
        if blocked_from(obs, order_of(obs), r.quest.best, 0) is Some {
            let b = blocked_from(obs, order_of(obs), r.quest.best, 0)->0;
            let k = choose|k: int|
                0 <= k < obs.records.len() && #[trigger] is_next(
                    obs,
                    order_of(obs),
                    r.quest.best,
                    k,
                ) && tells_of_blocked(obs.records[k], b) && forall|j: int|
                    0 <= j < k ==> !(#[trigger] is_next(obs, order_of(obs), r.quest.best, j));
            assert(tells_of_blocked(obs.records[k], b));
        }
    }
}

/// A step counts for each record that claims one.
pub proof fn steps_are_counted_by_their_records(rs: Seq<RecordView>, n: int)
    requires
        0 <= n <= rs.len(),
    ensures
        n == 0 ==> steps_upto(rs, n).len() == 0,
        n > 0 && rs[n - 1].step is Some ==> steps_upto(rs, n).len() == steps_upto(rs, n - 1).len()
            + 1,
        n > 0 && rs[n - 1].step is None ==> steps_upto(rs, n).len() == steps_upto(rs, n - 1).len(),
{
}

/// A step is told as not explained where its record is not; an effect where nothing explains it.
pub proof fn what_is_told_as_not_explained(
    obs: ObservationView,
    consumed: Seq<bool>,
    ids: Seq<Str>,
    matched: Seq<Str>,
    n: int,
    f: FailureView,
)
    requires
        0 <= n,
    ensures
        n <= obs.records.len() ==> (unexplained_steps(obs.records, consumed, n).contains(f)
            <==> exists|i: int|
            0 <= i < n && !consumed[i] && (#[trigger] obs.records[i]).step is Some && f
                == (FailureView::StepNotExplained {
                step: obs.records[i].step->0,
                record: obs.records[i].id,
            })),
        n <= ids.len() ==> (unexplained_effects(obs, ids, matched, n).contains(f) <==> exists|i: int|
            0 <= i < n && !matched.contains(#[trigger] ids[i]) && (effect_named(
                obs.records,
                ids[i],
            ) matches Some(e) && f == (FailureView::UnmatchedEffect {
                effect: ids[i],
                kind: e.kind,
                detail: "no transition of the workflow emits it on any accepting path"@,
            }))),
    decreases n,
{
    if n > 0 {
        what_is_told_as_not_explained(obs, consumed, ids, matched, n - 1, f);
        if n <= obs.records.len() && obs.records[n - 1].step is Some {
            lemma_push_contains(
                unexplained_steps(obs.records, consumed, n - 1),
                FailureView::StepNotExplained {
                    step: obs.records[n - 1].step->0,
                    record: obs.records[n - 1].id,
                },
                f,
            );
        }
        if n <= ids.len() && effect_named(obs.records, ids[n - 1]) is Some {
            lemma_push_contains(
                unexplained_effects(obs, ids, matched, n - 1),
                FailureView::UnmatchedEffect {
                    effect: ids[n - 1],
                    kind: effect_named(obs.records, ids[n - 1])->0.kind,
                    detail: "no transition of the workflow emits it on any accepting path"@,
                },
                f,
            );
        }
    }
}

/// What kept the search from going on is told; else what is left unexplained; else where it
/// stopped.
pub proof fn which_failures_are_told(
    net: NetView,
    obs: ObservationView,
    log: LogView,
    best: StateView,
)
    ensures
        ({
            let steps = unexplained_steps(obs.records, best.consumed, obs.records.len() as int);
            let effects = unexplained_effects(
                obs,
                effect_set(obs),
                best.matched,
                effect_set(obs).len() as int,
            );
            let told = told_failures(net, obs, log, best);
            &&& log.items.len() > 0 ==> told == log.items
            &&& log.items.len() == 0 && steps.len() + effects.len() > 0 ==> told == steps + effects
            &&& log.items.len() == 0 && steps.len() + effects.len() == 0 ==> told.len() == 1
                && told[0] == (FailureView::NoFinalMarking {
                detail: "every path consistent with the observation stops at marking "@
                    + canonical_text(net.place_names, best.marking),
            })
        }),
{
}

/// Of two states the one has come further that explains more records, or as many and more
/// effects.
pub proof fn which_state_has_come_further(a: StateView, b: StateView, v: Seq<bool>, n: int)
    requires
        0 <= n <= v.len(),
    ensures
        further(score(a), score(b)) <==> set_flags(a.consumed, a.consumed.len() as int)
            > set_flags(b.consumed, b.consumed.len() as int) || (set_flags(
            a.consumed,
            a.consumed.len() as int,
        ) == set_flags(b.consumed, b.consumed.len() as int) && a.matched.len() > b.matched.len()),
        n == 0 ==> set_flags(v, n) == 0,
        n > 0 && v[n - 1] ==> set_flags(v, n) == set_flags(v, n - 1) + 1,
        n > 0 && !v[n - 1] ==> set_flags(v, n) == set_flags(v, n - 1),
{
}

/// A failure is noted where no state further on has one: it makes the notes anew where it is
/// further on than they are, is added where it is as far and not among them, and is passed over
/// where it is not as far.
pub proof fn which_failures_are_noted(log: LogView, sc: (nat, nat), f: FailureView)
    ensures
        sc.0 > log.score.0 || (sc.0 == log.score.0 && sc.1 > log.score.1) ==> logged(log, sc, f)
            == (LogView { score: sc, items: seq![f] }),
        sc == log.score && !log.items.contains(f) ==> logged(log, sc, f) == (LogView {
            score: sc,
            items: log.items.push(f),
        }),
        sc == log.score && log.items.contains(f) ==> logged(log, sc, f) == log,
        sc.0 < log.score.0 || (sc.0 == log.score.0 && sc.1 < log.score.1) ==> logged(log, sc, f)
            == log,
{
}

/// An assessment is the outcome, whether a rejection is robust, and a certificate that says the
/// same.
pub proof fn what_an_assessment_holds(
    loaded: LoadedSpecView,
    net: NetView,
    obs: ObservationView,
    canonical: Seq<u8>,
    slack: usize,
    at: u64,
)
    ensures
        ({
            let a = assessed(loaded, net, obs, canonical, slack, at);
            &&& a.outcome == verified(net, obs, plain_options(obs, slack))
            &&& a.robust == robustness(net, obs, slack)
            &&& a.certificate.robust == a.robust
            &&& a.certificate.verdict == "accept"@ <==> a.outcome.verdict == Verdict::Accept
            &&& a.certificate.workflow == loaded.spec.workflow
            &&& a.certificate.spec_hash == "sha256:"@ + loaded.hash
            &&& a.certificate.run_id == obs.run_id
            &&& a.certificate.issued_at_unix == at
        }),
{
    reveal_strlit("accept");
    reveal_strlit("reject");
    assert("accept"@[0] != "reject"@[0]);
}

// ---------------------------------------------------------------------------
// Names and values
// ---------------------------------------------------------------------------
/// A transition is found by its name, the first of that name.
pub proof fn a_transition_is_found_by_its_name(ts: Seq<TransitionView>, id: Str, i: int)
    requires
        0 <= i,
    ensures
        transition_from(ts, id, i) is None <==> forall|j: int|
            i <= j < ts.len() ==> (#[trigger] ts[j]).id != id,
        transition_from(ts, id, i) matches Some(t) ==> exists|j: int|
            i <= j < ts.len() && #[trigger] ts[j] == t && t.id == id && forall|k: int|
                i <= k < j ==> (#[trigger] ts[k]).id != id,
    decreases ts.len() - i,
{
    if i < ts.len() {
        if ts[i].id == id {
            assert(ts[i] == ts[i]);
        } else {
            a_transition_is_found_by_its_name(ts, id, i + 1);
            if transition_from(ts, id, i) is Some {
                let t = transition_from(ts, id, i)->0;
                let j = choose|j: int|
                    i + 1 <= j < ts.len() && #[trigger] ts[j] == t && t.id == id && forall|k: int|
                        i + 1 <= k < j ==> (#[trigger] ts[k]).id != id;
                assert(ts[j] == t);
            }
        }
    }
}

/// A place is found by its name, the first of that name.
pub proof fn a_place_is_found_by_its_name(ps: Seq<PlaceView>, id: Str, i: int)
    requires
        0 <= i,
    ensures
        place_from(ps, id, i) is None <==> forall|j: int|
            i <= j < ps.len() ==> (#[trigger] ps[j]).id != id,
        place_from(ps, id, i) matches Some(p) ==> exists|j: int|
            i <= j < ps.len() && #[trigger] ps[j] == p && p.id == id && forall|k: int|
                i <= k < j ==> (#[trigger] ps[k]).id != id,
    decreases ps.len() - i,
{
    if i < ps.len() {
        if ps[i].id == id {
            assert(ps[i] == ps[i]);
        } else {
            a_place_is_found_by_its_name(ps, id, i + 1);
            if place_from(ps, id, i) is Some {
                let p = place_from(ps, id, i)->0;
                let j = choose|j: int|
                    i + 1 <= j < ps.len() && #[trigger] ps[j] == p && p.id == id && forall|k: int|
                        i + 1 <= k < j ==> (#[trigger] ps[k]).id != id;
                assert(ps[j] == p);
            }
        }
    }
}

/// An argument that names a variable stands for its value, or for a fresh one where it has none;
/// each star of a glob stands for something; and anything else for itself. Only a variable
/// without a value uses up a fresh one.
pub proof fn what_an_argument_resolves_to(raw: Str, env: Seq<(Str, Str)>, fresh: nat)
    ensures
        raw.len() > 0 && raw[0] == '$' && lookup(env, raw.skip(1)) is Some ==> resolved(
            raw,
            env,
            fresh,
        ) == (lookup(env, raw.skip(1))->0, fresh),
        raw.len() > 0 && raw[0] == '$' && lookup(env, raw.skip(1)) is None ==> resolved(
            raw,
            env,
            fresh,
        ) == ("~fresh"@ + decimal(fresh + 1), fresh + 1),
        (raw.len() == 0 || raw[0] != '$') && raw.contains('*') ==> resolved(raw, env, fresh) == (
            replaced(raw, '*', "~any"@ + decimal(fresh)),
            fresh,
        ),
        (raw.len() == 0 || raw[0] != '$') && !raw.contains('*') ==> resolved(raw, env, fresh) == (
            raw,
            fresh,
        ),
{
}

/// A digest is one that was seen where it does not stand for something unknown.
pub proof fn when_a_digest_is_concrete(d: Str)
    ensures
        is_concrete(d) <==> !(d.len() > 0 && d[0] == '~') && !("<unresolved:"@.len() <= d.len()
            && d.take("<unresolved:"@.len() as int) == "<unresolved:"@),
{
    reveal_strlit("~");
    if d.len() > 0 && d[0] == '~' {
        assert(d.take(1) =~= "~"@);
    }
    if crate::text::has_prefix(d, "~"@) {
        assert(d.take(1)[0] == '~');
    }
}

// ---------------------------------------------------------------------------
// Texts
// ---------------------------------------------------------------------------
proof fn lemma_insert(s: Seq<Str>, x: Str, k: Str)
    requires
        forall|i: int, j: int|
            0 <= i < j < s.len() ==> !before(#[trigger] s[j], #[trigger] s[i]),
    ensures
        insert_text(s, x).len() == s.len() + 1,
        insert_text(s, x).contains(k) <==> s.contains(k) || k == x,
        forall|i: int, j: int|
            0 <= i < j < insert_text(s, x).len() ==> !before(
                #[trigger] insert_text(s, x)[j],
                #[trigger] insert_text(s, x)[i],
            ),
    decreases s.len(),
{
    let out = insert_text(s, x);
    if s.len() == 0 {
        assert(out[0] == x);
        crate::text::lemma_before_irreflexive(x);
    } else if !before(s[0], x) {
        assert(out == seq![x] + s);
        assert(out[0] == x);
        assert forall|i: int, j: int| 0 <= i < j < out.len() implies !before(
            #[trigger] out[j],
            #[trigger] out[i],
        ) by {
            if i > 0 {
                assert(out[i] == s[i - 1] && out[j] == s[j - 1]);
            } else {
                lemma_after_head(s, x, j - 1);
            }
        }
        if s.contains(k) {
            assert(out[s.index_of(k) + 1] == k);
        }
        if out.contains(k) {
            let i = out.index_of(k);
            if i > 0 {
                assert(s[i - 1] == k);
            }
        }
    } else {
        let rest = s.drop_first();
        lemma_before_asymmetric(s[0], x);
        assert forall|i: int, j: int| 0 <= i < j < rest.len() implies !before(
            #[trigger] rest[j],
            #[trigger] rest[i],
        ) by {
            assert(rest[i] == s[i + 1] && rest[j] == s[j + 1]);
        }
        lemma_insert(rest, x, k);
        let more = insert_text(rest, x);
        assert(out == seq![s[0]] + more);
        assert(out[0] == s[0]);
        if out.contains(k) {
            let i = out.index_of(k);
            if i > 0 {
                assert(more[i - 1] == k);
                if rest.contains(k) {
                    assert(s[rest.index_of(k) + 1] == k);
                }
            } else {
                assert(s[0] == k);
            }
        }
        if s.contains(k) {
            let i = s.index_of(k);
            if i > 0 {
                assert(rest[i - 1] == k);
            } else {
                assert(out[0] == k);
            }
        }
        if more.contains(k) {
            assert(out[more.index_of(k) + 1] == k);
        }
        assert forall|i: int, j: int| 0 <= i < j < out.len() implies !before(
            #[trigger] out[j],
            #[trigger] out[i],
        ) by {
            if i > 0 {
                assert(out[i] == more[i - 1] && out[j] == more[j - 1]);
            } else {
                assert(more.contains(more[j - 1]));
                lemma_insert(rest, x, more[j - 1]);
                if rest.contains(more[j - 1]) {
                    let q = rest.index_of(more[j - 1]);
                    assert(s[q + 1] == out[j]);
                    assert(!before(s[q + 1], s[0]));
                }
            }
        }
    }
}

proof fn lemma_after_head(s: Seq<Str>, x: Str, j: int)
    requires
        0 <= j < s.len(),
        !before(s[0], x),
        forall|i: int, j: int|
            0 <= i < j < s.len() ==> !before(#[trigger] s[j], #[trigger] s[i]),
    ensures
        !before(s[j], x),
{
    if j > 0 && before(s[j], x) {
        assert(!before(s[j], s[0]));
        lemma_before_total(s[0], s[j]);
        if s[0] != s[j] {
            lemma_before_transitive(s[0], s[j], x);
        }
    }
}

/// Texts are sorted without losing or adding one.
pub proof fn texts_are_sorted(s: Seq<Str>, n: int, k: Str)
    requires
        0 <= n <= s.len(),
    ensures
        sorted_upto(s, n).len() == n,
        sorted_upto(s, n).contains(k) <==> exists|i: int| 0 <= i < n && #[trigger] s[i] == k,
        forall|i: int, j: int|
            0 <= i < j < sorted_upto(s, n).len() ==> !before(
                #[trigger] sorted_upto(s, n)[j],
                #[trigger] sorted_upto(s, n)[i],
            ),
        sorted_texts(s) == sorted_upto(s, s.len() as int),
    decreases n,
{
    if n > 0 {
        texts_are_sorted(s, n - 1, k);
        lemma_insert(sorted_upto(s, n - 1), s[n - 1], k);
    }
}

/// The entries of a table are told one by one, each as its name and its value.
pub proof fn entries_are_told_one_by_one(m: Seq<(Str, Str)>, n: int)
    requires
        0 <= n <= m.len(),
    ensures
        assignments(m, n).len() == n,
        forall|i: int| 0 <= i < n ==> #[trigger] assignments(m, n)[i] == m[i].0 + "="@ + m[i].1,
    decreases n,
{
    if n > 0 {
        entries_are_told_one_by_one(m, n - 1);
    }
}

/// A marking is told place by place, each with its tokens in order.
pub proof fn a_marking_is_told_by_its_places(
    names: Seq<Str>,
    m: Seq<Seq<Seq<(Str, Str)>>>,
    tokens: Seq<Seq<(Str, Str)>>,
    name: Str,
)
    ensures
        exists|places: Seq<Str>, texts: Seq<Str>|
            #![trigger joined(places, ";"@), sorted_texts(texts)]
            canonical_text(names, m) == joined(places, ";"@) && places.len() == m.len() && (forall|
                i: int,
            | 0 <= i < m.len() ==> #[trigger] places[i] == place_text(names[i], m[i])) && place_text(
                name,
                tokens,
            ) == name + ":["@ + joined(sorted_texts(texts), "|"@) + "]"@ && texts.len()
                == tokens.len() && forall|i: int|
                0 <= i < tokens.len() ==> #[trigger] texts[i] == joined(
                    assignments(tokens[i], tokens[i].len() as int),
                    ","@,
                ),
{
    let places = Seq::new(m.len(), |i: int| place_text(names[i], m[i]));
    let texts = Seq::new(tokens.len(), |i: int| token_text(tokens[i]));
    assert(canonical_text(names, m) == joined(places, ";"@));
    assert(place_text(name, tokens) == name + ":["@ + joined(sorted_texts(texts), "|"@) + "]"@);
}

/// A path is told by its transitions, in order.
pub proof fn a_path_is_told_by_its_transitions(path: Seq<WitnessStepView>)
    ensures
        exists|names: Seq<Str>| #[trigger]
            joined(names, " -> "@) == path_text(path) && names.len() == path.len() && forall|i: int|
                0 <= i < path.len() ==> #[trigger] names[i] == path[i].transition,
{
    let names = Seq::new(path.len(), |i: int| path[i].transition);
    assert(joined(names, " -> "@) == path_text(path));
}

/// A failure is told with what it is about: the step, who took it and who may, the place, the
/// effect and its argument, the relation and its two ends, the record, the guard or the value.
pub proof fn what_a_failure_says(
    a: Str,
    b: Str,
    c: Str,
    d: Str,
    e: Str,
)
    ensures
        failure_text(FailureView::UnknownStep { step: a }) == "step `"@ + a
            + "` is not a transition of this workflow"@,
        failure_text(FailureView::IdentityMismatch { step: a, principal: b, expected: c }) == "`"@
            + a + "` was performed by `"@ + b + "` but the transition admits only `"@ + c + "`"@,
        failure_text(FailureView::NotEnabled { step: a, place: b }) == "`"@ + a
            + "` is not enabled: no token available in place `"@ + b + "`"@,
        failure_text(FailureView::EffectShapeMismatch { step: a, detail: b }) == "`"@ + a
            + "` emitted effects the schema does not permit: "@ + b,
        failure_text(
            FailureView::EffectArgMismatch { step: a, effect: b, arg: c, expected: d, observed: e },
        ) == "`"@ + a + "` emitted "@ + b + " with "@ + c + "="@ + e
            + " where the schema requires "@ + d,
        failure_text(
            FailureView::ObligationUnmet {
                transition: a,
                relation: b,
                effect: c,
                target: d,
                detail: e,
            },
        ) == ("transition `"@ + a + "` requires "@ + b + "("@ + c + " -> "@ + d)
            + ") which the observation does not contain: "@ + e,
        failure_text(FailureView::UnmatchedEffect { effect: a, kind: b, detail: c }) == b + " `"@
            + a + "` has no producing transition: "@ + c,
        failure_text(FailureView::EdgeIllTyped { relation: a, from: b, to: c, detail: d })
            == "edge "@ + a + "("@ + b + " -> "@ + c + ") is ill-typed: "@ + d,
        failure_text(
            FailureView::ConstraintViolated { relation: a, from: b, to: c, constraint: d },
        ) == "edge "@ + a + "("@ + b + " -> "@ + c + ") violates the declared constraint `"@ + d
            + "`"@,
        failure_text(FailureView::StepNotExplained { step: a, record: b })
            == "no accepting path of the workflow explains record `"@ + b + "` (`"@ + a + "`)"@,
        failure_text(FailureView::NoFinalMarking { detail: a })
            == "no accepting path reaches a final marking: "@ + a,
        failure_text(FailureView::GuardFalse { transition: a, guard: b }) == "guard `"@ + b
            + "` on transition `"@ + a + "` is false"@,
        failure_text(FailureView::NotAttested { transition: a, bind: b, value: c })
            == "transition `"@ + a + "` takes "@ + b + " = "@ + c
            + " from earlier evidence, but no presented certificate attests it"@,
{
}

/// A fact is told as what was done: by whom, with what arguments, or between which effects. Steps
/// are told before effects, and effects before edges.
pub proof fn what_a_fact_says(a: Str, b: Str, c: Str, args: Seq<(Str, Str)>)
    ensures
        fact_text(FactView::Step { record: a, step: b, principal: c }) == c + " performed `"@ + b
            + "`"@,
        fact_text(FactView::Effect { id: a, kind: b, args }) == b + "("@ + joined(
            assignments(args, args.len() as int),
            ", "@,
        ) + ")"@,
        fact_text(FactView::Edge { relation: a, from: b, to: c }) == a + "("@ + b + " -> "@ + c
            + ")"@,
        forall|x: FactView, y: FactView|
            x is Step && (y is Effect || y is Edge) || x is Effect && y is Edge ==> #[trigger]
            fact_before(x, y) && !fact_before(y, x),
        observation_error_text(ObservationErrorView::DuplicateRecord(a)) == "duplicate record id `"@
            + a + "`"@,
        observation_error_text(ObservationErrorView::DuplicateEffect(a)) == "duplicate effect id `"@
            + a + "`"@,
        observation_error_text(ObservationErrorView::UnknownEffect { relation: a, id: b })
            == "edge `"@ + a + "` references unknown effect `"@ + b + "`"@,
        observation_error_text(ObservationErrorView::CausalCycle(a))
            == "observation contains a causal cycle involving record `"@ + a + "`"@,
{
}

/// An error is told with what is wrong: which specification is not sound and in how many ways,
/// which version is not known, what cannot be read, which key or signature is of no use, and
/// which issuer is not trusted.
pub proof fn what_an_error_says(a: Str, n: usize, v: u32)
    ensures
        wsl_error_text(WslErrorView::Unsound { workflow: a, count: n }) == "spec `"@ + a
            + "` is not sound: "@ + decimal(n as nat) + " error(s)"@,
        wsl_error_text(WslErrorView::Version(v)) == "unsupported spec_version "@ + decimal(
            v as nat,
        ),
        adapter_error_text(AdapterErrorView::Io(a)) == "cannot read input: "@ + a,
        adapter_error_text(AdapterErrorView::Parse(a)) == "cannot parse input: "@ + a,
        certificate_error_text(CertificateErrorView::BadKey(a)) == "signing key is unusable: "@ + a,
        certificate_error_text(CertificateErrorView::BadSignature(a))
            == "signature does not verify: "@ + a,
        certificate_error_text(CertificateErrorView::Encoding(a))
            == "certificate encoding failed: "@ + a,
        certificate_error_text(CertificateErrorView::Untrusted(a)) == "issuer `"@ + a
            + "` is not trusted"@,
        short_name(a, a) == a + "@sha256:"@ + short_text(a),
{
}

/// Where no policy is configured anyone may do what the effects of the known kinds do, within
/// the known scopes, in any step.
pub proof fn what_is_permitted_where_nothing_is_configured(x: Str)
    ensures
        fallback_view().identity.len() == 0,
        fallback_view().allowed_steps.len() == 0,
        fallback_view().allowed_actions.contains(x) <==> x == "vcs_read"@ || x
            == "artifact_create"@ || x == "ci_report"@ || x == "secret_read"@ || x
            == "registry_write"@,
        fallback_view().allowed_scopes.contains(x) <==> x == "repo/*"@ || x == "secrets://prod/*"@
            || x == "registry://prod/*"@,
{
    let actions = fallback_view().allowed_actions;
    let scopes = fallback_view().allowed_scopes;
    assert(actions[0] == "vcs_read"@ && actions[1] == "artifact_create"@ && actions[2]
        == "ci_report"@ && actions[3] == "secret_read"@ && actions[4] == "registry_write"@);
    assert(scopes[0] == "repo/*"@ && scopes[1] == "secrets://prod/*"@ && scopes[2]
        == "registry://prod/*"@);
}

/// Steps stand in the order of their records, then of their names, then of who took them; edges
/// in that of their relations, then of where they lead from, then of where they lead to.
pub proof fn in_what_order_facts_stand(
    a: Str,
    b: Str,
    c: Str,
    x: Str,
    y: Str,
    z: Str,
)
    ensures
        fact_before(
            FactView::Step { record: a, step: b, principal: c },
            FactView::Step { record: x, step: y, principal: z },
        ) <==> before(a, x) || (a == x && (before(b, y) || (b == y && before(c, z)))),
        fact_before(
            FactView::Edge { relation: a, from: b, to: c },
            FactView::Edge { relation: x, from: y, to: z },
        ) <==> before(a, x) || (a == x && (before(b, y) || (b == y && before(c, z)))),
        forall|m: Seq<(Str, Str)>, n: Seq<(Str, Str)>|
            a != x ==> #[trigger] fact_before(
                FactView::Effect { id: a, kind: b, args: m },
                FactView::Effect { id: x, kind: y, args: n },
            ) == before(a, x),
        forall|m: Seq<(Str, Str)>, n: Seq<(Str, Str)>|
            b != y ==> #[trigger] fact_before(
                FactView::Effect { id: a, kind: b, args: m },
                FactView::Effect { id: a, kind: y, args: n },
            ) == before(b, y),
{
    reveal_with_fuel(words_before, 4);
    let p = seq![a, b, c];
    let q = seq![x, y, z];
    assert(p.drop_first() =~= seq![b, c] && q.drop_first() =~= seq![y, z]);
    assert(seq![b, c].drop_first() =~= seq![c] && seq![y, z].drop_first() =~= seq![z]);
    assert(seq![c].drop_first() =~= Seq::<Str>::empty() && seq![z].drop_first()
        =~= Seq::<Str>::empty());
    assert(words_before(p, q) <==> before(a, x) || (a == x && (before(b, y) || (b == y && before(
        c,
        z,
    ))))) by {
        crate::text::lemma_before_irreflexive(a);
        crate::text::lemma_before_irreflexive(b);
        crate::text::lemma_before_irreflexive(c);
        assert(words_before(seq![c], seq![z]) == before(c, z));
        assert(words_before(seq![b, c], seq![y, z]) == (before(b, y) || (b == y && before(c, z))));
    }
    assert forall|m: Seq<(Str, Str)>, n: Seq<(Str, Str)>|
        b != y implies #[trigger] fact_before(
        FactView::Effect { id: a, kind: b, args: m },
        FactView::Effect { id: a, kind: y, args: n },
    ) == before(b, y) by {
        let u = seq![a, b] + flattened(m);
        let v = seq![a, y] + flattened(n);
        assert(u[0] == a && v[0] == a);
        assert(u.drop_first()[0] == b && v.drop_first()[0] == y);
    }
    assert forall|m: Seq<(Str, Str)>, n: Seq<(Str, Str)>|
        a != x implies #[trigger] fact_before(
        FactView::Effect { id: a, kind: b, args: m },
        FactView::Effect { id: x, kind: y, args: n },
    ) == before(a, x) by {
        let u = seq![a, b] + flattened(m);
        let v = seq![x, y] + flattened(n);
        assert(u[0] == a && v[0] == x);
    }
}

} // verus!
