//! From an outcome to a certificate: what was concluded, the facts that rule a rejected run
//! out, and what the conclusion is relative to.

use crate::certificate::{Certificate, CertificateView, CERTIFICATE_KIND};
use crate::digest::digest_text;
use crate::mus::{
    explainable, extract, extracted, mus_fits, MusOptions, MusResult, MusResultView,
};
use crate::net::{failure_text, net_ok, Failure, FailureView, Net, NetView};
use crate::observation::{
    all_effects, all_facts, put_facts, EffectInstanceView, Observation, ObservationView, PlaneView,
};
use crate::ordered::{
    empty_vec, lemma_put_items_contains, lookup, push_to, sorted_set, Dup, StrSet,
};
use crate::search::{WitnessStep, WitnessStepView};
use crate::text::{
    cat2, cat3, decimal, decimal_text, has_prefix, join, joined, starts_with_text, Str,
};
use crate::verify::{Verdict, VerifyOutcome, VerifyOutcomeView, MAX_STATES};
use vstd::prelude::*;

verus! {

/// The version that certificates name.
pub const ENGINE_VERSION: &'static str = "0.1.0";

/// How the search for a core is bounded: every record may stand for an unlogged step, and
/// four more may.
pub open spec fn core_options(obs: ObservationView) -> MusOptions {
    MusOptions { slack: (obs.records.len() + 4) as usize, max_states: MAX_STATES }
}

/// The core of facts that a certificate shows. An accepted run has none.
pub open spec fn core_of(net: NetView, obs: ObservationView, outcome: VerifyOutcomeView) -> MusResultView {
    if outcome.verdict == Verdict::Accept {
        MusResultView {
            facts: Seq::empty(),
            oracle_calls: 0,
            minimal: true,
            relaxation_accepts: false,
        }
    } else {
        extracted(net, obs, core_options(obs))
    }
}

/// The names of those of the first `n` planes that count as complete.
pub open spec fn complete_upto(planes: Seq<(Str, PlaneView)>, n: int) -> Seq<Str>
    decreases n,
{
    if n <= 0 {
        Seq::empty()
    } else if planes[n - 1].1.complete {
        complete_upto(planes, n - 1).push(planes[n - 1].0)
    } else {
        complete_upto(planes, n - 1)
    }
}

/// The note that a rejection rests on planes being complete.
pub open spec fn completeness_note(obs: ObservationView) -> Str {
    "this rejection holds only because plane(s) ["@ + joined(
        complete_upto(obs.planes, obs.planes.len() as int),
        ", "@,
    ) + "] are declared complete. If any step may go unlogged, the observation is reachable"@
}

/// What is noted of a conclusion.
pub open spec fn notes_of(
    core: MusResultView,
    obs: ObservationView,
    outcome: VerifyOutcomeView,
) -> Seq<Str> {
    let rests_on_planes = if core.relaxation_accepts {
        seq![completeness_note(obs)]
    } else {
        Seq::empty()
    };
    let not_minimal = if core.minimal {
        Seq::empty()
    } else {
        seq![
            "the core could not be reduced to a locally minimal set within the oracle budget"@,
        ]
    };
    let capped = if outcome.exhausted {
        seq![
            "search stopped at the state cap; the result is relative to bound k="@ + decimal(
                outcome.bound as nat,
            ),
        ]
    } else {
        Seq::empty()
    };
    rests_on_planes + not_minimal + capped
}

/// Whether a digest was really observed: it is neither a value made up by the search nor one
/// that nothing resolved.
pub open spec fn is_concrete(digest: Str) -> bool {
    !has_prefix(digest, "~"@) && !has_prefix(digest, "<unresolved:"@)
}

/// The concrete digests of the first `n` effects.
pub open spec fn digests_upto(es: Seq<EffectInstanceView>, n: int) -> Seq<Str>
    decreases n,
{
    if n <= 0 {
        Seq::empty()
    } else {
        let rest = digests_upto(es, n - 1);
        match lookup(es[n - 1].args, "digest"@) {
            Some(d) => if is_concrete(d) {
                rest.push(d)
            } else {
                rest
            },
            None => rest,
        }
    }
}

/// The digests that a certificate attests: of an accepted run, those that were observed.
pub open spec fn attested(obs: ObservationView, outcome: VerifyOutcomeView) -> Seq<Str> {
    if outcome.verdict == Verdict::Accept {
        let es = all_effects(obs.records);
        sorted_set(digests_upto(es, es.len() as int))
    } else {
        Seq::empty()
    }
}

/// The transitions of the first `n` steps of a path.
pub open spec fn transitions_upto(path: Seq<WitnessStepView>, n: int) -> Seq<Str>
    decreases n,
{
    if n <= 0 {
        Seq::empty()
    } else {
        transitions_upto(path, n - 1).push(path[n - 1].transition)
    }
}

/// The first `n` failures as text.
pub open spec fn failures_upto(fs: Seq<FailureView>, n: int) -> Seq<Str>
    decreases n,
{
    if n <= 0 {
        Seq::empty()
    } else {
        failures_upto(fs, n - 1).push(failure_text(fs[n - 1]))
    }
}

/// The certificate of an outcome.
pub open spec fn issued(
    net: NetView,
    workflow: Str,
    spec_hash: Str,
    obs: ObservationView,
    canonical: Seq<u8>,
    outcome: VerifyOutcomeView,
    robust: Option<bool>,
    at: u64,
) -> CertificateView {
    let core = core_of(net, obs, outcome);
    CertificateView {
        kind: CERTIFICATE_KIND@,
        engine: "maskedrunner "@ + ENGINE_VERSION@,
        workflow,
        spec_hash: "sha256:"@ + spec_hash,
        run_id: obs.run_id,
        observation_hash: "sha256:"@ + digest_text(canonical),
        verdict: if outcome.verdict == Verdict::Accept {
            "accept"@
        } else {
            "reject"@
        },
        bound: outcome.bound,
        slack: outcome.slack,
        robust,
        states_explored: outcome.states_explored,
        witness: match outcome.witness {
            Some(w) => Some(transitions_upto(w, w.len() as int)),
            None => None,
        },
        minimal_unsatisfiable_set: core.facts,
        mus_minimal: core.minimal,
        mus_oracle_calls: core.oracle_calls,
        failed_obligations: failures_upto(outcome.failures, outcome.failures.len() as int),
        notes: notes_of(core, obs, outcome),
        attested_digests: attested(obs, outcome),
        issued_at_unix: at,
    }
}

fn list_complete(obs: &Observation) -> (r: Vec<String>)
    ensures
        r.deep_view() == complete_upto(
            obs.deep_view().planes,
            obs.deep_view().planes.len() as int,
        ),
{
    let ghost pv = obs.deep_view().planes;
    let mut out: Vec<String> = empty_vec();
    let mut i: usize = 0;
    while i < obs.planes.len()
        invariant
            i <= pv.len(),
            pv == obs.deep_view().planes,
            out.deep_view() == complete_upto(pv, i as int),
        decreases pv.len() - i,
    {
        if obs.planes.value_at(i).complete {
            push_to(&mut out, obs.planes.key_at(i).dup());
        }
        i = i + 1;
    }
    out
}

fn list_notes(core: &MusResult, obs: &Observation, outcome: &VerifyOutcome) -> (r: Vec<String>)
    ensures
        r.deep_view() == notes_of(core.deep_view(), obs.deep_view(), outcome.deep_view()),
{
    let mut out: Vec<String> = empty_vec();
    if core.relaxation_accepts {
        let planes = list_complete(obs);
        let names = join(&planes, ", ");
        push_to(
            &mut out,
            cat3(
                "this rejection holds only because plane(s) [",
                names.as_str(),
                "] are declared complete. If any step may go unlogged, the observation is reachable",
            ),
        );
    }
    if !core.minimal {
        push_to(
            &mut out,
            "the core could not be reduced to a locally minimal set within the oracle budget".to_string(),
        );
    }
    if outcome.exhausted {
        let n = decimal_text(outcome.bound as u64);
        push_to(
            &mut out,
            cat2(
                "search stopped at the state cap; the result is relative to bound k=",
                n.as_str(),
            ),
        );
    }
    assert(out.deep_view() =~= notes_of(core.deep_view(), obs.deep_view(), outcome.deep_view()));
    out
}

fn list_attested(obs: &Observation, outcome: &VerifyOutcome) -> (r: Vec<String>)
    ensures
        r.deep_view() == attested(obs.deep_view(), outcome.deep_view()),
{
    if !outcome.accepted() {
        return empty_vec();
    }
    let es = obs.effects();
    let ghost ev = all_effects(obs.deep_view().records);
    let mut digests: Vec<String> = empty_vec();
    let mut i: usize = 0;
    while i < es.len()
        invariant
            i <= es.len(),
            ev == es.deep_view(),
            digests.deep_view() == digests_upto(ev, i as int),
        decreases es.len() - i,
    {
        assert(ev[i as int] == es[i as int].deep_view());
        match es[i].args.get("digest") {
            Some(d) => {
                if !starts_with_text(d.as_str(), "~") && !starts_with_text(
                    d.as_str(),
                    "<unresolved:",
                ) {
                    push_to(&mut digests, d.dup());
                }
            },
            None => {},
        }
        i = i + 1;
    }
    assert(es.len() == ev.len());
    let mut seen = StrSet::new();
    seen.insert_all(&digests);
    seen.to_vec()
}

fn list_transitions(path: &Vec<WitnessStep>) -> (r: Vec<String>)
    ensures
        r.deep_view() == transitions_upto(path.deep_view(), path.deep_view().len() as int),
{
    let ghost pv = path.deep_view();
    let mut out: Vec<String> = empty_vec();
    let mut i: usize = 0;
    while i < path.len()
        invariant
            i <= path.len(),
            pv == path.deep_view(),
            out.deep_view() == transitions_upto(pv, i as int),
        decreases path.len() - i,
    {
        assert(pv[i as int] == path[i as int].deep_view());
        push_to(&mut out, path[i].transition.dup());
        i = i + 1;
    }
    assert(path.len() == pv.len());
    out
}

/// The failures as text.
pub(crate) fn list_failures(fs: &Vec<Failure>) -> (r: Vec<String>)
    ensures
        r.deep_view() == failures_upto(fs.deep_view(), fs.deep_view().len() as int),
{
    let ghost fv = fs.deep_view();
    let mut out: Vec<String> = empty_vec();
    let mut i: usize = 0;
    while i < fs.len()
        invariant
            i <= fs.len(),
            fv == fs.deep_view(),
            out.deep_view() == failures_upto(fv, i as int),
        decreases fs.len() - i,
    {
        assert(fv[i as int] == fs[i as int].deep_view());
        push_to(&mut out, fs[i].render());
        i = i + 1;
    }
    assert(fs.len() == fv.len());
    out
}

/// Whether the core of a rejected run can be searched for.
pub open spec fn can_be_explained(
    net: NetView,
    obs: ObservationView,
    outcome: VerifyOutcomeView,
) -> bool {
    outcome.verdict == Verdict::Accept || (obs.records.len() + 4 <= usize::MAX && mus_fits(
        net,
        obs,
        core_options(obs),
    ))
}

/// Issues the certificate of an outcome. `canonical` is the canonical encoding of the
/// observation and `at` the time of issue.
pub fn explain(
    net: &Net,
    workflow: &str,
    spec_hash: &str,
    obs: &Observation,
    canonical: &[u8],
    outcome: &VerifyOutcome,
    robust: Option<bool>,
    at: u64,
) -> (r: Certificate)
    requires
        net_ok(net.deep_view()),
        can_be_explained(net.deep_view(), obs.deep_view(), outcome.deep_view()),
    ensures
        r.deep_view() == issued(
            net.deep_view(),
            workflow@,
            spec_hash@,
            obs.deep_view(),
            canonical@,
            outcome.deep_view(),
            robust,
            at,
        ),
{
    let core = if outcome.accepted() {
        MusResult {
            facts: empty_vec(),
            oracle_calls: 0,
            minimal: true,
            relaxation_accepts: false,
        }
    } else {
        assert(obs.records.len() == obs.deep_view().records.len());
        let options = MusOptions::for_observation(obs);
        assert(options == core_options(obs.deep_view()));
        extract(net, obs, options)
    };
    let notes = list_notes(&core, obs, outcome);
    let observation = Observation::hash(canonical);
    let witness = match &outcome.witness {
        Some(w) => Some(list_transitions(w)),
        None => None,
    };
    Certificate {
        kind: CERTIFICATE_KIND.to_string(),
        engine: cat2("maskedrunner ", ENGINE_VERSION),
        workflow: workflow.to_string(),
        spec_hash: cat2("sha256:", spec_hash),
        run_id: obs.run_id.dup(),
        observation_hash: cat2("sha256:", observation.as_str()),
        verdict: if outcome.accepted() {
            "accept".to_string()
        } else {
            "reject".to_string()
        },
        bound: outcome.bound,
        slack: outcome.slack,
        robust,
        states_explored: outcome.states_explored,
        witness,
        minimal_unsatisfiable_set: core.facts,
        mus_minimal: core.minimal,
        mus_oracle_calls: core.oracle_calls,
        failed_obligations: list_failures(&outcome.failures),
        notes,
        attested_digests: list_attested(obs, outcome),
        issued_at_unix: at,
    }
}

// ---------------------------------------------------------------------------
// Laws
// ---------------------------------------------------------------------------
proof fn lemma_digests(es: Seq<EffectInstanceView>, n: int, d: Str)
    requires
        0 <= n <= es.len(),
    ensures
        digests_upto(es, n).contains(d) <==> is_concrete(d) && exists|i: int|
            0 <= i < n && lookup((#[trigger] es[i]).args, "digest"@) == Some(d),
    decreases n,
{
    if n > 0 {
        lemma_digests(es, n - 1, d);
        let rest = digests_upto(es, n - 1);
        let all = digests_upto(es, n);
        let own = lookup(es[n - 1].args, "digest"@);
        if rest.contains(d) {
            let i = choose|i: int|
                0 <= i < n - 1 && lookup((#[trigger] es[i]).args, "digest"@) == Some(d);
            assert(lookup(es[i].args, "digest"@) == Some(d));
            assert(all[rest.index_of(d)] == d);
        }
        if own == Some(d) && is_concrete(d) {
            assert(all[rest.len() as int] == d);
        }
        if all.contains(d) {
            let k = all.index_of(d);
            if k < rest.len() {
                assert(rest[k] == d);
            } else {
                assert(own == Some(d));
            }
        }
    }
}

/// A certificate attests exactly the concrete digests that were observed in an accepted run.
/// That of a rejected run attests nothing.
pub proof fn only_observed_digests_are_attested(
    obs: ObservationView,
    outcome: VerifyOutcomeView,
    d: Str,
)
    ensures
        attested(obs, outcome).contains(d) <==> {
            &&& outcome.verdict == Verdict::Accept
            &&& is_concrete(d)
            &&& exists|i: int|
                0 <= i < all_effects(obs.records).len() && lookup(
                    (#[trigger] all_effects(obs.records)[i]).args,
                    "digest"@,
                ) == Some(d)
        },
{
    let es = all_effects(obs.records);
    lemma_digests(es, es.len() as int, d);
    lemma_put_items_contains(Seq::empty(), digests_upto(es, es.len() as int), d);
}

/// A rejection that depends on log planes being complete says so: the certificate carries the
/// note exactly where the run would be accepted if no plane were taken to be complete and any
/// step could have gone unlogged.
pub proof fn assumed_completeness_is_declared(
    net: NetView,
    workflow: Str,
    spec_hash: Str,
    obs: ObservationView,
    canonical: Seq<u8>,
    outcome: VerifyOutcomeView,
    robust: Option<bool>,
    at: u64,
)
    ensures
        issued(net, workflow, spec_hash, obs, canonical, outcome, robust, at).notes.contains(
            completeness_note(obs),
        ) <==> outcome.verdict == Verdict::Reject && explainable(
            net,
            obs,
            core_options(obs),
            put_facts(Seq::empty(), all_facts(obs), all_facts(obs).len() as int),
        ),
{
    let core = core_of(net, obs, outcome);
    let note = completeness_note(obs);
    let notes = notes_of(core, obs, outcome);
    reveal_strlit("this rejection holds only because plane(s) [");
    reveal_strlit(
        "the core could not be reduced to a locally minimal set within the oracle budget",
    );
    reveal_strlit("search stopped at the state cap; the result is relative to bound k=");
    assert(note[0] == 't' && note[2] == 'i');
    if core.relaxation_accepts {
        assert(notes[0] == note);
    } else if notes.contains(note) {
        let i = notes.index_of(note);
        assert(notes[i][0] == 's' || notes[i][2] == 'e');
    }
}

} // verus!
