//! Judging a run: the verdict, whether a rejection survives all the unlogged steps that could
//! be assumed, the certificate of both, and the evidence of earlier runs that may be presented.

use crate::certificate::{
    certificate_error_text, check_trusted, trust_check, Certificate, CertificateView,
    SignedCertificate, SignedCertificateView,
};
use crate::explain::{core_options, explain, issued};
use crate::load::{LoadedSpec, LoadedSpecView};
use crate::mus::{can_extract, mus_fits, MusOptions};
use crate::net::{net_ok, Net, NetView};
use crate::observation::{Observation, ObservationView};
use crate::ordered::{empty_vec, push_to, Dup, StrSet};
use crate::permissiveness::{
    count_fits, measured, permissiveness, Permissiveness, PermissivenessView,
};
use crate::text::{cat3, cat5, same_text, Str};
use crate::verify::{
    can_search, fits, roomy_bound, verified, verify, Verdict, VerifyOptions, VerifyOutcome,
    VerifyOutcomeView, MAX_STATES,
};
use vstd::prelude::*;

verus! {

/// A verdict, whether a rejection is robust, and the certificate.
#[derive(Debug)]
pub struct Assessment {
    pub outcome: VerifyOutcome,
    pub robust: Option<bool>,
    pub certificate: Certificate,
}

/// What a [`Assessment`] holds.
pub struct AssessmentView {
    pub outcome: VerifyOutcomeView,
    pub robust: Option<bool>,
    pub certificate: CertificateView,
}

impl DeepView for Assessment {
    type V = AssessmentView;

    open spec fn deep_view(&self) -> AssessmentView {
        AssessmentView {
            outcome: self.outcome.deep_view(),
            robust: self.robust,
            certificate: self.certificate.deep_view(),
        }
    }
}

/// What an earlier run attests.
#[derive(Debug)]
pub struct PresentedEvidence {
    pub run_id: String,
    pub digests: Vec<String>,
}

/// What a [`PresentedEvidence`] holds.
pub struct PresentedEvidenceView {
    pub run_id: Str,
    pub digests: Seq<Str>,
}

impl DeepView for PresentedEvidence {
    type V = PresentedEvidenceView;

    open spec fn deep_view(&self) -> PresentedEvidenceView {
        PresentedEvidenceView {
            run_id: self.run_id.deep_view(),
            digests: self.digests.deep_view(),
        }
    }
}

impl Dup for PresentedEvidence {
    fn dup(&self) -> (r: Self) {
        PresentedEvidence {
            run_id: self.run_id.dup(),
            digests: self.digests.dup(),
        }
    }
}

// ---------------------------------------------------------------------------
// The verdict
// ---------------------------------------------------------------------------
/// The most states looked at when a rejection is put to the test.
pub const WIDE_STATES: usize = 400_000;

/// How far the search goes for a verdict.
pub open spec fn plain_options(obs: ObservationView, slack: usize) -> VerifyOptions {
    VerifyOptions {
        bound: roomy_bound(obs, slack as int) as usize,
        slack,
        max_states: MAX_STATES,
    }
}

/// How far the search goes to put a rejection to the test: as many unlogged steps as there are
/// records, and four more.
pub open spec fn wide_options(obs: ObservationView) -> VerifyOptions {
    VerifyOptions {
        bound: roomy_bound(obs, obs.records.len() as int + 4) as usize,
        slack: (obs.records.len() + 4) as usize,
        max_states: WIDE_STATES,
    }
}

/// Whether both searches can be counted.
pub open spec fn judgeable(net: NetView, obs: ObservationView, slack: usize) -> bool {
    &&& roomy_bound(obs, slack as int) <= usize::MAX
    &&& roomy_bound(obs, obs.records.len() as int + 4) <= usize::MAX
    &&& fits(net, plain_options(obs, slack))
    &&& fits(net, wide_options(obs))
}

/// Whether the rejection of a run survives as many unlogged steps as there are records, and
/// four more. An accepted run raises no such question, and a search that was cut short does
/// not answer it.
pub open spec fn robustness(net: NetView, obs: ObservationView, slack: usize) -> Option<bool> {
    let wide = verified(net, obs, wide_options(obs));
    if verified(net, obs, plain_options(obs, slack)).verdict == Verdict::Accept {
        None
    } else if wide.verdict == Verdict::Accept {
        Some(false)
    } else if wide.exhausted {
        None
    } else {
        Some(true)
    }
}

fn bound_fits(obs: &Observation, slack: usize) -> (r: bool)
    ensures
        r == (roomy_bound(obs.deep_view(), slack as int) <= usize::MAX),
{
    let steps = obs.step_records();
    let n: usize = if steps.len() > 1 {
        steps.len()
    } else {
        1
    };
    n.checked_add(slack).is_some()
}

/// Whether a run can be judged at this slack without a counter overflowing.
pub fn can_judge(net: &Net, obs: &Observation, slack: usize) -> (r: bool)
    ensures
        r == judgeable(net.deep_view(), obs.deep_view(), slack),
{
    assert(obs.records.len() == obs.deep_view().records.len());
    match obs.records.len().checked_add(4) {
        Some(more) => {
            if !bound_fits(obs, slack) || !bound_fits(obs, more) {
                return false;
            }
            let plain = VerifyOptions::for_observation(obs, slack);
            let mut wide = VerifyOptions::for_observation(obs, more);
            wide.max_states = WIDE_STATES;
            can_search(net, &plain) && can_search(net, &wide)
        },
        None => false,
    }
}

/// The verdict on a run, and whether a rejection is robust.
pub fn judge(net: &Net, obs: &Observation, slack: usize) -> (r: (VerifyOutcome, Option<bool>))
    requires
        net_ok(net.deep_view()),
        judgeable(net.deep_view(), obs.deep_view(), slack),
    ensures
        r.0.deep_view() == verified(
            net.deep_view(),
            obs.deep_view(),
            plain_options(obs.deep_view(), slack),
        ),
        r.1 == robustness(net.deep_view(), obs.deep_view(), slack),
{
    let ghost ov = obs.deep_view();
    assert(obs.records.len() == ov.records.len());
    let plain = VerifyOptions::for_observation(obs, slack);
    assert(plain == plain_options(ov, slack));
    let outcome = verify(net, obs, plain);
    let robust = if outcome.accepted() {
        None
    } else {
        let mut wide = VerifyOptions::for_observation(obs, obs.records.len() + 4);
        wide.max_states = WIDE_STATES;
        assert(wide == wide_options(ov));
        let again = verify(net, obs, wide);
        if again.accepted() {
            Some(false)
        } else if again.exhausted {
            None
        } else {
            Some(true)
        }
    };
    (outcome, robust)
}

/// Whether a run can be judged and its certificate made out.
pub open spec fn assessable(net: NetView, obs: ObservationView, slack: usize) -> bool {
    &&& judgeable(net, obs, slack)
    &&& obs.records.len() + 4 <= usize::MAX
    &&& mus_fits(net, obs, core_options(obs))
}

/// Whether a run can be judged and its certificate made out without a counter overflowing.
pub fn can_assess(net: &Net, obs: &Observation, slack: usize) -> (r: bool)
    ensures
        r == assessable(net.deep_view(), obs.deep_view(), slack),
{
    assert(obs.records.len() == obs.deep_view().records.len());
    match obs.records.len().checked_add(4) {
        Some(more) => {
            let core = MusOptions { slack: more, max_states: MAX_STATES };
            can_judge(net, obs, slack) && can_extract(net, obs, &core)
        },
        None => false,
    }
}

/// What an assessment says.
pub open spec fn assessed(
    loaded: LoadedSpecView,
    net: NetView,
    obs: ObservationView,
    canonical: Seq<u8>,
    slack: usize,
    at: u64,
) -> AssessmentView {
    let outcome = verified(net, obs, plain_options(obs, slack));
    let robust = robustness(net, obs, slack);
    AssessmentView {
        outcome,
        robust,
        certificate: issued(
            net,
            loaded.spec.workflow,
            loaded.hash,
            obs,
            canonical,
            outcome,
            robust,
            at,
        ),
    }
}

/// Judges a run and makes out the certificate. `canonical` is the canonical encoding of the
/// observation and `at` the time of issue.
pub fn assess(
    loaded: &LoadedSpec,
    net: &Net,
    obs: &Observation,
    canonical: &[u8],
    slack: usize,
    at: u64,
) -> (r: Assessment)
    requires
        net_ok(net.deep_view()),
        assessable(net.deep_view(), obs.deep_view(), slack),
    ensures
        r.deep_view() == assessed(
            loaded.deep_view(),
            net.deep_view(),
            obs.deep_view(),
            canonical@,
            slack,
            at,
        ),
{
    let (outcome, robust) = judge(net, obs, slack);
    let certificate = explain(
        net,
        loaded.spec.workflow.as_str(),
        loaded.hash.as_str(),
        obs,
        canonical,
        &outcome,
        robust,
        at,
    );
    Assessment { outcome, robust, certificate }
}

// ---------------------------------------------------------------------------
// The exit code
// ---------------------------------------------------------------------------
/// The exit code of a conclusion: accepted, rejected, or no verdict.
pub open spec fn code_for(accepted: Option<bool>) -> u8 {
    match accepted {
        Some(true) => 0,
        Some(false) => 1,
        None => 2,
    }
}

/// The exit code of a conclusion: 0 where the run is accepted, 1 where it is rejected, and 2
/// where there is no verdict.
pub fn exit_code(accepted: Option<bool>) -> (r: u8)
    ensures
        r == code_for(accepted),
{
    match accepted {
        Some(true) => 0,
        Some(false) => 1,
        None => 2,
    }
}

/// The three conclusions have three exit codes: a run that could not be read is never shown as
/// rejected.
pub proof fn conclusions_are_told_apart(a: Option<bool>, b: Option<bool>)
    ensures
        code_for(a) == code_for(b) <==> a == b,
{
}

// ---------------------------------------------------------------------------
// Evidence
// ---------------------------------------------------------------------------
/// Why a certificate is not taken as evidence for a workflow, if it is not: it must come from
/// a trusted issuer, unedited, record an accepted run of that workflow, and attest some digest.
pub open spec fn evidence_fault(
    s: SignedCertificateView,
    payload: Seq<u8>,
    workflow: Str,
    anchor: Seq<Str>,
) -> Option<Str> {
    match trust_check(s, payload, anchor) {
        Some(e) => Some(certificate_error_text(e)),
        None => if s.certificate.verdict != "accept"@ {
            Some(
                "certificate records a `"@ + s.certificate.verdict
                    + "` verdict, so it attests nothing"@,
            )
        } else if s.certificate.workflow != workflow {
            Some(
                "certificate is for workflow `"@ + s.certificate.workflow + "`, not `"@ + workflow
                    + "`"@,
            )
        } else if s.certificate.attested_digests.len() == 0 {
            Some("certificate attests no artifact digest"@)
        } else {
            None
        },
    }
}

/// Takes a certificate of an earlier run as evidence. `payload` is the canonical encoding of
/// its body and `anchor` the public keys of trusted issuers.
pub fn admit_evidence(
    signed: &SignedCertificate,
    payload: &[u8],
    workflow: &str,
    anchor: &StrSet,
) -> (r: Result<PresentedEvidence, String>)
    ensures
        match r {
            Ok(p) => evidence_fault(
                signed.deep_view(),
                payload@,
                workflow@,
                anchor.deep_view(),
            ) is None && p.deep_view() == (PresentedEvidenceView {
                run_id: signed.deep_view().certificate.run_id,
                digests: signed.deep_view().certificate.attested_digests,
            }),
            Err(m) => evidence_fault(
                signed.deep_view(),
                payload@,
                workflow@,
                anchor.deep_view(),
            ) == Some(m@),
        },
{
    match check_trusted(signed, payload, anchor) {
        Ok(_) => {},
        Err(e) => {
            return Err(e.render());
        },
    }
    let c = &signed.certificate;
    if !same_text(c.verdict.as_str(), "accept") {
        return Err(
            cat3(
                "certificate records a `",
                c.verdict.as_str(),
                "` verdict, so it attests nothing",
            ),
        );
    }
    if !same_text(c.workflow.as_str(), workflow) {
        return Err(
            cat5(
                "certificate is for workflow `",
                c.workflow.as_str(),
                "`, not `",
                workflow,
                "`",
            ),
        );
    }
    assert(c.attested_digests.len() == c.deep_view().attested_digests.len());
    if c.attested_digests.len() == 0 {
        return Err("certificate attests no artifact digest".to_string());
    }
    Ok(PresentedEvidence { run_id: c.run_id.dup(), digests: c.attested_digests.dup() })
}

/// What a rejected run, another workflow or an issuer that is not trusted attests is never
/// taken as evidence.
pub proof fn only_trusted_acceptances_are_evidence(
    s: SignedCertificateView,
    payload: Seq<u8>,
    workflow: Str,
    anchor: Seq<Str>,
)
    requires
        evidence_fault(s, payload, workflow, anchor) is None,
    ensures
        trust_check(s, payload, anchor) is None,
        s.certificate.verdict == "accept"@,
        s.certificate.workflow == workflow,
        s.certificate.attested_digests.len() > 0,
{
}

// ---------------------------------------------------------------------------
// Permissiveness by depth
// ---------------------------------------------------------------------------
/// What is measured at each depth from `level` on, up to `depth` or the first measure that was
/// cut short.
pub open spec fn rows_from(
    net: NetView,
    level: int,
    depth: int,
    cap: usize,
    budget: usize,
) -> Seq<PermissivenessView>
    decreases depth + 1 - level,
{
    if level > depth {
        Seq::empty()
    } else {
        let m = measured(net, level as usize, cap, budget);
        if m.truncated {
            seq![m]
        } else {
            seq![m] + rows_from(net, level + 1, depth, cap, budget)
        }
    }
}

/// Measures the workflow at each depth, up to the first measure that is cut short.
pub fn measure(net: &Net, depth: usize, cap: usize, budget: usize) -> (r: Vec<Permissiveness>)
    requires
        net_ok(net.deep_view()),
        count_fits(net.deep_view(), budget),
    ensures
        r.deep_view() == rows_from(net.deep_view(), 1, depth as int, cap, budget),
{
    let ghost nv = net.deep_view();
    let mut out: Vec<Permissiveness> = empty_vec();
    let mut done: usize = 0;
    assert(out.deep_view() + rows_from(nv, 1, depth as int, cap, budget) =~= rows_from(
        nv,
        1,
        depth as int,
        cap,
        budget,
    ));
    while done < depth
        invariant
            done <= depth,
            nv == net.deep_view(),
            net_ok(nv),
            count_fits(nv, budget),
            out.deep_view() + rows_from(nv, done + 1, depth as int, cap, budget) == rows_from(
                nv,
                1,
                depth as int,
                cap,
                budget,
            ),
        decreases depth - done,
    {
        let ghost so_far = out.deep_view();
        let m = permissiveness(net, done + 1, cap, budget);
        let ghost mv = m.deep_view();
        let stop = m.truncated;
        push_to(&mut out, m);
        if stop {
            assert(out.deep_view() =~= so_far + rows_from(
                nv,
                done + 1,
                depth as int,
                cap,
                budget,
            ));
            return out;
        }
        assert(so_far.push(mv) + rows_from(nv, done + 2, depth as int, cap, budget) =~= so_far + (
        seq![mv] + rows_from(nv, done + 2, depth as int, cap, budget)));
        done = done + 1;
    }
    assert(out.deep_view() =~= out.deep_view() + rows_from(
        nv,
        done + 1,
        depth as int,
        cap,
        budget,
    ));
    out
}

} // verus!
