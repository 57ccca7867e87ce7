//! What certificates say, and which are believed.
use crate::certificate::{
    anchor_in, key_fault, key_in, keys_upto, lowered, public_of, signature_check, signature_fault,
    signature_of, signed_with, trust_check, CertificateErrorView, CertificateView,
    SignedCertificateView,
};
use crate::digest::{digest_text, hex_bytes, hex_fault, hex_text, hex_value, is_hex, sha256_of};
use crate::explain::{
    attested, complete_upto, core_of, core_options, failures_upto, issued, notes_of, transitions_upto,
};
use crate::judge::{code_for, evidence_fault, plain_options, robustness, rows_from, wide_options};
use crate::mus::MusResultView;
use crate::net::{failure_text, FailureView, NetView};
use crate::observation::{ObservationView, PlaneView};
use crate::ordered::{lemma_put_items_contains, lookup};
use crate::permissiveness::measured;
use crate::search::{lemma_concat_contains, lemma_push_contains, WitnessStepView};
use crate::text::{decimal, joined, pieces, trimmed, Str};
use crate::verify::{step_count, verified, Verdict, VerifyOutcomeView};
use vstd::prelude::*;
use vstd::utf8::encode_utf8;

verus! {

// ---------------------------------------------------------------------------
// Hexadecimal text
// ---------------------------------------------------------------------------
/// A byte is written as two digits, the high one first; a digit below ten by its numeral, any
/// other by a small letter.
pub proof fn bytes_are_written_as_two_digits(bytes: Seq<u8>, i: int)
    requires
        0 <= i < bytes.len(),
    ensures
        hex_text(bytes).len() == 2 * bytes.len(),
        ({
            let high = bytes[i] as int / 16;
            let low = bytes[i] as int % 16;
            &&& high < 10 ==> hex_text(bytes)[2 * i] as int == '0' as int + high
            &&& high >= 10 ==> hex_text(bytes)[2 * i] as int == 'a' as int + (high - 10)
            &&& low < 10 ==> hex_text(bytes)[2 * i + 1] as int == '0' as int + low
            &&& low >= 10 ==> hex_text(bytes)[2 * i + 1] as int == 'a' as int + (low - 10)
        }),
{
    assert((2 * i) % 2 == 0 && (2 * i) / 2 == i);
    assert((2 * i + 1) % 2 == 1 && (2 * i + 1) / 2 == i);
}

/// Text is hexadecimal where it has an even number of characters, each a numeral or a letter
/// from a to f in either case; it then stands for half as many bytes.
pub proof fn when_text_is_hexadecimal(text: Seq<u8>, i: int)
    ensures
        is_hex(text) <==> text.len() % 2 == 0 && forall|k: int|
            0 <= k < text.len() ==> ({
                let c = #[trigger] text[k] as int;
                ('0' as int <= c <= '9' as int) || ('a' as int <= c <= 'f' as int) || ('A' as int
                    <= c <= 'F' as int)
            }),
        hex_bytes(text).len() == text.len() / 2,
        '0' as int <= text[i] as int <= '9' as int ==> hex_value(text[i]) == Some(
            text[i] as int - '0' as int,
        ),
        'a' as int <= text[i] as int <= 'f' as int ==> hex_value(text[i]) == Some(
            text[i] as int - 'a' as int + 10,
        ),
        'A' as int <= text[i] as int <= 'F' as int ==> hex_value(text[i]) == Some(
            text[i] as int - 'A' as int + 10,
        ),
        is_hex(text) && 0 <= i < text.len() / 2 ==> hex_bytes(text)[i] as int == 16 * hex_value(
            text[2 * i],
        )->0 + hex_value(text[2 * i + 1])->0,
{
    if is_hex(text) {
        assert forall|k: int| 0 <= k < text.len() implies ({
            let c = #[trigger] text[k] as int;
            ('0' as int <= c <= '9' as int) || ('a' as int <= c <= 'f' as int) || ('A' as int <= c
                <= 'F' as int)
        }) by {
            assert(hex_value(text[k]) is Some);
        }
        if 0 <= i < text.len() / 2 {
            assert(hex_value(text[2 * i]) is Some);
            assert(hex_value(text[2 * i + 1]) is Some);
        }
    }
    if text.len() % 2 == 0 && forall|k: int|
        0 <= k < text.len() ==> ({
            let c = #[trigger] text[k] as int;
            ('0' as int <= c <= '9' as int) || ('a' as int <= c <= 'f' as int) || ('A' as int <= c
                <= 'F' as int)
        }) {
        assert forall|k: int| 0 <= k < text.len() implies hex_value(#[trigger] text[k]) is Some by {
            let c = text[k] as int;
            assert(('0' as int <= c <= '9' as int) || ('a' as int <= c <= 'f' as int) || (
            'A' as int <= c <= 'F' as int));
        }
    }
}

/// Small letters are made of capitals, and all else stays.
pub proof fn capitals_are_made_small(s: Str, i: int)
    requires
        0 <= i < s.len(),
    ensures
        lowered(s).len() == s.len(),
        'A' <= s[i] && s[i] <= 'Z' ==> lowered(s)[i] as int == s[i] as int + 32,
        !('A' <= s[i] && s[i] <= 'Z') ==> lowered(s)[i] == s[i],
{
    let c = s[i];
    if 'A' <= c && c <= 'Z' {
        assert((c as u8 + 32) as char as int == c as int + 32);
    }
}

// ---------------------------------------------------------------------------
// Keys and signatures
// ---------------------------------------------------------------------------
/// A key is taken where its text, without the white space around it, is the hexadecimal text of
/// 32 bytes; those bytes are the key.
pub proof fn when_a_key_is_taken(raw: Str)
    ensures
        key_in(raw) is Ok <==> is_hex(encode_utf8(trimmed(raw))) && encode_utf8(trimmed(raw)).len()
            == 64,
        key_in(raw) matches Ok(key) ==> key == hex_bytes(encode_utf8(trimmed(raw))) && key.len()
            == 32,
        key_in(raw) matches Err(e) ==> e is BadKey,
{
}

/// What is signed says the digest of its body, the public key and the signature over the body,
/// each as hexadecimal text, and carries the certificate unchanged.
pub proof fn what_is_signed(certificate: CertificateView, payload: Seq<u8>, secret: Seq<u8>)
    ensures
        ({
            let s = signed_with(certificate, payload, secret);
            &&& s.certificate == certificate
            &&& s.payload_sha256 == hex_text(sha256_of(payload))
            &&& s.public_key == hex_text(public_of(secret))
            &&& s.signature == hex_text(signature_of(secret, payload))
        }),
{
}

/// A signature is good exactly where the key and the signature are hexadecimal text of 32 and
/// 64 bytes, the body has the digest that is written down, the key is usable, and the signature
/// is one of that key over that body.
pub proof fn when_a_signature_is_good(s: SignedCertificateView, payload: Seq<u8>)
    ensures
        signature_check(s, payload) is None <==> {
            &&& is_hex(encode_utf8(s.public_key))
            &&& encode_utf8(s.public_key).len() == 64
            &&& key_fault(hex_bytes(encode_utf8(s.public_key))) is None
            &&& is_hex(encode_utf8(s.signature))
            &&& encode_utf8(s.signature).len() == 128
            &&& hex_text(sha256_of(payload)) == s.payload_sha256
            &&& signature_fault(
                hex_bytes(encode_utf8(s.public_key)),
                payload,
                hex_bytes(encode_utf8(s.signature)),
            ) is None
        },
        !is_hex(encode_utf8(s.public_key)) || encode_utf8(s.public_key).len() != 64 || key_fault(
            hex_bytes(encode_utf8(s.public_key)),
        ) is Some ==> (signature_check(s, payload) matches Some(e) && e is BadKey),
        signature_check(s, payload) matches Some(e) ==> e is BadKey || e is BadSignature,
{
}

/// A certificate is believed exactly where its signature is good and its key, in small letters,
/// is one that is trusted.
pub proof fn when_a_certificate_is_believed(
    s: SignedCertificateView,
    payload: Seq<u8>,
    anchor: Seq<Str>,
)
    ensures
        trust_check(s, payload, anchor) is None <==> signature_check(s, payload) is None
            && anchor.contains(lowered(s.public_key)),
        signature_check(s, payload) is None && !anchor.contains(lowered(s.public_key))
            ==> trust_check(s, payload, anchor) == Some(
            CertificateErrorView::Untrusted(s.public_key),
        ),
        signature_check(s, payload) is Some ==> trust_check(s, payload, anchor) == signature_check(
            s,
            payload,
        ),
{
}

proof fn lemma_keys(parts: Seq<Str>, n: int, key: Str)
    requires
        0 <= n <= parts.len(),
    ensures
        keys_upto(parts, n).contains(key) <==> key.len() > 0 && exists|i: int|
            0 <= i < n && key == lowered(trimmed(#[trigger] parts[i])),
    decreases n,
{
    if n > 0 {
        lemma_keys(parts, n - 1, key);
        lemma_push_contains(keys_upto(parts, n - 1), lowered(trimmed(parts[n - 1])), key);
    }
}

/// The trusted keys are those between the commas, each without white space around it and in
/// small letters; what is empty is no key.
pub proof fn which_keys_are_trusted(raw: Str, key: Str)
    ensures
        anchor_in(raw).contains(key) <==> key.len() > 0 && exists|i: int|
            0 <= i < pieces(raw, ","@).len() && key == lowered(
                trimmed(#[trigger] pieces(raw, ","@)[i]),
            ),
{
    let parts = pieces(raw, ","@);
    lemma_keys(parts, parts.len() as int, key);
    lemma_put_items_contains(Seq::empty(), keys_upto(parts, parts.len() as int), key);
}

/// A certificate is taken as evidence exactly where it is believed, records an accepted run of
/// the workflow, and attests some digest.
pub proof fn when_a_certificate_is_evidence(
    s: SignedCertificateView,
    payload: Seq<u8>,
    workflow: Str,
    anchor: Seq<Str>,
)
    ensures
        evidence_fault(s, payload, workflow, anchor) is None <==> signature_check(s, payload)
            is None && anchor.contains(lowered(s.public_key)) && s.certificate.verdict
            == "accept"@ && s.certificate.workflow == workflow
            && s.certificate.attested_digests.len() > 0,
{
}

// ---------------------------------------------------------------------------
// What a certificate says
// ---------------------------------------------------------------------------
proof fn lemma_transitions(path: Seq<WitnessStepView>, n: int)
    requires
        0 <= n <= path.len(),
    ensures
        transitions_upto(path, n).len() == n,
        forall|i: int| 0 <= i < n ==> #[trigger] transitions_upto(path, n)[i] == path[i].transition,
    decreases n,
{
    if n > 0 {
        lemma_transitions(path, n - 1);
    }
}

proof fn lemma_failures(fs: Seq<FailureView>, n: int)
    requires
        0 <= n <= fs.len(),
    ensures
        failures_upto(fs, n).len() == n,
        forall|i: int| 0 <= i < n ==> #[trigger] failures_upto(fs, n)[i] == failure_text(fs[i]),
    decreases n,
{
    if n > 0 {
        lemma_failures(fs, n - 1);
    }
}

proof fn lemma_complete(planes: Seq<(Str, PlaneView)>, n: int, name: Str)
    requires
        0 <= n <= planes.len(),
    ensures
        complete_upto(planes, n).contains(name) <==> exists|i: int|
            0 <= i < n && (#[trigger] planes[i]).0 == name && planes[i].1.complete,
    decreases n,
{
    if n > 0 {
        lemma_complete(planes, n - 1, name);
        lemma_push_contains(complete_upto(planes, n - 1), planes[n - 1].0, name);
    }
}

/// A certificate says what the run was held against and what came of it: the specification and
/// the observation by their digests, the conclusion, the bound, the slack, the states that were
/// looked at, the transitions of the witness where there is one, the failures as text, the
/// facts that cannot hold together, the digests that it attests, and when it was issued.
pub proof fn what_a_certificate_says(
    net: NetView,
    workflow: Str,
    spec_hash: Str,
    obs: ObservationView,
    canonical: Seq<u8>,
    outcome: VerifyOutcomeView,
    robust: Option<bool>,
    at: u64,
)
    ensures
        ({
            let c = issued(net, workflow, spec_hash, obs, canonical, outcome, robust, at);
            &&& c.workflow == workflow
            &&& c.spec_hash == "sha256:"@ + spec_hash
            &&& c.run_id == obs.run_id
            &&& c.observation_hash == "sha256:"@ + hex_text(sha256_of(canonical))
            &&& outcome.verdict == Verdict::Accept ==> c.verdict == "accept"@
            &&& outcome.verdict != Verdict::Accept ==> c.verdict == "reject"@
            &&& c.bound == outcome.bound && c.slack == outcome.slack && c.robust == robust
            &&& c.states_explored == outcome.states_explored && c.issued_at_unix == at
            &&& outcome.witness is None <==> c.witness is None
            &&& outcome.witness matches Some(w) ==> c.witness->0.len() == w.len() && forall|i: int|
                0 <= i < w.len() ==> #[trigger] c.witness->0[i] == w[i].transition
            &&& c.failed_obligations.len() == outcome.failures.len()
            &&& forall|i: int|
                0 <= i < outcome.failures.len() ==> #[trigger] c.failed_obligations[i]
                    == failure_text(outcome.failures[i])
            &&& outcome.verdict == Verdict::Accept ==> c.minimal_unsatisfiable_set.len() == 0
                && c.mus_minimal && c.mus_oracle_calls == 0
            &&& c.kind == "maskedrunner.non-reachability-certificate/v1"@
            &&& c.engine == "maskedrunner "@ + "0.1.0"@
            &&& outcome.verdict != Verdict::Accept ==> c.attested_digests.len() == 0
        }),
{
    match outcome.witness {
        Some(w) => lemma_transitions(w, w.len() as int),
        None => {},
    }
    lemma_failures(outcome.failures, outcome.failures.len() as int);
}

/// A certificate notes that a rejection rests on planes being complete where it does, that the
/// facts could not be reduced where they could not, and that the search was cut where it was;
/// and nothing else.
pub proof fn what_a_certificate_notes(
    core: MusResultView,
    obs: ObservationView,
    outcome: VerifyOutcomeView,
    note: Str,
    planes: Str,
)
    ensures
        notes_of(core, obs, outcome).contains(note) <==> {
            ||| core.relaxation_accepts && note
                == "this rejection holds only because plane(s) ["@ + joined(
                complete_upto(obs.planes, obs.planes.len() as int),
                ", "@,
            ) + "] are declared complete. If any step may go unlogged, the observation is reachable"@
            ||| !core.minimal && note
                == "the core could not be reduced to a locally minimal set within the oracle budget"@
            ||| outcome.exhausted && note
                == "search stopped at the state cap; the result is relative to bound k="@ + decimal(
                outcome.bound as nat,
            )
        },
        complete_upto(obs.planes, obs.planes.len() as int).contains(planes) <==> exists|i: int|
            0 <= i < obs.planes.len() && (#[trigger] obs.planes[i]).0 == planes
                && obs.planes[i].1.complete,
{
    lemma_complete(obs.planes, obs.planes.len() as int, planes);
    let x = crate::explain::completeness_note(obs);
    let y = "the core could not be reduced to a locally minimal set within the oracle budget"@;
    let z = "search stopped at the state cap; the result is relative to bound k="@ + decimal(
        outcome.bound as nat,
    );
    let a: Seq<Str> = if core.relaxation_accepts {
        seq![x]
    } else {
        Seq::empty()
    };
    let b: Seq<Str> = if core.minimal {
        Seq::empty()
    } else {
        seq![y]
    };
    let c: Seq<Str> = if outcome.exhausted {
        seq![z]
    } else {
        Seq::empty()
    };
    assert(seq![x][0] == x && seq![y][0] == y && seq![z][0] == z);
    assert(seq![x].contains(note) <==> note == x);
    assert(seq![y].contains(note) <==> note == y);
    assert(seq![z].contains(note) <==> note == z);
    lemma_concat_contains(a, b, note);
    lemma_concat_contains(a + b, c, note);
    assert(notes_of(core, obs, outcome) == a + b + c);
}

// ---------------------------------------------------------------------------
// Judging
// ---------------------------------------------------------------------------
/// A conclusion leaves the code 0 where the run is accepted, 1 where it is rejected, and 2
/// where there is none.
pub proof fn what_a_conclusion_leaves()
    ensures
        code_for(Some(true)) == 0,
        code_for(Some(false)) == 1,
        code_for(None) == 2,
{
}

/// A run is searched as deep as it has steps, at least one, and the slack beyond that.
pub proof fn how_deep_a_run_is_searched(obs: ObservationView, slack: usize)
    requires
        step_count(obs) + slack + 1 <= usize::MAX,
        step_count(obs) + obs.records.len() + 5 <= usize::MAX,
    ensures
        step_count(obs) >= 1 ==> plain_options(obs, slack).bound == step_count(obs) + slack,
        step_count(obs) == 0 ==> plain_options(obs, slack).bound == 1 + slack,
        plain_options(obs, slack).slack == slack,
        plain_options(obs, slack).max_states == 200_000,
        wide_options(obs).slack == obs.records.len() + 4,
        wide_options(obs).bound == plain_options(obs, (obs.records.len() + 4) as usize).bound,
        wide_options(obs).max_states == 400_000,
{
}

/// Only a rejection is robust or not: it is not where the run is accepted once any number of
/// steps may have gone unlogged, it is where that was searched to the end in vain, and where
/// the search was cut nobody knows.
pub proof fn when_a_rejection_is_robust(net: NetView, obs: ObservationView, slack: usize)
    ensures
        robustness(net, obs, slack) == Some(true) <==> verified(
            net,
            obs,
            plain_options(obs, slack),
        ).verdict == Verdict::Reject && verified(net, obs, wide_options(obs)).verdict
            == Verdict::Reject && !verified(net, obs, wide_options(obs)).exhausted,
        robustness(net, obs, slack) == Some(false) <==> verified(
            net,
            obs,
            plain_options(obs, slack),
        ).verdict == Verdict::Reject && verified(net, obs, wide_options(obs)).verdict
            == Verdict::Accept,
{
}

/// What is permitted is measured at one depth after the other, from the first to the last, and
/// no further once a measure was cut short.
pub proof fn measures_go_one_depth_at_a_time(
    net: NetView,
    level: int,
    depth: int,
    cap: usize,
    budget: usize,
)
    requires
        0 <= level,
        depth <= usize::MAX,
    ensures
        ({
            let rows = rows_from(net, level, depth, cap, budget);
            &&& level > depth ==> rows.len() == 0
            &&& level <= depth ==> 0 < rows.len() <= depth + 1 - level
            &&& forall|i: int|
                0 <= i < rows.len() ==> #[trigger] rows[i] == measured(
                    net,
                    (level + i) as usize,
                    cap,
                    budget,
                )
            &&& forall|i: int| 0 <= i < rows.len() - 1 ==> !(#[trigger] rows[i]).truncated
            &&& level <= depth && !rows.last().truncated ==> rows.len() == depth + 1 - level
        }),
    decreases depth + 1 - level,
{
    if level <= depth {
        let m = measured(net, level as usize, cap, budget);
        if !m.truncated {
            measures_go_one_depth_at_a_time(net, level + 1, depth, cap, budget);
            let rest = rows_from(net, level + 1, depth, cap, budget);
            let rows = rows_from(net, level, depth, cap, budget);
            assert(rows == seq![m] + rest);
            assert forall|i: int| 0 <= i < rows.len() implies #[trigger] rows[i] == measured(
                net,
                (level + i) as usize,
                cap,
                budget,
            ) by {
                if i > 0 {
                    assert(rows[i] == rest[i - 1]);
                }
            }
            assert forall|i: int| 0 <= i < rows.len() - 1 implies !(#[trigger] rows[i]).truncated by {
                if i > 0 {
                    assert(rows[i] == rest[i - 1]);
                }
            }
            if rest.len() > 0 {
                assert(rows.last() == rest.last());
            }
        }
    }
}

/// What cannot hold together is looked for with four unlogged steps more than there are records.
pub proof fn how_much_slack_a_core_is_looked_for_with(obs: ObservationView)
    requires
        obs.records.len() + 4 <= usize::MAX,
    ensures
        core_options(obs).slack == obs.records.len() + 4,
        core_options(obs).max_states == 200_000,
{
}

} // verus!
