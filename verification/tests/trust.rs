use maskedrunner::certificate::{
    check_trusted, public_key_of, sign, trust_anchor, verify_signature, Certificate,
    CertificateError, SignedCertificate, CERTIFICATE_KIND,
};
use maskedrunner::digest::{digest, short_digest};
use maskedrunner::judge::{admit_evidence, exit_code};
use maskedrunner::ordered::{Dup, StrSet};

const SECRET: &str = "9d61b19deffd5a60ba844af492ec2cc44449c5697b326919703bac031cae7f60";
const PUBLIC: &str = "d75a980182b10ab7d54bfed3c964073a0ee172f3daa62325af021a68f707511a";
const SIGNATURE_OF_NOTHING: &str = "e5564300c360ac729086e2cc806e828a84877f1eb8e5d974d873e065224901555fb8821590a33bacc61e39701cf9b46bd25bf5f0595bbe24655141438e7a100b";

fn certificate(run: &str, attests: &[&str]) -> Certificate {
    Certificate {
        kind: CERTIFICATE_KIND.to_string(),
        engine: "test".to_string(),
        workflow: "release-pipeline".to_string(),
        spec_hash: "sha256:00".to_string(),
        run_id: run.to_string(),
        observation_hash: "sha256:00".to_string(),
        verdict: "accept".to_string(),
        bound: 4,
        slack: 0,
        robust: None,
        states_explored: 5,
        witness: None,
        minimal_unsatisfiable_set: Vec::new(),
        mus_minimal: true,
        mus_oracle_calls: 0,
        failed_obligations: Vec::new(),
        notes: Vec::new(),
        attested_digests: attests.iter().map(|d| d.to_string()).collect(),
        issued_at_unix: 0,
    }
}

fn payload(c: &Certificate) -> Vec<u8> {
    format!("{:?}", c).into_bytes()
}

fn issue(c: Certificate) -> (SignedCertificate, Vec<u8>) {
    let bytes = payload(&c);
    match sign(c, &bytes, None) {
        Ok(s) => (s, bytes),
        Err(e) => panic!("signing works: {}", e.render()),
    }
}

fn anchor(keys: &[&str]) -> StrSet {
    let mut set = StrSet::new();
    for k in keys {
        set.insert(k.to_string());
    }
    set
}

#[test]
fn a_valid_signature_is_not_by_itself_a_reason_to_believe_a_certificate() {
    let (forged, bytes) = issue(certificate("attacker-run", &["sha256:DEAD"]));
    assert!(
        verify_signature(&forged, &bytes).is_ok(),
        "a self-signed forgery still has an internally valid signature"
    );

    let defender = anchor(&["1234"]);
    assert!(
        check_trusted(&forged, &bytes, &defender).is_err(),
        "a certificate from an unknown issuer must not be believed"
    );
}

#[test]
fn an_empty_trust_anchor_believes_nothing() {
    let (real, bytes) = issue(certificate("some-run", &["sha256:AA11"]));
    assert!(
        check_trusted(&real, &bytes, &StrSet::new()).is_err(),
        "with no configured issuer the verifier must fail closed, not open"
    );
}

#[test]
fn a_certificate_from_a_trusted_issuer_is_believed() {
    let (real, bytes) = issue(certificate("some-run", &["sha256:AA11"]));
    let trusted = anchor(&[real.public_key.as_str()]);
    assert!(check_trusted(&real, &bytes, &trusted).is_ok());
}

#[test]
fn issuer_matching_ignores_hex_case() {
    let (real, bytes) = issue(certificate("some-run", &["sha256:AA11"]));
    let trusted = anchor(&[real.public_key.to_uppercase().as_str()]);
    assert!(
        check_trusted(&real, &bytes, &trusted).is_err(),
        "the anchor stores lowercase; an uppercase entry reaching the set directly is a miss"
    );
    let normalized = anchor(&[real.public_key.to_lowercase().as_str()]);
    assert!(check_trusted(&real, &bytes, &normalized).is_ok());
}

#[test]
fn an_anchor_is_read_from_a_list_of_keys() {
    let read = trust_anchor(&format!(" {} , ,ABCD ", PUBLIC.to_uppercase()));
    assert_eq!(read.len(), 2);
    assert!(read.contains(PUBLIC));
    assert!(read.contains("abcd"));
    assert_eq!(trust_anchor("  ").len(), 0);
}

#[test]
fn a_configured_key_signs_for_its_public_key() {
    assert_eq!(public_key_of(SECRET).unwrap(), PUBLIC);
    let signed = sign(certificate("r", &[]), b"", Some(SECRET)).unwrap();
    assert_eq!(signed.public_key, PUBLIC);
    assert_eq!(signed.signature, SIGNATURE_OF_NOTHING);
    assert_eq!(
        signed.payload_sha256,
        "e3b0c44298fc1c149afbf4c8996fb92427ae41e4649b934ca495991b7852b855"
    );
    assert!(verify_signature(&signed, b"").is_ok());
}

#[test]
fn two_runs_without_a_configured_key_have_two_issuers() {
    let (a, _) = issue(certificate("a", &[]));
    let (b, _) = issue(certificate("a", &[]));
    assert_ne!(a.public_key, b.public_key);
}

#[test]
fn keys_that_cannot_be_read_are_refused() {
    let odd = public_key_of("abc").unwrap_err();
    assert_eq!(odd.render(), "signing key is unusable: Odd number of digits");
    let letter = public_key_of("zz").unwrap_err();
    assert_eq!(
        letter.render(),
        "signing key is unusable: Invalid character 'z' at position 0"
    );
    let short = public_key_of(" 00ff ").unwrap_err();
    assert_eq!(
        short.render(),
        "signing key is unusable: expected 32 hex-encoded bytes"
    );
    assert!(matches!(short, CertificateError::BadKey(_)));
}

#[test]
fn an_edited_body_is_noticed_before_the_signature() {
    let (real, bytes) = issue(certificate("some-run", &["sha256:AA11"]));
    let mut edited = real.dup();
    edited.certificate.verdict = "reject".to_string();
    let other = payload(&edited.certificate);
    assert_ne!(bytes, other);
    let e = verify_signature(&edited, &other).unwrap_err();
    assert_eq!(
        e.render(),
        "signature does not verify: payload hash does not match the certificate body"
    );
    let mut rehashed = edited;
    rehashed.payload_sha256 = digest(&other);
    assert!(matches!(
        verify_signature(&rehashed, &other),
        Err(CertificateError::BadSignature(_))
    ));
}

#[test]
fn malformed_signatures_are_refused() {
    let (real, bytes) = issue(certificate("some-run", &[]));
    let mut s = real.dup();
    s.public_key = "00".to_string();
    assert_eq!(
        verify_signature(&s, &bytes).unwrap_err().render(),
        "signing key is unusable: public key must be 32 bytes"
    );
    let mut s = real.dup();
    s.signature = "00".to_string();
    assert_eq!(
        verify_signature(&s, &bytes).unwrap_err().render(),
        "signature does not verify: signature must be 64 bytes"
    );
    let mut s = real.dup();
    s.signature = "x".to_string();
    assert!(matches!(
        verify_signature(&s, &bytes),
        Err(CertificateError::BadSignature(_))
    ));
    let mut s = real;
    s.public_key = "02".repeat(32);
    assert!(verify_signature(&s, &bytes).is_err());
}

#[test]
fn evidence_is_taken_only_from_trusted_acceptances() {
    let (real, bytes) = issue(certificate("some-run", &["sha256:AA11"]));
    let trusted = anchor(&[real.public_key.as_str()]);
    let taken = admit_evidence(&real, &bytes, "release-pipeline", &trusted).unwrap();
    assert_eq!(taken.run_id, "some-run");
    assert_eq!(taken.digests, vec!["sha256:AA11"]);
    assert!(admit_evidence(&real, &bytes, "release-pipeline", &StrSet::new()).is_err());
    assert_eq!(
        admit_evidence(&real, &bytes, "other", &trusted).unwrap_err(),
        "certificate is for workflow `release-pipeline`, not `other`"
    );

    let mut rejected = certificate("some-run", &["sha256:AA11"]);
    rejected.verdict = "reject".to_string();
    let (rejected, bytes) = issue(rejected);
    let trusted = anchor(&[rejected.public_key.as_str()]);
    assert_eq!(
        admit_evidence(&rejected, &bytes, "release-pipeline", &trusted).unwrap_err(),
        "certificate records a `reject` verdict, so it attests nothing"
    );

    let (empty, bytes) = issue(certificate("some-run", &[]));
    let trusted = anchor(&[empty.public_key.as_str()]);
    assert_eq!(
        admit_evidence(&empty, &bytes, "release-pipeline", &trusted).unwrap_err(),
        "certificate attests no artifact digest"
    );
}

#[test]
fn digests_are_hexadecimal_text() {
    assert_eq!(
        digest(b"abc"),
        "ba7816bf8f01cfea414140de5dae2223b00361a396177a9cb410ff61f20015ad"
    );
    assert_eq!(short_digest(&digest(b"abc")), "ba7816bf8f01");
}

#[test]
fn three_conclusions_have_three_codes() {
    assert_eq!(exit_code(Some(true)), 0);
    assert_eq!(exit_code(Some(false)), 1);
    assert_eq!(exit_code(None), 2);
}
