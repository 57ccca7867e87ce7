//! Certificates: what was concluded of a run, signed with Ed25519 so that someone who trusts
//! neither the service nor its storage can check it.

use crate::digest::{
    digest, digest_text, hex_bytes, hex_decode, hex_encode, hex_fault, hex_text,
    hex_text_can_be_read_back, is_hex,
};
use crate::observation::{Fact, FactView};
use crate::ordered::{empty_vec, push_to, sorted_set, Dup, StrSet};
use crate::text::{
    ascii_lower, ascii_lower_char, cat2, cat3, chars_of, pieces, split_text, string_of, trim_text,
    trimmed, Str,
};
use ed25519_dalek::{Signer, Verifier};
use rand::RngCore;
use vstd::prelude::*;
use vstd::string::StringSliceAdditionalSpecFns;
use vstd::utf8::encode_utf8;

verus! {

/// What a certificate says that it is.
pub const CERTIFICATE_KIND: &'static str = "maskedrunner.non-reachability-certificate/v1";

/// The environment variable that holds the signing key.
pub const SIGNING_KEY_ENV: &'static str = "MASKEDRUNNER_SIGNING_KEY";

/// The environment variable that holds the public keys of trusted issuers.
pub const TRUSTED_KEYS_ENV: &'static str = "MASKEDRUNNER_TRUSTED_KEYS";

/// What was concluded of a run, and from what.
#[derive(Debug)]
pub struct Certificate {
    pub kind: String,
    pub engine: String,
    pub workflow: String,
    pub spec_hash: String,
    pub run_id: String,
    pub observation_hash: String,
    pub verdict: String,
    pub bound: usize,
    pub slack: usize,
    pub robust: Option<bool>,
    pub states_explored: usize,
    pub witness: Option<Vec<String>>,
    pub minimal_unsatisfiable_set: Vec<Fact>,
    pub mus_minimal: bool,
    pub mus_oracle_calls: usize,
    pub failed_obligations: Vec<String>,
    pub notes: Vec<String>,
    pub attested_digests: Vec<String>,
    pub issued_at_unix: u64,
}

/// What a [`Certificate`] holds.
pub struct CertificateView {
    pub kind: Str,
    pub engine: Str,
    pub workflow: Str,
    pub spec_hash: Str,
    pub run_id: Str,
    pub observation_hash: Str,
    pub verdict: Str,
    pub bound: usize,
    pub slack: usize,
    pub robust: Option<bool>,
    pub states_explored: usize,
    pub witness: Option<Seq<Str>>,
    pub minimal_unsatisfiable_set: Seq<FactView>,
    pub mus_minimal: bool,
    pub mus_oracle_calls: usize,
    pub failed_obligations: Seq<Str>,
    pub notes: Seq<Str>,
    pub attested_digests: Seq<Str>,
    pub issued_at_unix: u64,
}

impl DeepView for Certificate {
    type V = CertificateView;

    open spec fn deep_view(&self) -> CertificateView {
        CertificateView {
            kind: self.kind.deep_view(),
            engine: self.engine.deep_view(),
            workflow: self.workflow.deep_view(),
            spec_hash: self.spec_hash.deep_view(),
            run_id: self.run_id.deep_view(),
            observation_hash: self.observation_hash.deep_view(),
            verdict: self.verdict.deep_view(),
            bound: self.bound,
            slack: self.slack,
            robust: self.robust,
            states_explored: self.states_explored,
            witness: self.witness.deep_view(),
            minimal_unsatisfiable_set: self.minimal_unsatisfiable_set.deep_view(),
            mus_minimal: self.mus_minimal,
            mus_oracle_calls: self.mus_oracle_calls,
            failed_obligations: self.failed_obligations.deep_view(),
            notes: self.notes.deep_view(),
            attested_digests: self.attested_digests.deep_view(),
            issued_at_unix: self.issued_at_unix,
        }
    }
}

impl Dup for Certificate {
    fn dup(&self) -> (r: Self) {
        Certificate {
            kind: self.kind.dup(),
            engine: self.engine.dup(),
            workflow: self.workflow.dup(),
            spec_hash: self.spec_hash.dup(),
            run_id: self.run_id.dup(),
            observation_hash: self.observation_hash.dup(),
            verdict: self.verdict.dup(),
            bound: self.bound,
            slack: self.slack,
            robust: self.robust,
            states_explored: self.states_explored,
            witness: self.witness.dup(),
            minimal_unsatisfiable_set: self.minimal_unsatisfiable_set.dup(),
            mus_minimal: self.mus_minimal,
            mus_oracle_calls: self.mus_oracle_calls,
            failed_obligations: self.failed_obligations.dup(),
            notes: self.notes.dup(),
            attested_digests: self.attested_digests.dup(),
            issued_at_unix: self.issued_at_unix,
        }
    }
}

/// A certificate with the digest of its encoding, the public key of its issuer and the
/// signature.
#[derive(Debug)]
pub struct SignedCertificate {
    pub certificate: Certificate,
    pub payload_sha256: String,
    pub public_key: String,
    pub signature: String,
}

/// What a [`SignedCertificate`] holds.
pub struct SignedCertificateView {
    pub certificate: CertificateView,
    pub payload_sha256: Str,
    pub public_key: Str,
    pub signature: Str,
}

impl DeepView for SignedCertificate {
    type V = SignedCertificateView;

    open spec fn deep_view(&self) -> SignedCertificateView {
        SignedCertificateView {
            certificate: self.certificate.deep_view(),
            payload_sha256: self.payload_sha256.deep_view(),
            public_key: self.public_key.deep_view(),
            signature: self.signature.deep_view(),
        }
    }
}

impl Dup for SignedCertificate {
    fn dup(&self) -> (r: Self) {
        SignedCertificate {
            certificate: self.certificate.dup(),
            payload_sha256: self.payload_sha256.dup(),
            public_key: self.public_key.dup(),
            signature: self.signature.dup(),
        }
    }
}

/// What is wrong with a key, a signature or an issuer.
#[derive(Debug)]
pub enum CertificateError {
    BadKey(String),
    BadSignature(String),
    Encoding(String),
    Untrusted(String),
}

/// What a [`CertificateError`] holds.
pub enum CertificateErrorView {
    BadKey(Str),
    BadSignature(Str),
    Encoding(Str),
    Untrusted(Str),
}

impl DeepView for CertificateError {
    type V = CertificateErrorView;

    open spec fn deep_view(&self) -> CertificateErrorView {
        match self {
            CertificateError::BadKey(a0) => CertificateErrorView::BadKey(a0.deep_view()),
            CertificateError::BadSignature(a0) => CertificateErrorView::BadSignature(a0.deep_view()),
            CertificateError::Encoding(a0) => CertificateErrorView::Encoding(a0.deep_view()),
            CertificateError::Untrusted(a0) => CertificateErrorView::Untrusted(a0.deep_view()),
        }
    }
}

impl Dup for CertificateError {
    fn dup(&self) -> (r: Self) {
        match self {
            CertificateError::BadKey(a0) => CertificateError::BadKey(a0.dup()),
            CertificateError::BadSignature(a0) => CertificateError::BadSignature(a0.dup()),
            CertificateError::Encoding(a0) => CertificateError::Encoding(a0.dup()),
            CertificateError::Untrusted(a0) => CertificateError::Untrusted(a0.dup()),
        }
    }
}

/// What is wrong, as a reader sees it.
pub open spec fn certificate_error_text(e: CertificateErrorView) -> Str {
    match e {
        CertificateErrorView::BadKey(m) => "signing key is unusable: "@ + m,
        CertificateErrorView::BadSignature(m) => "signature does not verify: "@ + m,
        CertificateErrorView::Encoding(m) => "certificate encoding failed: "@ + m,
        CertificateErrorView::Untrusted(key) => "issuer `"@ + key + "` is not trusted"@,
    }
}

impl CertificateError {
    /// What is wrong, as a reader sees it.
    pub fn render(&self) -> (r: String)
        ensures
            r@ == certificate_error_text(self.deep_view()),
    {
        match self {
            CertificateError::BadKey(m) => cat2("signing key is unusable: ", m.as_str()),
            CertificateError::BadSignature(m) => cat2("signature does not verify: ", m.as_str()),
            CertificateError::Encoding(m) => cat2("certificate encoding failed: ", m.as_str()),
            CertificateError::Untrusted(key) => cat3("issuer `", key.as_str(), "` is not trusted"),
        }
    }
}

// ---------------------------------------------------------------------------
// Ed25519
// ---------------------------------------------------------------------------
/// The public key that belongs to a secret key.
pub uninterp spec fn public_of(secret: Seq<u8>) -> Seq<u8>;

/// The signature of a message under a secret key.
pub uninterp spec fn signature_of(secret: Seq<u8>, message: Seq<u8>) -> Seq<u8>;

/// What is wrong with 32 bytes as a public key, if anything.
pub uninterp spec fn key_fault(key: Seq<u8>) -> Option<Seq<char>>;

/// What is wrong with 64 bytes as the signature of a message under a public key, if anything.
pub uninterp spec fn signature_fault(
    key: Seq<u8>,
    message: Seq<u8>,
    signature: Seq<u8>,
) -> Option<Seq<char>>;

/// `ed25519_dalek::SigningKey::verifying_key`, as bytes: a public key of 32 bytes that depends on
/// the secret key alone and is accepted as one. Which bytes these are is not stated.
#[verifier::external_body]
fn derive_public(secret: &Vec<u8>) -> (r: Vec<u8>)
    requires
        secret@.len() == 32,
    ensures
        r@ == public_of(secret@),
        r@.len() == 32,
        key_fault(r@) is None,
{
    let key: [u8; 32] = secret.as_slice().try_into().unwrap();
    ed25519_dalek::SigningKey::from_bytes(&key).verifying_key().to_bytes().to_vec()
}

/// `ed25519_dalek::SigningKey::sign`: a signature of 64 bytes that depends on the secret key and
/// the message alone, and that verifies under the public key of that secret key. Which bytes
/// these are is not stated.
#[verifier::external_body]
fn make_signature(secret: &Vec<u8>, message: &[u8]) -> (r: Vec<u8>)
    requires
        secret@.len() == 32,
    ensures
        r@ == signature_of(secret@, message@),
        r@.len() == 64,
        signature_fault(public_of(secret@), message@, r@) is None,
{
    let key: [u8; 32] = secret.as_slice().try_into().unwrap();
    ed25519_dalek::SigningKey::from_bytes(&key).sign(message).to_bytes().to_vec()
}

/// `ed25519_dalek::VerifyingKey::from_bytes`: whether 32 bytes are a public key, and if not the
/// error as text. That depends on the bytes alone; which bytes are a key is not stated.
#[verifier::external_body]
fn find_key_fault(key: &Vec<u8>) -> (r: Option<String>)
    requires
        key@.len() == 32,
    ensures
        r.deep_view() == key_fault(key@),
{
    let key: [u8; 32] = key.as_slice().try_into().unwrap();
    ed25519_dalek::VerifyingKey::from_bytes(&key).err().map(|e| e.to_string())
}

/// `ed25519_dalek::VerifyingKey::verify`: whether 64 bytes are a signature of the message under
/// the key, and if not the error as text. That depends on the three alone; which bytes are a
/// signature is not stated.
#[verifier::external_body]
fn find_signature_fault(key: &Vec<u8>, message: &[u8], signature: &Vec<u8>) -> (r: Option<String>)
    requires
        key@.len() == 32,
        signature@.len() == 64,
        key_fault(key@) is None,
    ensures
        r.deep_view() == signature_fault(key@, message@, signature@),
{
    let key: [u8; 32] = key.as_slice().try_into().unwrap();
    let bytes: [u8; 64] = signature.as_slice().try_into().unwrap();
    let signature = ed25519_dalek::Signature::from_bytes(&bytes);
    ed25519_dalek::VerifyingKey::from_bytes(&key)
        .and_then(|k| k.verify(message, &signature))
        .err()
        .map(|e| e.to_string())
}

/// `rand::rngs::OsRng::try_fill_bytes`: 32 bytes from the operating system, if it gives any.
/// Nothing is stated of the bytes, which differ from call to call.
#[verifier::external_body]
fn random_seed() -> (r: Option<Vec<u8>>)
    ensures
        r matches Some(v) ==> v@.len() == 32,
{
    let mut bytes = vec![0u8; 32];
    rand::rngs::OsRng.try_fill_bytes(&mut bytes).ok().map(|_| bytes)
}

// ---------------------------------------------------------------------------
// Keys
// ---------------------------------------------------------------------------
/// The key that hexadecimal text stands for.
pub open spec fn key_in(raw: Str) -> Result<Seq<u8>, CertificateErrorView> {
    let text = encode_utf8(trimmed(raw));
    if !is_hex(text) {
        Err(CertificateErrorView::BadKey(hex_fault(text)))
    } else if hex_bytes(text).len() != 32 {
        Err(CertificateErrorView::BadKey("expected 32 hex-encoded bytes"@))
    } else {
        Ok(hex_bytes(text))
    }
}

/// The key that hexadecimal text stands for: 32 bytes, with white space around them ignored.
pub fn parse_key(raw: &str) -> (r: Result<Vec<u8>, CertificateError>)
    ensures
        match r {
            Ok(k) => key_in(raw@) == Ok::<Seq<u8>, CertificateErrorView>(k@),
            Err(e) => key_in(raw@) == Err::<Seq<u8>, CertificateErrorView>(e.deep_view()),
        },
{
    let text = trim_text(raw);
    match hex_decode(text.as_str().as_bytes()) {
        Err(m) => Err(CertificateError::BadKey(m)),
        Ok(k) => if k.len() != 32 {
            Err(CertificateError::BadKey("expected 32 hex-encoded bytes".to_string()))
        } else {
            Ok(k)
        },
    }
}

/// The secret key to sign with: the configured one, or a new one where none is configured.
///
/// A new key comes from the operating system: nothing is stated of its bytes.
pub fn signing_key(configured: Option<&str>) -> (r: Result<Vec<u8>, CertificateError>)
    ensures
        match configured {
            Some(raw) => match r {
                Ok(k) => key_in(raw@) == Ok::<Seq<u8>, CertificateErrorView>(k@),
                Err(e) => key_in(raw@) == Err::<Seq<u8>, CertificateErrorView>(e.deep_view()),
            },
            None => match r {
                Ok(k) => k@.len() == 32,
                Err(e) => e.deep_view() == CertificateErrorView::BadKey(
                    "the operating system gave no random bytes"@,
                ),
            },
        },
{
    match configured {
        Some(raw) => parse_key(raw),
        None => match random_seed() {
            Some(k) => Ok(k),
            None => Err(
                CertificateError::BadKey(
                    "the operating system gave no random bytes".to_string(),
                ),
            ),
        },
    }
}

/// The public key of a configured signing key, as text.
pub fn public_key_of(raw: &str) -> (r: Result<String, CertificateError>)
    ensures
        match r {
            Ok(k) => key_in(raw@) matches Ok(secret) && k@ == hex_text(public_of(secret)),
            Err(e) => key_in(raw@) == Err::<Seq<u8>, CertificateErrorView>(e.deep_view()),
        },
{
    match parse_key(raw) {
        Ok(secret) => {
            let public = derive_public(&secret);
            Ok(hex_encode(public.as_slice()))
        },
        Err(e) => Err(e),
    }
}

// ---------------------------------------------------------------------------
// Signing
// ---------------------------------------------------------------------------
/// A certificate signed with a secret key, where `payload` is its encoding.
pub open spec fn signed_with(
    certificate: CertificateView,
    payload: Seq<u8>,
    secret: Seq<u8>,
) -> SignedCertificateView {
    SignedCertificateView {
        certificate,
        payload_sha256: digest_text(payload),
        public_key: hex_text(public_of(secret)),
        signature: hex_text(signature_of(secret, payload)),
    }
}

impl Certificate {
    /// The digest of a certificate, where `payload` is its encoding.
    pub fn payload_hash(payload: &[u8]) -> (r: String)
        ensures
            r@ == digest_text(payload@),
    {
        digest(payload)
    }
}

/// Signs a certificate with a secret key; `payload` is its encoding.
pub fn sign_with(certificate: Certificate, payload: &[u8], secret: &Vec<u8>) -> (r:
    SignedCertificate)
    requires
        secret@.len() == 32,
    ensures
        r.deep_view() == signed_with(certificate.deep_view(), payload@, secret@),
        signature_check(r.deep_view(), payload@) is None,
{
    let public = derive_public(secret);
    let signature = make_signature(secret, payload);
    proof {
        hex_text_can_be_read_back(public@);
        hex_text_can_be_read_back(signature@);
    }
    SignedCertificate {
        certificate,
        payload_sha256: digest(payload),
        public_key: hex_encode(public.as_slice()),
        signature: hex_encode(signature.as_slice()),
    }
}

/// Signs a certificate with the configured key, or with a new one where none is configured;
/// `payload` is the encoding of the certificate.
pub fn sign(certificate: Certificate, payload: &[u8], configured: Option<&str>) -> (r: Result<
    SignedCertificate,
    CertificateError,
>)
    ensures
        match configured {
            Some(raw) => match r {
                Ok(s) => key_in(raw@) matches Ok(secret) && s.deep_view() == signed_with(
                    certificate.deep_view(),
                    payload@,
                    secret,
                ),
                Err(e) => key_in(raw@) == Err::<Seq<u8>, CertificateErrorView>(e.deep_view()),
            },
            None => match r {
                Ok(s) => exists|secret: Seq<u8>|
                    secret.len() == 32 && s.deep_view() == #[trigger] signed_with(
                        certificate.deep_view(),
                        payload@,
                        secret,
                    ),
                Err(e) => e.deep_view() == CertificateErrorView::BadKey(
                    "the operating system gave no random bytes"@,
                ),
            },
        },
        r matches Ok(s) ==> signature_check(s.deep_view(), payload@) is None,
{
    match signing_key(configured) {
        Ok(secret) => Ok(sign_with(certificate, payload, &secret)),
        Err(e) => Err(e),
    }
}

// ---------------------------------------------------------------------------
// Checking
// ---------------------------------------------------------------------------
/// What is wrong with a signed certificate, if anything, where `payload` is the encoding of its
/// body: the key, the form of the signature, the digest of the body, and only then the
/// signature itself.
pub open spec fn signature_check(
    s: SignedCertificateView,
    payload: Seq<u8>,
) -> Option<CertificateErrorView> {
    let key_text = encode_utf8(s.public_key);
    let sig_text = encode_utf8(s.signature);
    let key = hex_bytes(key_text);
    let sig = hex_bytes(sig_text);
    if !is_hex(key_text) {
        Some(CertificateErrorView::BadKey(hex_fault(key_text)))
    } else if key.len() != 32 {
        Some(CertificateErrorView::BadKey("public key must be 32 bytes"@))
    } else if key_fault(key) is Some {
        Some(CertificateErrorView::BadKey(key_fault(key)->Some_0))
    } else if !is_hex(sig_text) {
        Some(CertificateErrorView::BadSignature(hex_fault(sig_text)))
    } else if sig.len() != 64 {
        Some(CertificateErrorView::BadSignature("signature must be 64 bytes"@))
    } else if digest_text(payload) != s.payload_sha256 {
        Some(
            CertificateErrorView::BadSignature(
                "payload hash does not match the certificate body"@,
            ),
        )
    } else {
        match signature_fault(key, payload, sig) {
            Some(m) => Some(CertificateErrorView::BadSignature(m)),
            None => None,
        }
    }
}

/// Checks the signature of a certificate; `payload` is the encoding of its body.
pub fn verify_signature(signed: &SignedCertificate, payload: &[u8]) -> (r: Result<
    (),
    CertificateError,
>)
    ensures
        match r {
            Ok(_) => signature_check(signed.deep_view(), payload@) is None,
            Err(e) => signature_check(signed.deep_view(), payload@) == Some(e.deep_view()),
        },
{
    let key = match hex_decode(signed.public_key.as_str().as_bytes()) {
        Ok(k) => k,
        Err(m) => {
            return Err(CertificateError::BadKey(m));
        },
    };
    if key.len() != 32 {
        return Err(CertificateError::BadKey("public key must be 32 bytes".to_string()));
    }
    match find_key_fault(&key) {
        Some(m) => {
            return Err(CertificateError::BadKey(m));
        },
        None => {},
    }
    let signature = match hex_decode(signed.signature.as_str().as_bytes()) {
        Ok(s) => s,
        Err(m) => {
            return Err(CertificateError::BadSignature(m));
        },
    };
    if signature.len() != 64 {
        return Err(CertificateError::BadSignature("signature must be 64 bytes".to_string()));
    }
    if digest(payload) != signed.payload_sha256 {
        return Err(
            CertificateError::BadSignature(
                "payload hash does not match the certificate body".to_string(),
            ),
        );
    }
    match find_signature_fault(&key, payload, &signature) {
        Some(m) => Err(CertificateError::BadSignature(m)),
        None => Ok(()),
    }
}

/// Text with its ASCII letters in lower case.
pub open spec fn lowered(s: Str) -> Str {
    Seq::new(s.len(), |i: int| ascii_lower(s[i]))
}

/// The trusted keys among the first `n` of a list of texts.
pub open spec fn keys_upto(parts: Seq<Str>, n: int) -> Seq<Str>
    decreases n,
{
    if n <= 0 {
        Seq::empty()
    } else {
        let key = lowered(trimmed(parts[n - 1]));
        if key.len() == 0 {
            keys_upto(parts, n - 1)
        } else {
            keys_upto(parts, n - 1).push(key)
        }
    }
}

/// The public keys of the issuers that a list, separated by commas, declares trusted.
pub open spec fn anchor_in(raw: Str) -> Seq<Str> {
    let parts = pieces(raw, ","@);
    sorted_set(keys_upto(parts, parts.len() as int))
}

fn lower_text(s: &str) -> (r: String)
    ensures
        r@ == lowered(s@),
{
    let v = chars_of(s);
    let mut out: Vec<char> = Vec::new();
    let mut i: usize = 0;
    while i < v.len()
        invariant
            i <= v.len(),
            v@ == s@,
            out@ =~= lowered(s@).take(i as int),
        decreases v.len() - i,
    {
        out.push(ascii_lower_char(v[i]));
        i = i + 1;
    }
    assert(lowered(s@).take(i as int) =~= lowered(s@));
    string_of(&out)
}

/// The public keys of the issuers that a list, separated by commas, declares trusted; white
/// space and the case of letters do not matter.
pub fn trust_anchor(raw: &str) -> (r: StrSet)
    ensures
        r.deep_view() == anchor_in(raw@),
{
    proof {
        reveal_strlit(",");
    }
    let parts = split_text(raw, ",");
    let ghost pv = parts.deep_view();
    let mut keys: Vec<String> = empty_vec();
    let mut i: usize = 0;
    while i < parts.len()
        invariant
            i <= parts.len(),
            pv == parts.deep_view(),
            keys.deep_view() == keys_upto(pv, i as int),
        decreases parts.len() - i,
    {
        let part = trim_text(parts[i].as_str());
        let key = lower_text(part.as_str());
        if !key.as_str().is_empty() {
            push_to(&mut keys, key);
        }
        i = i + 1;
    }
    let mut out = StrSet::new();
    out.insert_all(&keys);
    out
}

/// What is wrong with a signed certificate as evidence, if anything: its signature does not
/// verify, or its issuer is not trusted.
pub open spec fn trust_check(
    s: SignedCertificateView,
    payload: Seq<u8>,
    anchor: Seq<Str>,
) -> Option<CertificateErrorView> {
    match signature_check(s, payload) {
        Some(e) => Some(e),
        None => if anchor.contains(lowered(s.public_key)) {
            None
        } else {
            Some(CertificateErrorView::Untrusted(s.public_key))
        },
    }
}

/// Checks that a certificate is one to believe: its signature verifies and its issuer is
/// trusted. `payload` is the encoding of its body.
pub fn check_trusted(signed: &SignedCertificate, payload: &[u8], anchor: &StrSet) -> (r: Result<
    (),
    CertificateError,
>)
    ensures
        match r {
            Ok(_) => trust_check(signed.deep_view(), payload@, anchor.deep_view()) is None,
            Err(e) => trust_check(signed.deep_view(), payload@, anchor.deep_view()) == Some(
                e.deep_view(),
            ),
        },
{
    match verify_signature(signed, payload) {
        Ok(_) => {
            let key = lower_text(signed.public_key.as_str());
            if anchor.contains(key.as_str()) {
                Ok(())
            } else {
                Err(CertificateError::Untrusted(signed.public_key.clone()))
            }
        },
        Err(e) => Err(e),
    }
}

/// With no configured issuer nothing is believed.
pub proof fn an_empty_anchor_believes_nothing(s: SignedCertificateView, payload: Seq<u8>)
    ensures
        trust_check(s, payload, Seq::empty()) is Some,
{
}

/// A valid signature alone is no reason to believe: whatever the signature, an issuer that is
/// not in the anchor is not believed.
pub proof fn an_unknown_issuer_is_not_believed(
    s: SignedCertificateView,
    payload: Seq<u8>,
    anchor: Seq<Str>,
)
    requires
        !anchor.contains(lowered(s.public_key)),
    ensures
        trust_check(s, payload, anchor) is Some,
{
}

/// A certificate whose body was edited after signing is refused before the signature is looked
/// at, unless the edit keeps the digest.
pub proof fn an_edited_body_breaks_the_digest(
    s: SignedCertificateView,
    payload: Seq<u8>,
    edited: CertificateView,
    other: Seq<u8>,
)
    ensures
        signature_check(s, payload) is None && digest_text(other) != digest_text(payload)
            ==> signature_check((SignedCertificateView { certificate: edited, ..s }), other)
            == Some(
            CertificateErrorView::BadSignature(
                "payload hash does not match the certificate body"@,
            ),
        ),
{
}

} // verus!
