//! Specifications as they are loaded: checked for their version, linted, and known by the
//! digest of their text.

use crate::digest::{digest, digest_text, short_digest, short_text};
use crate::lint::{
    lint, linted, of_severity, sound, sound_reports_list_no_error, LintReport, LintReportView,
    Severity,
};
use crate::model::{Spec, SpecView};
use crate::ordered::Dup;
use crate::text::{cat2, cat3, cat5, decimal, decimal_text, Str};
use vstd::prelude::*;
use vstd::string::StringSliceAdditionalSpecFns;
use vstd::utf8::{encode_utf8, is_char_boundary};

verus! {

/// A specification with the digest of its text and what linting found.
#[derive(Debug)]
pub struct LoadedSpec {
    pub spec: Spec,
    pub hash: String,
    pub report: LintReport,
}

/// What a [`LoadedSpec`] holds.
pub struct LoadedSpecView {
    pub spec: SpecView,
    pub hash: Str,
    pub report: LintReportView,
}

impl DeepView for LoadedSpec {
    type V = LoadedSpecView;

    open spec fn deep_view(&self) -> LoadedSpecView {
        LoadedSpecView {
            spec: self.spec.deep_view(),
            hash: self.hash.deep_view(),
            report: self.report.deep_view(),
        }
    }
}

impl Dup for LoadedSpec {
    fn dup(&self) -> (r: Self) {
        LoadedSpec {
            spec: self.spec.dup(),
            hash: self.hash.dup(),
            report: self.report.dup(),
        }
    }
}

/// Why a specification is not accepted.
#[derive(Debug)]
pub enum WslError {
    Unsound { workflow: String, count: usize },
    Version(u32),
}

/// What a [`WslError`] holds.
pub enum WslErrorView {
    Unsound { workflow: Str, count: usize },
    Version(u32),
}

impl DeepView for WslError {
    type V = WslErrorView;

    open spec fn deep_view(&self) -> WslErrorView {
        match self {
            WslError::Unsound { workflow, count } => WslErrorView::Unsound {
                workflow: workflow.deep_view(),
                count: *count,
            },
            WslError::Version(a0) => WslErrorView::Version(*a0),
        }
    }
}

impl Dup for WslError {
    fn dup(&self) -> (r: Self) {
        match self {
            WslError::Unsound { workflow, count } => WslError::Unsound {
                workflow: workflow.dup(),
                count: *count,
            },
            WslError::Version(a0) => WslError::Version(*a0),
        }
    }
}

/// The message of an error.
pub open spec fn wsl_error_text(e: WslErrorView) -> Str {
    match e {
        WslErrorView::Unsound { workflow, count } => "spec `"@ + workflow + "` is not sound: "@
            + decimal(count as nat) + " error(s)"@,
        WslErrorView::Version(v) => "unsupported spec_version "@ + decimal(v as nat),
    }
}

impl WslError {
    /// The message.
    pub fn render(&self) -> (r: String)
        ensures
            r@ == wsl_error_text(self.deep_view()),
    {
        match self {
            WslError::Unsound { workflow, count } => {
                let n = decimal_text(*count as u64);
                cat5("spec `", workflow.as_str(), "` is not sound: ", n.as_str(), " error(s)")
            },
            WslError::Version(v) => {
                let n = decimal_text(*v as u64);
                cat2("unsupported spec_version ", n.as_str())
            },
        }
    }
}

/// How a loaded specification is called for short.
pub open spec fn short_name(workflow: Str, hash: Str) -> Str {
    workflow + "@sha256:"@ + short_text(hash)
}

impl LoadedSpec {
    /// The workflow with the first twelve bytes of the digest; the digest must have that many,
    /// and they must end with a character.
    pub fn short_hash(&self) -> (r: String)
        requires
            is_char_boundary(encode_utf8(self.deep_view().hash), 12),
        ensures
            r@ == short_name(self.deep_view().spec.workflow, self.deep_view().hash),
    {
        let short = short_digest(self.hash.as_str());
        cat3(self.spec.workflow.as_str(), "@sha256:", short.as_str())
    }
}

/// What loading makes of a text and the specification that it holds.
pub open spec fn loaded(raw: Str, spec: SpecView) -> Result<LoadedSpecView, WslErrorView> {
    if spec.spec_version != 1 {
        Err(WslErrorView::Version(spec.spec_version))
    } else {
        Ok(
            LoadedSpecView {
                spec,
                hash: digest_text(encode_utf8(raw)),
                report: linted(spec),
            },
        )
    }
}

/// What loading makes of a text and the specification that it holds, where only a sound one
/// is accepted.
pub open spec fn checked(raw: Str, spec: SpecView) -> Result<LoadedSpecView, WslErrorView> {
    match loaded(raw, spec) {
        Ok(l) => if sound(l.report.diagnostics) {
            Ok(l)
        } else {
            let ds = l.report.diagnostics;
            Err(
                WslErrorView::Unsound {
                    workflow: spec.workflow,
                    count: of_severity(ds, Severity::Error, ds.len() as int).len() as usize,
                },
            )
        },
        Err(e) => Err(e),
    }
}

/// Takes in a text and the specification that was parsed from it.
pub fn parse_str(raw: &str, spec: Spec) -> (r: Result<LoadedSpec, WslError>)
    ensures
        match r {
            Ok(l) => loaded(raw@, spec.deep_view()) == Ok::<LoadedSpecView, WslErrorView>(
                l.deep_view(),
            ) && is_char_boundary(encode_utf8(l.deep_view().hash), 12),
            Err(e) => loaded(raw@, spec.deep_view()) == Err::<LoadedSpecView, WslErrorView>(
                e.deep_view(),
            ),
        },
{
    if spec.spec_version != 1 {
        return Err(WslError::Version(spec.spec_version));
    }
    let report = lint(&spec);
    let hash = digest(raw.as_bytes());
    Ok(LoadedSpec { spec, hash, report })
}

/// Takes in a text and the specification that was parsed from it, if it is sound.
pub fn load_checked(raw: &str, spec: Spec) -> (r: Result<LoadedSpec, WslError>)
    ensures
        match r {
            Ok(l) => checked(raw@, spec.deep_view()) == Ok::<LoadedSpecView, WslErrorView>(
                l.deep_view(),
            ) && is_char_boundary(encode_utf8(l.deep_view().hash), 12),
            Err(e) => checked(raw@, spec.deep_view()) == Err::<LoadedSpecView, WslErrorView>(
                e.deep_view(),
            ),
        },
{
    let l = parse_str(raw, spec)?;
    if l.report.is_sound() {
        Ok(l)
    } else {
        let errors = l.report.errors();
        assert(errors.len() == errors.deep_view().len());
        Err(WslError::Unsound { workflow: l.spec.workflow.dup(), count: errors.len() })
    }
}

/// A checked specification has no finding that is an error, and one that is refused as unsound
/// has at least one.
pub proof fn only_sound_specifications_are_checked(raw: Str, spec: SpecView)
    ensures
        match checked(raw, spec) {
            Ok(l) => l.spec == spec && sound(linted(spec).diagnostics),
            Err(e) => spec.spec_version != 1 || !sound(linted(spec).diagnostics),
        },
{
    sound_reports_list_no_error(linted(spec).diagnostics);
}

} // verus!
