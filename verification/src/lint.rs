//! Static soundness of a specification.

use crate::index::{set_contains, set_insert, set_new, texts_of};
use crate::model::{
    vars_of, EffectTemplate, EffectTemplateView, Invariant, InvariantKind, InvariantKindView,
    InvariantView, PlaceView, RelationObligationView, RelationSchemaView, Spec, SpecView,
    Transition, TransitionView,
};
use crate::ordered::{append_to, empty_vec, keys_of, lookup, push_to, vec_contains, Dup};
use crate::search::{lemma_concat_contains, set_flags};
use crate::text::{cat3, cat4, cat5, cat7, same_text, Str};
use indexmap::IndexSet;
use vstd::prelude::*;

verus! {

/// How bad a finding is.
#[derive(Debug, Clone, Copy, PartialEq, Eq, Structural)]
pub enum Severity {
    Error,
    Warning,
}

impl DeepView for Severity {
    type V = Severity;

    open spec fn deep_view(&self) -> Severity {
        *self
    }
}

impl Dup for Severity {
    fn dup(&self) -> (r: Self) {
        *self
    }
}

/// A finding.
#[derive(Debug)]
pub struct Diagnostic {
    pub severity: Severity,
    pub code: &'static str,
    pub message: String,
}

/// What a [`Diagnostic`] holds.
pub struct DiagnosticView {
    pub severity: Severity,
    pub code: Str,
    pub message: Str,
}

impl DeepView for Diagnostic {
    type V = DiagnosticView;

    open spec fn deep_view(&self) -> DiagnosticView {
        DiagnosticView {
            severity: self.severity,
            code: self.code@,
            message: self.message@,
        }
    }
}

impl Dup for Diagnostic {
    fn dup(&self) -> (r: Self) {
        Diagnostic { severity: self.severity, code: self.code, message: self.message.dup() }
    }
}

/// All findings, in order.
#[derive(Debug)]
pub struct LintReport {
    pub diagnostics: Vec<Diagnostic>,
}

/// What a [`LintReport`] holds.
pub struct LintReportView {
    pub diagnostics: Seq<DiagnosticView>,
}

impl DeepView for LintReport {
    type V = LintReportView;

    open spec fn deep_view(&self) -> LintReportView {
        LintReportView {
            diagnostics: self.diagnostics.deep_view(),
        }
    }
}

impl Dup for LintReport {
    fn dup(&self) -> (r: Self) {
        LintReport {
            diagnostics: self.diagnostics.dup(),
        }
    }
}

// ---------------------------------------------------------------------------
// The report
// ---------------------------------------------------------------------------
pub open spec fn error_at(code: Str, message: Str) -> DiagnosticView {
    DiagnosticView { severity: Severity::Error, code, message }
}

pub open spec fn warning_at(code: Str, message: Str) -> DiagnosticView {
    DiagnosticView { severity: Severity::Warning, code, message }
}

/// Those of the first `n` findings that have this severity.
pub open spec fn of_severity(ds: Seq<DiagnosticView>, sev: Severity, n: int) -> Seq<DiagnosticView>
    decreases n,
{
    if n <= 0 {
        Seq::empty()
    } else if ds[n - 1].severity == sev {
        of_severity(ds, sev, n - 1).push(ds[n - 1])
    } else {
        of_severity(ds, sev, n - 1)
    }
}

/// Whether no finding is an error.
pub open spec fn sound(ds: Seq<DiagnosticView>) -> bool {
    forall|i: int| 0 <= i < ds.len() ==> (#[trigger] ds[i]).severity != Severity::Error
}

fn error(code: &'static str, message: String) -> (r: Diagnostic)
    ensures
        r.deep_view() == error_at(code@, message@),
{
    Diagnostic { severity: Severity::Error, code, message }
}

fn warning(code: &'static str, message: String) -> (r: Diagnostic)
    ensures
        r.deep_view() == warning_at(code@, message@),
{
    Diagnostic { severity: Severity::Warning, code, message }
}

impl LintReport {
    /// Whether no finding is an error.
    pub fn is_sound(&self) -> (r: bool)
        ensures
            r == sound(self.deep_view().diagnostics),
    {
        let ghost ds = self.diagnostics.deep_view();
        let mut i: usize = 0;
        while i < self.diagnostics.len()
            invariant
                i <= self.diagnostics.len(),
                ds == self.diagnostics.deep_view(),
                forall|j: int| 0 <= j < i ==> (#[trigger] ds[j]).severity != Severity::Error,
            decreases self.diagnostics.len() - i,
        {
            assert(ds[i as int] == self.diagnostics[i as int].deep_view());
            if self.diagnostics[i].severity == Severity::Error {
                return false;
            }
            i = i + 1;
        }
        true
    }

    fn pick(&self, sev: Severity) -> (r: Vec<&Diagnostic>)
        ensures
            r.deep_view() == of_severity(
                self.deep_view().diagnostics,
                sev,
                self.deep_view().diagnostics.len() as int,
            ),
    {
        let mut out: Vec<&Diagnostic> = empty_vec();
        let mut i: usize = 0;
        while i < self.diagnostics.len()
            invariant
                i <= self.diagnostics.len(),
                out.deep_view() == of_severity(self.diagnostics.deep_view(), sev, i as int),
            decreases self.diagnostics.len() - i,
        {
            if self.diagnostics[i].severity == sev {
                push_to(&mut out, &self.diagnostics[i]);
            }
            i = i + 1;
        }
        out
    }

    /// The errors, in order.
    pub fn errors(&self) -> (r: Vec<&Diagnostic>)
        ensures
            r.deep_view() == of_severity(
                self.deep_view().diagnostics,
                Severity::Error,
                self.deep_view().diagnostics.len() as int,
            ),
    {
        self.pick(Severity::Error)
    }

    /// The warnings, in order.
    pub fn warnings(&self) -> (r: Vec<&Diagnostic>)
        ensures
            r.deep_view() == of_severity(
                self.deep_view().diagnostics,
                Severity::Warning,
                self.deep_view().diagnostics.len() as int,
            ),
    {
        self.pick(Severity::Warning)
    }
}

proof fn lemma_of_severity(ds: Seq<DiagnosticView>, sev: Severity, n: int)
    requires
        0 <= n <= ds.len(),
    ensures
        of_severity(ds, sev, n).len() == 0 <==> forall|i: int|
            0 <= i < n ==> (#[trigger] ds[i]).severity != sev,
    decreases n,
{
    if n > 0 {
        lemma_of_severity(ds, sev, n - 1);
        assert(ds[n - 1].severity == sev ==> of_severity(ds, sev, n).len() > 0);
    }
}

/// A report is sound exactly where it lists no error.
pub proof fn sound_reports_list_no_error(ds: Seq<DiagnosticView>)
    ensures
        sound(ds) <==> of_severity(ds, Severity::Error, ds.len() as int).len() == 0,
{
    lemma_of_severity(ds, Severity::Error, ds.len() as int);
}

// ---------------------------------------------------------------------------
// Sets of names
// ---------------------------------------------------------------------------
fn set_of(items: &Vec<String>) -> (r: IndexSet<String>)
    ensures
        forall|k: Str| #[trigger] texts_of(r).contains(k) <==> items.deep_view().contains(k),
{
    let ghost v = items.deep_view();
    let mut s = set_new();
    let mut i: usize = 0;
    while i < items.len()
        invariant
            i <= items.len(),
            v == items.deep_view(),
            forall|k: Str| #[trigger] texts_of(s).contains(k) <==> v.take(i as int).contains(k),
        decreases items.len() - i,
    {
        let ghost before_insert = texts_of(s);
        let _ = set_insert(&mut s, items[i].clone());
        proof {
            lemma_inserted(before_insert, v[i as int], texts_of(s));
            assert forall|k: Str| #[trigger] texts_of(s).contains(k) <==> v.take(i + 1).contains(
                k,
            ) by {
                assert(v.take(i + 1) =~= v.take(i as int) + seq![v[i as int]]);
                lemma_concat_contains(v.take(i as int), seq![v[i as int]], k);
                assert(seq![v[i as int]].contains(k) <==> k == v[i as int]) by {
                    assert(seq![v[i as int]][0] == v[i as int]);
                }
            }
        }
        i = i + 1;
    }
    assert(v.take(i as int) =~= v);
    s
}

/// What an insertion makes of a set: the item is there, and all others as before.
proof fn lemma_inserted(s: Seq<Str>, k: Str, t: Seq<Str>)
    requires
        if s.contains(k) {
            t =~= s
        } else {
            t =~= s.push(k)
        },
    ensures
        forall|q: Str| #[trigger] t.contains(q) <==> s.contains(q) || q == k,
{
    assert forall|q: Str| #[trigger] t.contains(q) <==> s.contains(q) || q == k by {
        if !s.contains(k) {
            assert(s.push(k) =~= s + seq![k]);
            lemma_concat_contains(s, seq![k], q);
            assert(seq![k][0] == k);
        }
    }
}

/// The ids of all places.
pub open spec fn place_ids(spec: SpecView) -> Seq<Str> {
    Seq::new(spec.places.len(), |i: int| spec.places[i].id)
}

/// The ids of all transitions.
pub open spec fn transition_ids(spec: SpecView) -> Seq<Str> {
    Seq::new(spec.transitions.len(), |i: int| spec.transitions[i].id)
}

/// The ids of the places among the first `n` that hold a token at first.
pub open spec fn marked_upto(ps: Seq<PlaceView>, n: int) -> Seq<Str>
    decreases n,
{
    if n <= 0 {
        Seq::empty()
    } else if ps[n - 1].tokens.len() > 0 {
        marked_upto(ps, n - 1).push(ps[n - 1].id)
    } else {
        marked_upto(ps, n - 1)
    }
}

/// The ids of the places that hold a token at first.
pub open spec fn marked_places(spec: SpecView) -> Seq<Str> {
    marked_upto(spec.places, spec.places.len() as int)
}

/// The kinds of the effects that the first `n` templates emit.
pub open spec fn kinds_of(es: Seq<EffectTemplateView>, n: int) -> Seq<Str>
    decreases n,
{
    if n <= 0 {
        Seq::empty()
    } else {
        kinds_of(es, n - 1).push(es[n - 1].effect)
    }
}

/// The kinds of the effects that the first `n` transitions emit.
pub open spec fn emitted_upto(ts: Seq<TransitionView>, n: int) -> Seq<Str>
    decreases n,
{
    if n <= 0 {
        Seq::empty()
    } else {
        emitted_upto(ts, n - 1) + kinds_of(ts[n - 1].emits, ts[n - 1].emits.len() as int)
    }
}

/// The kinds of effects that the workflow emits.
pub open spec fn emitted_kinds(spec: SpecView) -> Seq<Str> {
    emitted_upto(spec.transitions, spec.transitions.len() as int)
}

fn list_place_ids(spec: &Spec) -> (r: Vec<String>)
    ensures
        r.deep_view() == place_ids(spec.deep_view()),
{
    let mut out: Vec<String> = empty_vec();
    let mut i: usize = 0;
    while i < spec.places.len()
        invariant
            i <= spec.places.len(),
            out.deep_view() =~= place_ids(spec.deep_view()).take(i as int),
        decreases spec.places.len() - i,
    {
        push_to(&mut out, spec.places[i].id.clone());
        i = i + 1;
    }
    assert(place_ids(spec.deep_view()).take(i as int) =~= place_ids(spec.deep_view()));
    out
}

fn list_transition_ids(spec: &Spec) -> (r: Vec<String>)
    ensures
        r.deep_view() == transition_ids(spec.deep_view()),
{
    let mut out: Vec<String> = empty_vec();
    let mut i: usize = 0;
    while i < spec.transitions.len()
        invariant
            i <= spec.transitions.len(),
            out.deep_view() =~= transition_ids(spec.deep_view()).take(i as int),
        decreases spec.transitions.len() - i,
    {
        push_to(&mut out, spec.transitions[i].id.clone());
        i = i + 1;
    }
    assert(transition_ids(spec.deep_view()).take(i as int) =~= transition_ids(spec.deep_view()));
    out
}

fn list_marked(spec: &Spec) -> (r: Vec<String>)
    ensures
        r.deep_view() == marked_places(spec.deep_view()),
{
    let mut out: Vec<String> = empty_vec();
    let mut i: usize = 0;
    while i < spec.places.len()
        invariant
            i <= spec.places.len(),
            out.deep_view() == marked_upto(spec.places.deep_view(), i as int),
        decreases spec.places.len() - i,
    {
        assert(spec.places.deep_view()[i as int] == spec.places[i as int].deep_view());
        assert(spec.places[i as int].deep_view().tokens.len() == spec.places[i as int].tokens.len());
        if spec.places[i].tokens.len() > 0 {
            push_to(&mut out, spec.places[i].id.clone());
        }
        i = i + 1;
    }
    out
}

fn list_emitted(spec: &Spec) -> (r: Vec<String>)
    ensures
        r.deep_view() == emitted_kinds(spec.deep_view()),
{
    let ghost ts = spec.transitions.deep_view();
    let mut out: Vec<String> = empty_vec();
    let mut i: usize = 0;
    while i < spec.transitions.len()
        invariant
            i <= spec.transitions.len(),
            ts == spec.transitions.deep_view(),
            out.deep_view() == emitted_upto(ts, i as int),
        decreases spec.transitions.len() - i,
    {
        let es = &spec.transitions[i].emits;
        assert(ts[i as int] == spec.transitions[i as int].deep_view());
        let ghost so_far = out.deep_view();
        let mut j: usize = 0;
        assert(so_far + kinds_of(es.deep_view(), 0) =~= so_far);
        while j < es.len()
            invariant
                j <= es.len(),
                out.deep_view() == so_far + kinds_of(es.deep_view(), j as int),
            decreases es.len() - j,
        {
            push_to(&mut out, es[j].effect.clone());
            assert(out.deep_view() =~= so_far + kinds_of(es.deep_view(), j + 1));
            j = j + 1;
        }
        i = i + 1;
    }
    out
}

// ---------------------------------------------------------------------------
// Names
// ---------------------------------------------------------------------------
/// Whether the id at position `i` occurs earlier.
pub open spec fn repeats(ids: Seq<Str>, i: int) -> bool {
    ids.take(i).contains(ids[i])
}

/// The ids among the first `n` that occur earlier, each told as an error.
pub open spec fn repeats_upto(ids: Seq<Str>, code: Str, what: Str, n: int) -> Seq<DiagnosticView>
    decreases n,
{
    if n <= 0 {
        Seq::empty()
    } else if repeats(ids, n - 1) {
        repeats_upto(ids, code, what, n - 1).push(error_at(code, what + ids[n - 1] + "`"@))
    } else {
        repeats_upto(ids, code, what, n - 1)
    }
}

/// The places among the first `n` of `names` that are not declared.
pub open spec fn unknown_places(
    id: Str,
    names: Seq<Str>,
    known: Seq<Str>,
    n: int,
) -> Seq<DiagnosticView>
    decreases n,
{
    if n <= 0 {
        Seq::empty()
    } else if known.contains(names[n - 1]) {
        unknown_places(id, names, known, n - 1)
    } else {
        unknown_places(id, names, known, n - 1).push(
            error_at(
                "W003"@,
                "transition `"@ + id + "` references unknown place `"@ + names[n - 1] + "`"@,
            ),
        )
    }
}

/// What is wrong with the names that a transition uses.
pub open spec fn reference_faults(spec: SpecView, t: TransitionView) -> Seq<DiagnosticView> {
    let places = unknown_places(t.id, t.consumes, place_ids(spec), t.consumes.len() as int)
        + unknown_places(t.id, t.produces, place_ids(spec), t.produces.len() as int);
    let principal = if lookup(spec.principals, t.principal) is None {
        seq![
            error_at(
                "W004"@,
                "transition `"@ + t.id + "` references unknown principal `"@ + t.principal + "`"@,
            ),
        ]
    } else {
        Seq::empty()
    };
    let vacuous = if t.consumes.len() == 0 && t.produces.len() == 0 {
        seq![error_at("W005"@, "transition `"@ + t.id + "` is vacuous"@)]
    } else {
        Seq::empty()
    };
    places + principal + vacuous
}

/// What is wrong with the names that the first `n` transitions use.
pub open spec fn references_upto(spec: SpecView, n: int) -> Seq<DiagnosticView>
    decreases n,
{
    if n <= 0 {
        Seq::empty()
    } else {
        references_upto(spec, n - 1) + reference_faults(spec, spec.transitions[n - 1])
    }
}

/// Those of the first `n` final places that are not declared.
pub open spec fn unknown_finals(spec: SpecView, n: int) -> Seq<DiagnosticView>
    decreases n,
{
    if n <= 0 {
        Seq::empty()
    } else if place_ids(spec).contains(spec.final_places[n - 1]) {
        unknown_finals(spec, n - 1)
    } else {
        unknown_finals(spec, n - 1).push(
            error_at("W007"@, "unknown final place `"@ + spec.final_places[n - 1] + "`"@),
        )
    }
}

/// What is wrong with names: ids that occur twice, and uses of what is not declared.
pub open spec fn name_faults(spec: SpecView) -> Seq<DiagnosticView> {
    let twice = repeats_upto(
        place_ids(spec),
        "W001"@,
        "duplicate place id `"@,
        spec.places.len() as int,
    ) + repeats_upto(
        transition_ids(spec),
        "W002"@,
        "duplicate transition id `"@,
        spec.transitions.len() as int,
    );
    let no_final = if spec.final_places.len() == 0 {
        seq![error_at("W006"@, "specification declares no final places"@)]
    } else {
        Seq::empty()
    };
    let no_token = if marked_places(spec).len() == 0 {
        seq![error_at("W008"@, "initial marking is empty"@)]
    } else {
        Seq::empty()
    };
    twice + references_upto(spec, spec.transitions.len() as int) + no_final + unknown_finals(
        spec,
        spec.final_places.len() as int,
    ) + no_token
}

fn find_repeats(ids: &Vec<String>, code: &'static str, what: &str) -> (r: Vec<Diagnostic>)
    ensures
        r.deep_view() == repeats_upto(ids.deep_view(), code@, what@, ids.len() as int),
{
    let ghost v = ids.deep_view();
    let mut seen = set_new();
    let mut out: Vec<Diagnostic> = empty_vec();
    let mut i: usize = 0;
    while i < ids.len()
        invariant
            i <= ids.len(),
            v == ids.deep_view(),
            forall|k: Str| #[trigger] texts_of(seen).contains(k) <==> v.take(i as int).contains(k),
            out.deep_view() == repeats_upto(v, code@, what@, i as int),
        decreases ids.len() - i,
    {
        let ghost before_insert = texts_of(seen);
        if !set_insert(&mut seen, ids[i].clone()) {
            push_to(&mut out, error(code, cat3(what, ids[i].as_str(), "`")));
        }
        proof {
            lemma_inserted(before_insert, v[i as int], texts_of(seen));
            assert forall|k: Str| #[trigger] texts_of(seen).contains(k) <==> v.take(i + 1).contains(
                k,
            ) by {
                assert(v.take(i + 1) =~= v.take(i as int) + seq![v[i as int]]);
                lemma_concat_contains(v.take(i as int), seq![v[i as int]], k);
                assert(seq![v[i as int]][0] == v[i as int]);
            }
        }
        i = i + 1;
    }
    out
}

fn find_unknown(id: &str, names: &Vec<String>, known: &IndexSet<String>, Ghost(kv): Ghost<
    Seq<Str>,
>) -> (r: Vec<Diagnostic>)
    requires
        forall|k: Str| #[trigger] texts_of(*known).contains(k) <==> kv.contains(k),
    ensures
        r.deep_view() == unknown_places(id@, names.deep_view(), kv, names.len() as int),
{
    let mut out: Vec<Diagnostic> = empty_vec();
    let mut i: usize = 0;
    while i < names.len()
        invariant
            i <= names.len(),
            forall|k: Str| #[trigger] texts_of(*known).contains(k) <==> kv.contains(k),
            out.deep_view() == unknown_places(id@, names.deep_view(), kv, i as int),
        decreases names.len() - i,
    {
        if !set_contains(known, names[i].as_str()) {
            push_to(
                &mut out,
                error(
                    "W003",
                    cat5(
                        "transition `",
                        id,
                        "` references unknown place `",
                        names[i].as_str(),
                        "`",
                    ),
                ),
            );
        }
        i = i + 1;
    }
    out
}

fn find_name_faults(spec: &Spec, marked: &Vec<String>) -> (r: Vec<Diagnostic>)
    requires
        marked.deep_view() == marked_places(spec.deep_view()),
    ensures
        r.deep_view() == name_faults(spec.deep_view()),
{
    let ghost sv = spec.deep_view();
    let ids = list_place_ids(spec);
    let names = list_transition_ids(spec);
    let known = set_of(&ids);
    let mut out = find_repeats(&ids, "W001", "duplicate place id `");
    append_to(&mut out, find_repeats(&names, "W002", "duplicate transition id `"));
    let ghost twice = out.deep_view();
    assert(ids.len() == ids.deep_view().len());
    assert(names.len() == names.deep_view().len());
    let mut i: usize = 0;
    assert(twice + references_upto(sv, 0) =~= twice);
    while i < spec.transitions.len()
        invariant
            i <= spec.transitions.len(),
            sv == spec.deep_view(),
            forall|k: Str| #[trigger] texts_of(known).contains(k) <==> place_ids(sv).contains(k),
            out.deep_view() == twice + references_upto(sv, i as int),
        decreases spec.transitions.len() - i,
    {
        let t = &spec.transitions[i];
        let ghost tv = t.deep_view();
        assert(sv.transitions[i as int] == tv);
        let ghost so_far = out.deep_view();
        append_to(
            &mut out,
            find_unknown(t.id.as_str(), &t.consumes, &known, Ghost(place_ids(sv))),
        );
        append_to(
            &mut out,
            find_unknown(t.id.as_str(), &t.produces, &known, Ghost(place_ids(sv))),
        );
        if !spec.principals.contains_key(t.principal.as_str()) {
            push_to(
                &mut out,
                error(
                    "W004",
                    cat5(
                        "transition `",
                        t.id.as_str(),
                        "` references unknown principal `",
                        t.principal.as_str(),
                        "`",
                    ),
                ),
            );
        }
        assert(tv.consumes.len() == t.consumes.len());
        assert(tv.produces.len() == t.produces.len());
        if t.consumes.len() == 0 && t.produces.len() == 0 {
            push_to(
                &mut out,
                error("W005", cat3("transition `", t.id.as_str(), "` is vacuous")),
            );
        }
        assert(out.deep_view() =~= so_far + reference_faults(sv, tv));
        assert(out.deep_view() =~= twice + references_upto(sv, i + 1));
        i = i + 1;
    }
    let ghost so_far = out.deep_view();
    assert(sv.final_places.len() == spec.final_places.len());
    if spec.final_places.len() == 0 {
        push_to(
            &mut out,
            error("W006", "specification declares no final places".to_string()),
        );
    }
    let ghost with_final = out.deep_view();
    let mut k: usize = 0;
    assert(with_final + unknown_finals(sv, 0) =~= with_final);
    while k < spec.final_places.len()
        invariant
            k <= spec.final_places.len(),
            sv == spec.deep_view(),
            forall|k: Str| #[trigger] texts_of(known).contains(k) <==> place_ids(sv).contains(k),
            out.deep_view() == with_final + unknown_finals(sv, k as int),
        decreases spec.final_places.len() - k,
    {
        if !set_contains(&known, spec.final_places[k].as_str()) {
            push_to(
                &mut out,
                error("W007", cat3("unknown final place `", spec.final_places[k].as_str(), "`")),
            );
        }
        assert(out.deep_view() =~= with_final + unknown_finals(sv, k + 1));
        k = k + 1;
    }
    assert(marked.len() == marked.deep_view().len());
    if marked.len() == 0 {
        push_to(&mut out, error("W008", "initial marking is empty".to_string()));
    }
    assert(out.deep_view() =~= name_faults(sv));
    out
}

// ---------------------------------------------------------------------------
// Coverability
// ---------------------------------------------------------------------------
/// Whether place `p` can be marked within `k` rounds, if tokens are never used up: it is marked
/// at first, or a transition whose inputs can be marked produces to it.
pub open spec fn covered_within(spec: SpecView, k: nat, p: Str) -> bool
    decreases k,
{
    if k == 0 {
        marked_places(spec).contains(p)
    } else {
        ||| covered_within(spec, (k - 1) as nat, p)
        ||| exists|t: int|
            0 <= t < spec.transitions.len() && (#[trigger] spec.transitions[t]).produces.contains(p)
                && forall|c: int|
                0 <= c < spec.transitions[t].consumes.len() ==> covered_within(
                    spec,
                    (k - 1) as nat,
                    #[trigger] spec.transitions[t].consumes[c],
                )
    }
}

/// Whether place `p` can be marked at all, if tokens are never used up.
pub open spec fn coverable(spec: SpecView, p: Str) -> bool {
    exists|k: nat| #[trigger] covered_within(spec, k, p)
}

/// Whether every input of a transition can be marked.
pub open spec fn enabled(spec: SpecView, t: TransitionView) -> bool {
    forall|c: int| 0 <= c < t.consumes.len() ==> coverable(spec, #[trigger] t.consumes[c])
}

/// Whether a transition with this id can ever be enabled.
pub open spec fn live(spec: SpecView, id: Str) -> bool {
    exists|t: int|
        0 <= t < spec.transitions.len() && (#[trigger] spec.transitions[t]).id == id && enabled(
            spec,
            spec.transitions[t],
        )
}

proof fn lemma_covered_more(spec: SpecView, k: nat, l: nat, p: Str)
    requires
        covered_within(spec, k, p),
        k <= l,
    ensures
        covered_within(spec, l, p),
    decreases l - k,
{
    if k < l {
        lemma_covered_more(spec, k, (l - 1) as nat, p);
    }
}

proof fn lemma_enabled_covers(spec: SpecView, t: int, p: Str)
    requires
        0 <= t < spec.transitions.len(),
        enabled(spec, spec.transitions[t]),
        spec.transitions[t].produces.contains(p),
    ensures
        coverable(spec, p),
{
    let k = lemma_common_round(spec, spec.transitions[t], spec.transitions[t].consumes.len() as int);
    assert(covered_within(spec, k + 1, p));
}

proof fn lemma_common_round(spec: SpecView, t: TransitionView, n: int) -> (k: nat)
    requires
        enabled(spec, t),
        0 <= n <= t.consumes.len(),
    ensures
        forall|c: int| 0 <= c < n ==> covered_within(spec, k, #[trigger] t.consumes[c]),
    decreases n,
{
    if n == 0 {
        0
    } else {
        let a = lemma_common_round(spec, t, n - 1);
        assert(coverable(spec, t.consumes[n - 1]));
        let b = choose|b: nat| #[trigger] covered_within(spec, b, t.consumes[n - 1]);
        let k = if a > b {
            a
        } else {
            b
        };
        assert forall|c: int| 0 <= c < n implies covered_within(
            spec,
            k,
            #[trigger] t.consumes[c],
        ) by {
            if c < n - 1 {
                lemma_covered_more(spec, a, k, t.consumes[c]);
            } else {
                lemma_covered_more(spec, b, k, t.consumes[c]);
            }
        }
        k
    }
}

/// A set that holds what is marked at first, and what a transition with inputs in it produces,
/// holds all that can be marked.
proof fn lemma_closed_covers(spec: SpecView, s: Seq<Str>, k: nat, p: Str)
    requires
        forall|q: Str| marked_places(spec).contains(q) ==> #[trigger] s.contains(q),
        forall|t: int, q: Str|
            0 <= t < spec.transitions.len() && (forall|c: int|
                0 <= c < spec.transitions[t].consumes.len() ==> s.contains(
                    #[trigger] spec.transitions[t].consumes[c],
                )) && #[trigger] spec.transitions[t].produces.contains(q) ==> s.contains(q),
        covered_within(spec, k, p),
    ensures
        s.contains(p),
    decreases k,
{
    if k > 0 {
        if covered_within(spec, (k - 1) as nat, p) {
            lemma_closed_covers(spec, s, (k - 1) as nat, p);
        } else {
            let t = choose|t: int|
                0 <= t < spec.transitions.len()
                    && (#[trigger] spec.transitions[t]).produces.contains(p) && forall|c: int|
                    0 <= c < spec.transitions[t].consumes.len() ==> covered_within(
                        spec,
                        (k - 1) as nat,
                        #[trigger] spec.transitions[t].consumes[c],
                    );
            assert forall|c: int| 0 <= c < spec.transitions[t].consumes.len() implies s.contains(
                #[trigger] spec.transitions[t].consumes[c],
            ) by {
                lemma_closed_covers(
                    spec,
                    s,
                    (k - 1) as nat,
                    spec.transitions[t].consumes[c],
                );
            }
        }
    }
}

/// All places that are marked at first or that the first `n` transitions produce to.
pub open spec fn place_universe(spec: SpecView, n: int) -> Seq<Str>
    decreases n,
{
    if n <= 0 {
        marked_places(spec)
    } else {
        place_universe(spec, n - 1) + spec.transitions[n - 1].produces
    }
}

proof fn lemma_universe(spec: SpecView, n: int, t: int, p: Str)
    requires
        0 <= n <= spec.transitions.len(),
    ensures
        marked_places(spec).contains(p) ==> place_universe(spec, n).contains(p),
        0 <= t < n && spec.transitions[t].produces.contains(p) ==> place_universe(
            spec,
            n,
        ).contains(p),
    decreases n,
{
    if n > 0 {
        lemma_universe(spec, n - 1, t, p);
        lemma_concat_contains(
            place_universe(spec, n - 1),
            spec.transitions[n - 1].produces,
            p,
        );
    }
}

/// A sequence without repetition is no longer than one that holds its items.
proof fn lemma_distinct_len(s: Seq<Str>, u: Seq<Str>)
    requires
        s.no_duplicates(),
        forall|k: Str| #[trigger] s.contains(k) ==> u.contains(k),
    ensures
        s.len() <= u.len(),
{
    s.unique_seq_to_set();
    u.lemma_cardinality_of_set();
    vstd::seq_lib::seq_to_set_is_finite(s);
    vstd::seq_lib::seq_to_set_is_finite(u);
    assert(s.to_set().subset_of(u.to_set())) by {
        assert forall|k: Str| s.to_set().contains(k) implies u.to_set().contains(k) by {
            assert(s.contains(k));
        }
    }
    vstd::set_lib::lemma_len_subset(s.to_set(), u.to_set());
}

fn all_in(names: &Vec<String>, s: &IndexSet<String>) -> (r: bool)
    ensures
        r == forall|c: int|
            0 <= c < names.deep_view().len() ==> texts_of(*s).contains(
                #[trigger] names.deep_view()[c],
            ),
{
    let ghost v = names.deep_view();
    let mut i: usize = 0;
    while i < names.len()
        invariant
            i <= names.len(),
            v == names.deep_view(),
            forall|c: int| 0 <= c < i ==> texts_of(*s).contains(#[trigger] v[c]),
        decreases names.len() - i,
    {
        assert(v[i as int] == names[i as int]@);
        if !set_contains(s, names[i].as_str()) {
            return false;
        }
        i = i + 1;
    }
    true
}

proof fn lemma_pushed_distinct(s: Seq<Str>, k: Str)
    requires
        s.no_duplicates(),
        !s.contains(k),
    ensures
        s.push(k).no_duplicates(),
{
    let t = s.push(k);
    assert forall|i: int, j: int| 0 <= i < t.len() && 0 <= j < t.len() && i != j implies t[i]
        != t[j] by {
        if i == s.len() {
            assert(s.contains(s[j]));
        }
        if j == s.len() {
            assert(s.contains(s[i]));
        }
    }
}

/// The places that can be marked, if tokens are never used up.
fn cover(spec: &Spec, marked: &Vec<String>) -> (r: IndexSet<String>)
    requires
        marked.deep_view() == marked_places(spec.deep_view()),
    ensures
        forall|p: Str| #[trigger] texts_of(r).contains(p) <==> coverable(spec.deep_view(), p),
{
    let ghost sv = spec.deep_view();
    let ghost n = sv.transitions.len() as int;
    let ghost mv = marked_places(sv);
    let ghost u = place_universe(sv, n);
    let mut s = set_new();
    let mut a: usize = 0;
    assert(texts_of(s) =~= Seq::<Str>::empty());
    while a < marked.len()
        invariant
            a <= marked.len(),
            sv == spec.deep_view(),
            mv == marked_places(sv),
            marked.deep_view() == mv,
            texts_of(s).no_duplicates(),
            forall|k: Str| #[trigger] texts_of(s).contains(k) <==> mv.take(a as int).contains(k),
        decreases marked.len() - a,
    {
        let ghost before_insert = texts_of(s);
        let _ = set_insert(&mut s, marked[a].clone());
        proof {
            let k = mv[a as int];
            if before_insert.contains(k) {
                assert(texts_of(s) =~= before_insert);
            } else {
                assert(texts_of(s) =~= before_insert.push(k));
                lemma_pushed_distinct(before_insert, k);
            }
            lemma_inserted(before_insert, k, texts_of(s));
            assert forall|q: Str| #[trigger] texts_of(s).contains(q) <==> mv.take(a + 1).contains(
                q,
            ) by {
                assert(mv.take(a + 1) =~= mv.take(a as int) + seq![k]);
                lemma_concat_contains(mv.take(a as int), seq![k], q);
                assert(seq![k][0] == k);
            }
        }
        a = a + 1;
    }
    proof {
        assert(mv.take(a as int) =~= mv);
        assert forall|p: Str| #[trigger] texts_of(s).contains(p) implies coverable(sv, p) by {
            assert(covered_within(sv, 0, p));
        }
        assert forall|p: Str| #[trigger] texts_of(s).contains(p) implies u.contains(p) by {
            lemma_universe(sv, n, -1, p);
        }
    }
    loop
        invariant_except_break
            true,
        invariant
            sv == spec.deep_view(),
            n == sv.transitions.len(),
            mv == marked_places(sv),
            u == place_universe(sv, n),
            texts_of(s).no_duplicates(),
            forall|p: Str| mv.contains(p) ==> #[trigger] texts_of(s).contains(p),
            forall|p: Str| #[trigger] texts_of(s).contains(p) ==> coverable(sv, p),
            forall|p: Str| #[trigger] texts_of(s).contains(p) ==> u.contains(p),
        ensures
            forall|t: int, q: Str|
                0 <= t < n && (forall|c: int|
                    0 <= c < sv.transitions[t].consumes.len() ==> texts_of(s).contains(
                        #[trigger] sv.transitions[t].consumes[c],
                    )) && #[trigger] sv.transitions[t].produces.contains(q) ==> texts_of(
                    s,
                ).contains(q),
        decreases u.len() - texts_of(s).len(),
    {
        proof {
            lemma_distinct_len(texts_of(s), u);
        }
        let ghost s0 = texts_of(s);
        let mut changed = false;
        let mut i: usize = 0;
        while i < spec.transitions.len()
            invariant
                i <= spec.transitions.len(),
                sv == spec.deep_view(),
                n == sv.transitions.len(),
                mv == marked_places(sv),
                u == place_universe(sv, n),
                texts_of(s).no_duplicates(),
                forall|p: Str| mv.contains(p) ==> #[trigger] texts_of(s).contains(p),
                forall|p: Str| #[trigger] texts_of(s).contains(p) ==> coverable(sv, p),
                forall|p: Str| #[trigger] texts_of(s).contains(p) ==> u.contains(p),
                texts_of(s).len() >= s0.len(),
                changed ==> texts_of(s).len() > s0.len(),
                !changed ==> texts_of(s) == s0,
                !changed ==> forall|t: int, q: Str|
                    0 <= t < i && (forall|c: int|
                        0 <= c < sv.transitions[t].consumes.len() ==> s0.contains(
                            #[trigger] sv.transitions[t].consumes[c],
                        )) && #[trigger] sv.transitions[t].produces.contains(q) ==> s0.contains(q),
            decreases spec.transitions.len() - i,
        {
            let t = &spec.transitions[i];
            let ghost tv = t.deep_view();
            assert(sv.transitions[i as int] == tv);
            if all_in(&t.consumes, &s) {
                proof {
                    assert(enabled(sv, tv)) by {
                        assert forall|c: int| 0 <= c < tv.consumes.len() implies coverable(
                            sv,
                            #[trigger] tv.consumes[c],
                        ) by {
                            assert(texts_of(s).contains(tv.consumes[c]));
                        }
                    }
                }
                let ghost changed0 = changed;
                let mut j: usize = 0;
                while j < t.produces.len()
                    invariant
                        j <= t.produces.len(),
                        i < spec.transitions.len(),
                        sv == spec.deep_view(),
                        n == sv.transitions.len(),
                        mv == marked_places(sv),
                        u == place_universe(sv, n),
                        tv == t.deep_view(),
                        sv.transitions[i as int] == tv,
                        enabled(sv, tv),
                        texts_of(s).no_duplicates(),
                        forall|p: Str| mv.contains(p) ==> #[trigger] texts_of(s).contains(p),
                        forall|p: Str| #[trigger] texts_of(s).contains(p) ==> coverable(sv, p),
                        forall|p: Str| #[trigger] texts_of(s).contains(p) ==> u.contains(p),
                        texts_of(s).len() >= s0.len(),
                        changed ==> texts_of(s).len() > s0.len(),
                        changed0 ==> changed,
                        !changed ==> texts_of(s) == s0,
                        !changed ==> forall|q: int|
                            0 <= q < j ==> s0.contains(#[trigger] tv.produces[q]),
                    decreases t.produces.len() - j,
                {
                    let ghost before_insert = texts_of(s);
                    let ghost k = tv.produces[j as int];
                    assert(k == t.produces[j as int]@);
                    if set_insert(&mut s, t.produces[j].clone()) {
                        changed = true;
                    }
                    proof {
                        if before_insert.contains(k) {
                            assert(texts_of(s) =~= before_insert);
                        } else {
                            assert(texts_of(s) =~= before_insert.push(k));
                            lemma_pushed_distinct(before_insert, k);
                        }
                        lemma_inserted(before_insert, k, texts_of(s));
                        assert(tv.produces.contains(k));
                        lemma_enabled_covers(sv, i as int, k);
                        lemma_universe(sv, n, i as int, k);
                    }
                    j = j + 1;
                }
                proof {
                    if !changed {
                        assert forall|t: int, q: Str|
                            0 <= t < i + 1 && (forall|c: int|
                                0 <= c < sv.transitions[t].consumes.len() ==> s0.contains(
                                    #[trigger] sv.transitions[t].consumes[c],
                                )) && #[trigger] sv.transitions[t].produces.contains(
                                q,
                            ) implies s0.contains(q) by {
                            if t == i {
                                let x = tv.produces.index_of(q);
                                assert(s0.contains(tv.produces[x]));
                            }
                        }
                    }
                }
            }
            i = i + 1;
        }
        proof {
            lemma_distinct_len(texts_of(s), u);
        }
        if !changed {
            break ;
        }
    }
    proof {
        assert forall|p: Str| coverable(sv, p) implies #[trigger] texts_of(s).contains(p) by {
            let k = choose|k: nat| #[trigger] covered_within(sv, k, p);
            lemma_closed_covers(sv, texts_of(s), k, p);
        }
    }
    s
}

/// The transitions among the first `n` that can never be enabled.
pub open spec fn dead_upto(spec: SpecView, n: int) -> Seq<DiagnosticView>
    decreases n,
{
    if n <= 0 {
        Seq::empty()
    } else if live(spec, spec.transitions[n - 1].id) {
        dead_upto(spec, n - 1)
    } else {
        dead_upto(spec, n - 1).push(
            error_at(
                "W009"@,
                "transition `"@ + spec.transitions[n - 1].id
                    + "` is dead: never structurally enabled"@,
            ),
        )
    }
}

/// Those of the first `n` final places that can never be marked.
pub open spec fn unreachable_finals(spec: SpecView, n: int) -> Seq<DiagnosticView>
    decreases n,
{
    if n <= 0 {
        Seq::empty()
    } else if coverable(spec, spec.final_places[n - 1]) {
        unreachable_finals(spec, n - 1)
    } else {
        unreachable_finals(spec, n - 1).push(
            error_at(
                "W010"@,
                "improper completion: final place `"@ + spec.final_places[n - 1]
                    + "` is unreachable"@,
            ),
        )
    }
}

/// Whether some transition produces to place `p`.
pub open spec fn is_produced(spec: SpecView, p: Str) -> bool {
    exists|t: int|
        0 <= t < spec.transitions.len() && (#[trigger] spec.transitions[t]).produces.contains(p)
}

/// Whether some transition consumes from place `p`.
pub open spec fn is_consumed(spec: SpecView, p: Str) -> bool {
    exists|t: int|
        0 <= t < spec.transitions.len() && (#[trigger] spec.transitions[t]).consumes.contains(p)
}

/// What is wrong with the way a place is connected.
pub open spec fn place_faults(spec: SpecView, p: Str) -> Seq<DiagnosticView> {
    let isolated = if !is_produced(spec, p) && !is_consumed(spec, p) {
        seq![warning_at("W011"@, "place `"@ + p + "` is isolated"@)]
    } else {
        Seq::empty()
    };
    let never = if !is_produced(spec, p) && !marked_places(spec).contains(p) {
        seq![error_at("W012"@, "place `"@ + p + "` is never marked and never produced"@)]
    } else {
        Seq::empty()
    };
    isolated + never
}

/// What is wrong with the way the first `n` places are connected.
pub open spec fn place_faults_upto(spec: SpecView, n: int) -> Seq<DiagnosticView>
    decreases n,
{
    if n <= 0 {
        Seq::empty()
    } else {
        place_faults_upto(spec, n - 1) + place_faults(spec, spec.places[n - 1].id)
    }
}

/// What is wrong with the flow of tokens.
pub open spec fn flow_faults(spec: SpecView) -> Seq<DiagnosticView> {
    dead_upto(spec, spec.transitions.len() as int) + unreachable_finals(
        spec,
        spec.final_places.len() as int,
    ) + place_faults_upto(spec, spec.places.len() as int)
}

fn find_live(spec: &Spec, covered: &IndexSet<String>) -> (r: IndexSet<String>)
    requires
        forall|p: Str| #[trigger]
            texts_of(*covered).contains(p) <==> coverable(spec.deep_view(), p),
    ensures
        forall|id: Str| #[trigger] texts_of(r).contains(id) <==> live(spec.deep_view(), id),
{
    let ghost sv = spec.deep_view();
    let mut s = set_new();
    assert(texts_of(s) =~= Seq::<Str>::empty());
    let mut i: usize = 0;
    while i < spec.transitions.len()
        invariant
            i <= spec.transitions.len(),
            sv == spec.deep_view(),
            forall|p: Str| #[trigger] texts_of(*covered).contains(p) <==> coverable(sv, p),
            forall|id: Str| #[trigger]
                texts_of(s).contains(id) <==> exists|t: int|
                    0 <= t < i && (#[trigger] sv.transitions[t]).id == id && enabled(
                        sv,
                        sv.transitions[t],
                    ),
        decreases spec.transitions.len() - i,
    {
        let t = &spec.transitions[i];
        let ghost tv = t.deep_view();
        assert(sv.transitions[i as int] == tv);
        let ghost before_insert = texts_of(s);
        if all_in(&t.consumes, covered) {
            proof {
                assert forall|c: int| 0 <= c < tv.consumes.len() implies coverable(
                    sv,
                    #[trigger] tv.consumes[c],
                ) by {
                    assert(texts_of(*covered).contains(tv.consumes[c]));
                }
            }
            assert(enabled(sv, tv));
            let _ = set_insert(&mut s, t.id.clone());
            proof {
                if before_insert.contains(tv.id) {
                    assert(texts_of(s) =~= before_insert);
                } else {
                    assert(texts_of(s) =~= before_insert.push(tv.id));
                }
                lemma_inserted(before_insert, tv.id, texts_of(s));
            }
        } else {
            assert(!enabled(sv, tv)) by {
                if enabled(sv, tv) {
                    assert forall|c: int| 0 <= c < tv.consumes.len() implies texts_of(
                        *covered,
                    ).contains(#[trigger] tv.consumes[c]) by {
                        assert(coverable(sv, tv.consumes[c]));
                    }
                }
            }
        }
        proof {
            assert forall|id: Str| #[trigger] texts_of(s).contains(id) <==> exists|t: int|
                0 <= t < i + 1 && (#[trigger] sv.transitions[t]).id == id && enabled(
                    sv,
                    sv.transitions[t],
                ) by {
                if before_insert.contains(id) {
                    let t = choose|t: int|
                        0 <= t < i && (#[trigger] sv.transitions[t]).id == id && enabled(
                            sv,
                            sv.transitions[t],
                        );
                    assert(sv.transitions[t].id == id);
                }
                if exists|t: int|
                    0 <= t < i + 1 && (#[trigger] sv.transitions[t]).id == id && enabled(
                        sv,
                        sv.transitions[t],
                    ) {
                    let t = choose|t: int|
                        0 <= t < i + 1 && (#[trigger] sv.transitions[t]).id == id && enabled(
                            sv,
                            sv.transitions[t],
                        );
                    if t < i {
                        assert(before_insert.contains(id));
                    }
                }
            }
        }
        i = i + 1;
    }
    s
}

fn someone_produces(spec: &Spec, p: &str) -> (r: bool)
    ensures
        r == is_produced(spec.deep_view(), p@),
{
    let ghost sv = spec.deep_view();
    let mut i: usize = 0;
    while i < spec.transitions.len()
        invariant
            i <= spec.transitions.len(),
            sv == spec.deep_view(),
            forall|t: int| 0 <= t < i ==> !(#[trigger] sv.transitions[t]).produces.contains(p@),
        decreases spec.transitions.len() - i,
    {
        assert(sv.transitions[i as int] == spec.transitions[i as int].deep_view());
        if vec_contains(&spec.transitions[i].produces, p) {
            return true;
        }
        i = i + 1;
    }
    false
}

fn someone_consumes(spec: &Spec, p: &str) -> (r: bool)
    ensures
        r == is_consumed(spec.deep_view(), p@),
{
    let ghost sv = spec.deep_view();
    let mut i: usize = 0;
    while i < spec.transitions.len()
        invariant
            i <= spec.transitions.len(),
            sv == spec.deep_view(),
            forall|t: int| 0 <= t < i ==> !(#[trigger] sv.transitions[t]).consumes.contains(p@),
        decreases spec.transitions.len() - i,
    {
        assert(sv.transitions[i as int] == spec.transitions[i as int].deep_view());
        if vec_contains(&spec.transitions[i].consumes, p) {
            return true;
        }
        i = i + 1;
    }
    false
}

fn find_flow_faults(spec: &Spec, marked: &Vec<String>) -> (r: Vec<Diagnostic>)
    requires
        marked.deep_view() == marked_places(spec.deep_view()),
    ensures
        r.deep_view() == flow_faults(spec.deep_view()),
{
    let ghost sv = spec.deep_view();
    let covered = cover(spec, marked);
    let alive = find_live(spec, &covered);
    let mut out: Vec<Diagnostic> = empty_vec();
    let mut i: usize = 0;
    while i < spec.transitions.len()
        invariant
            i <= spec.transitions.len(),
            sv == spec.deep_view(),
            forall|id: Str| #[trigger] texts_of(alive).contains(id) <==> live(sv, id),
            out.deep_view() == dead_upto(sv, i as int),
        decreases spec.transitions.len() - i,
    {
        let id = &spec.transitions[i].id;
        assert(sv.transitions[i as int] == spec.transitions[i as int].deep_view());
        if !set_contains(&alive, id.as_str()) {
            push_to(
                &mut out,
                error(
                    "W009",
                    cat3("transition `", id.as_str(), "` is dead: never structurally enabled"),
                ),
            );
        }
        i = i + 1;
    }
    let ghost dead = out.deep_view();
    let mut k: usize = 0;
    assert(dead + unreachable_finals(sv, 0) =~= dead);
    while k < spec.final_places.len()
        invariant
            k <= spec.final_places.len(),
            sv == spec.deep_view(),
            forall|p: Str| #[trigger] texts_of(covered).contains(p) <==> coverable(sv, p),
            out.deep_view() == dead + unreachable_finals(sv, k as int),
        decreases spec.final_places.len() - k,
    {
        let f = &spec.final_places[k];
        if !set_contains(&covered, f.as_str()) {
            push_to(
                &mut out,
                error(
                    "W010",
                    cat3("improper completion: final place `", f.as_str(), "` is unreachable"),
                ),
            );
        }
        assert(out.deep_view() =~= dead + unreachable_finals(sv, k + 1));
        k = k + 1;
    }
    let ghost so_far = out.deep_view();
    let mut j: usize = 0;
    assert(so_far + place_faults_upto(sv, 0) =~= so_far);
    while j < spec.places.len()
        invariant
            j <= spec.places.len(),
            sv == spec.deep_view(),
            marked.deep_view() == marked_places(sv),
            out.deep_view() == so_far + place_faults_upto(sv, j as int),
        decreases spec.places.len() - j,
    {
        let p = &spec.places[j].id;
        assert(sv.places[j as int] == spec.places[j as int].deep_view());
        let ghost here = out.deep_view();
        let produced = someone_produces(spec, p.as_str());
        let consumed = someone_consumes(spec, p.as_str());
        if !produced && !consumed {
            push_to(
                &mut out,
                warning("W011", cat3("place `", p.as_str(), "` is isolated")),
            );
        }
        if !produced && !vec_contains(marked, p.as_str()) {
            push_to(
                &mut out,
                error(
                    "W012",
                    cat3("place `", p.as_str(), "` is never marked and never produced"),
                ),
            );
        }
        assert(out.deep_view() =~= here + place_faults(sv, p@));
        assert(out.deep_view() =~= so_far + place_faults_upto(sv, j + 1));
        j = j + 1;
    }
    out
}

// ---------------------------------------------------------------------------
// Free choice
// ---------------------------------------------------------------------------
/// Whether some item of `a` is in `b`.
pub open spec fn meets(a: Seq<Str>, b: Seq<Str>) -> bool {
    exists|i: int| 0 <= i < a.len() && b.contains(#[trigger] a[i])
}

/// Whether every item of `a` is in `b`.
pub open spec fn lies_in(a: Seq<Str>, b: Seq<Str>) -> bool {
    forall|i: int| 0 <= i < a.len() ==> b.contains(#[trigger] a[i])
}

/// Whether two transitions share an input place but not all of them.
pub open spec fn not_free_choice(a: TransitionView, b: TransitionView) -> bool {
    &&& meets(a.consumes, b.consumes)
    &&& !lies_in(a.consumes, b.consumes) || !lies_in(b.consumes, a.consumes)
}

/// What is told of two transitions.
pub open spec fn choice_warning(a: TransitionView, b: TransitionView) -> DiagnosticView {
    warning_at(
        "W013"@,
        "not free-choice: `"@ + a.id + "` and `"@ + b.id
            + "` share an input place with different preconditions; the general bounded procedure is used instead of the polynomial free-choice one"@,
    )
}

/// The transitions after the `a`th, up to the `n`th, that are not free-choice with it.
pub open spec fn choices_with(ts: Seq<TransitionView>, a: int, n: int) -> Seq<DiagnosticView>
    decreases n - a,
{
    if n <= a + 1 {
        Seq::empty()
    } else if not_free_choice(ts[a], ts[n - 1]) {
        choices_with(ts, a, n - 1).push(choice_warning(ts[a], ts[n - 1]))
    } else {
        choices_with(ts, a, n - 1)
    }
}

/// The pairs of transitions, the first among the first `n`, that are not free-choice.
pub open spec fn choice_faults(ts: Seq<TransitionView>, n: int) -> Seq<DiagnosticView>
    decreases n,
{
    if n <= 0 {
        Seq::empty()
    } else {
        choice_faults(ts, n - 1) + choices_with(ts, n - 1, ts.len() as int)
    }
}

/// How the items of `a` lie in `b`: whether some do, and whether all do.
fn overlap(a: &Vec<String>, b: &Vec<String>) -> (r: (bool, bool))
    ensures
        r.0 == meets(a.deep_view(), b.deep_view()),
        r.1 == lies_in(a.deep_view(), b.deep_view()),
{
    let ghost av = a.deep_view();
    let ghost bv = b.deep_view();
    let mut some = false;
    let mut all = true;
    let mut i: usize = 0;
    while i < a.len()
        invariant
            i <= a.len(),
            av == a.deep_view(),
            bv == b.deep_view(),
            some == exists|j: int| 0 <= j < i && bv.contains(#[trigger] av[j]),
            all == forall|j: int| 0 <= j < i ==> bv.contains(#[trigger] av[j]),
        decreases a.len() - i,
    {
        assert(av[i as int] == a[i as int]@);
        if vec_contains(b, a[i].as_str()) {
            some = true;
        } else {
            all = false;
        }
        i = i + 1;
    }
    (some, all)
}

fn find_choice_faults(spec: &Spec) -> (r: Vec<Diagnostic>)
    ensures
        r.deep_view() == choice_faults(
            spec.deep_view().transitions,
            spec.deep_view().transitions.len() as int,
        ),
{
    let ghost ts = spec.transitions.deep_view();
    let mut out: Vec<Diagnostic> = empty_vec();
    let mut i: usize = 0;
    while i < spec.transitions.len()
        invariant
            i <= spec.transitions.len(),
            ts == spec.transitions.deep_view(),
            out.deep_view() == choice_faults(ts, i as int),
        decreases spec.transitions.len() - i,
    {
        let a = &spec.transitions[i];
        assert(ts[i as int] == a.deep_view());
        let ghost so_far = out.deep_view();
        let mut j: usize = i + 1;
        assert(so_far + choices_with(ts, i as int, i + 1) =~= so_far);
        while j < spec.transitions.len()
            invariant
                i < j <= spec.transitions.len(),
                ts == spec.transitions.deep_view(),
                ts[i as int] == a.deep_view(),
                out.deep_view() == so_far + choices_with(ts, i as int, j as int),
            decreases spec.transitions.len() - j,
        {
            let b = &spec.transitions[j];
            assert(ts[j as int] == b.deep_view());
            let ab = overlap(&a.consumes, &b.consumes);
            let ba = overlap(&b.consumes, &a.consumes);
            if ab.0 && (!ab.1 || !ba.1) {
                push_to(
                    &mut out,
                    warning(
                        "W013",
                        cat5(
                            "not free-choice: `",
                            a.id.as_str(),
                            "` and `",
                            b.id.as_str(),
                            "` share an input place with different preconditions; the general bounded procedure is used instead of the polynomial free-choice one",
                        ),
                    ),
                );
            }
            assert(out.deep_view() =~= so_far + choices_with(ts, i as int, j + 1));
            j = j + 1;
        }
        i = i + 1;
    }
    out
}

// ---------------------------------------------------------------------------
// Relations
// ---------------------------------------------------------------------------
/// What is wrong with a relation: it joins effects that are never emitted.
pub open spec fn relation_fault(
    name: Str,
    rel: RelationSchemaView,
    emitted: Seq<Str>,
) -> Seq<DiagnosticView> {
    let from = if emitted.contains(rel.from) {
        Seq::empty()
    } else {
        seq![
            error_at(
                "W014"@,
                "relation `"@ + name + "` sources effect `"@ + rel.from
                    + "` which no transition emits"@,
            ),
        ]
    };
    let to = if emitted.contains(rel.to) {
        Seq::empty()
    } else {
        seq![
            error_at(
                "W015"@,
                "relation `"@ + name + "` targets effect `"@ + rel.to
                    + "` which no transition emits"@,
            ),
        ]
    };
    from + to
}

/// What is wrong with the first `n` relations.
pub open spec fn relation_faults(spec: SpecView, n: int) -> Seq<DiagnosticView>
    decreases n,
{
    if n <= 0 {
        Seq::empty()
    } else {
        relation_faults(spec, n - 1) + relation_fault(
            spec.relations[n - 1].0,
            spec.relations[n - 1].1,
            emitted_kinds(spec),
        )
    }
}

/// What is wrong with an obligation: its relation is not declared, or declared otherwise.
pub open spec fn obligation_error(
    spec: SpecView,
    id: Str,
    effect: Str,
    o: RelationObligationView,
) -> Option<DiagnosticView> {
    match lookup(spec.relations, o.ty) {
        None => Some(
            error_at(
                "W016"@,
                "transition `"@ + id + "` requires undeclared relation `"@ + o.ty + "`"@,
            ),
        ),
        Some(rel) => if rel.from != effect || rel.to != o.target {
            Some(
                error_at(
                    "W017"@,
                    ("obligation on `"@ + id + "` is ill-typed: relation `"@ + o.ty + "` is "@
                        + rel.from + " -> "@ + rel.to) + " but the obligation is "@ + effect
                        + " -> "@ + o.target,
                ),
            )
        } else {
            None
        },
    }
}

/// What is wrong with the first `n` obligations of an effect.
pub open spec fn obligations_upto(
    spec: SpecView,
    id: Str,
    e: EffectTemplateView,
    n: int,
) -> Seq<DiagnosticView>
    decreases n,
{
    if n <= 0 {
        Seq::empty()
    } else {
        let rest = obligations_upto(spec, id, e, n - 1);
        match obligation_error(spec, id, e.effect, e.requires_relation[n - 1]) {
            Some(d) => rest.push(d),
            None => rest,
        }
    }
}

/// What is wrong with the obligations of the first `n` effects.
pub open spec fn effect_obligations(
    spec: SpecView,
    id: Str,
    es: Seq<EffectTemplateView>,
    n: int,
) -> Seq<DiagnosticView>
    decreases n,
{
    if n <= 0 {
        Seq::empty()
    } else {
        effect_obligations(spec, id, es, n - 1) + obligations_upto(
            spec,
            id,
            es[n - 1],
            es[n - 1].requires_relation.len() as int,
        )
    }
}

/// What is wrong with the obligations of the first `n` transitions.
pub open spec fn obligation_faults(spec: SpecView, n: int) -> Seq<DiagnosticView>
    decreases n,
{
    if n <= 0 {
        Seq::empty()
    } else {
        obligation_faults(spec, n - 1) + effect_obligations(
            spec,
            spec.transitions[n - 1].id,
            spec.transitions[n - 1].emits,
            spec.transitions[n - 1].emits.len() as int,
        )
    }
}

fn find_relation_faults(spec: &Spec, emitted: &IndexSet<String>) -> (r: Vec<Diagnostic>)
    requires
        forall|k: Str| #[trigger]
            texts_of(*emitted).contains(k) <==> emitted_kinds(spec.deep_view()).contains(k),
    ensures
        r.deep_view() == relation_faults(
            spec.deep_view(),
            spec.deep_view().relations.len() as int,
        ),
{
    let ghost sv = spec.deep_view();
    let mut out: Vec<Diagnostic> = empty_vec();
    let mut i: usize = 0;
    while i < spec.relations.len()
        invariant
            i <= sv.relations.len(),
            sv == spec.deep_view(),
            forall|k: Str| #[trigger]
                texts_of(*emitted).contains(k) <==> emitted_kinds(sv).contains(k),
            out.deep_view() == relation_faults(sv, i as int),
        decreases sv.relations.len() - i,
    {
        let name = spec.relations.key_at(i);
        let rel = spec.relations.value_at(i);
        let ghost so_far = out.deep_view();
        if !set_contains(emitted, rel.from.as_str()) {
            push_to(
                &mut out,
                error(
                    "W014",
                    cat5(
                        "relation `",
                        name.as_str(),
                        "` sources effect `",
                        rel.from.as_str(),
                        "` which no transition emits",
                    ),
                ),
            );
        }
        if !set_contains(emitted, rel.to.as_str()) {
            push_to(
                &mut out,
                error(
                    "W015",
                    cat5(
                        "relation `",
                        name.as_str(),
                        "` targets effect `",
                        rel.to.as_str(),
                        "` which no transition emits",
                    ),
                ),
            );
        }
        assert(out.deep_view() =~= so_far + relation_fault(
            name@,
            rel.deep_view(),
            emitted_kinds(sv),
        ));
        i = i + 1;
    }
    out
}

fn find_obligation_faults_of(spec: &Spec, id: &str, e: &EffectTemplate) -> (r: Vec<Diagnostic>)
    ensures
        r.deep_view() == obligations_upto(
            spec.deep_view(),
            id@,
            e.deep_view(),
            e.deep_view().requires_relation.len() as int,
        ),
{
    let ghost sv = spec.deep_view();
    let ghost ev = e.deep_view();
    let mut out: Vec<Diagnostic> = empty_vec();
    let mut i: usize = 0;
    while i < e.requires_relation.len()
        invariant
            i <= e.requires_relation.len(),
            sv == spec.deep_view(),
            ev == e.deep_view(),
            out.deep_view() == obligations_upto(sv, id@, ev, i as int),
        decreases e.requires_relation.len() - i,
    {
        let o = &e.requires_relation[i];
        assert(ev.requires_relation[i as int] == o.deep_view());
        match spec.relations.get(o.ty.as_str()) {
            None => {
                push_to(
                    &mut out,
                    error(
                        "W016",
                        cat5(
                            "transition `",
                            id,
                            "` requires undeclared relation `",
                            o.ty.as_str(),
                            "`",
                        ),
                    ),
                );
            },
            Some(rel) => {
                if rel.from != e.effect || rel.to != o.target {
                    let head = cat7(
                        "obligation on `",
                        id,
                        "` is ill-typed: relation `",
                        o.ty.as_str(),
                        "` is ",
                        rel.from.as_str(),
                        " -> ",
                    );
                    let mid = cat4(
                        head.as_str(),
                        rel.to.as_str(),
                        " but the obligation is ",
                        e.effect.as_str(),
                    );
                    push_to(
                        &mut out,
                        error("W017", cat3(mid.as_str(), " -> ", o.target.as_str())),
                    );
                }
            },
        }
        i = i + 1;
    }
    out
}

fn find_obligation_faults(spec: &Spec) -> (r: Vec<Diagnostic>)
    ensures
        r.deep_view() == obligation_faults(
            spec.deep_view(),
            spec.deep_view().transitions.len() as int,
        ),
{
    let ghost sv = spec.deep_view();
    let mut out: Vec<Diagnostic> = empty_vec();
    let mut i: usize = 0;
    while i < spec.transitions.len()
        invariant
            i <= spec.transitions.len(),
            sv == spec.deep_view(),
            out.deep_view() == obligation_faults(sv, i as int),
        decreases spec.transitions.len() - i,
    {
        let t = &spec.transitions[i];
        let ghost tv = t.deep_view();
        assert(sv.transitions[i as int] == tv);
        let ghost so_far = out.deep_view();
        let mut j: usize = 0;
        assert(so_far + effect_obligations(sv, tv.id, tv.emits, 0) =~= so_far);
        while j < t.emits.len()
            invariant
                j <= t.emits.len(),
                sv == spec.deep_view(),
                tv == t.deep_view(),
                out.deep_view() == so_far + effect_obligations(sv, tv.id, tv.emits, j as int),
            decreases t.emits.len() - j,
        {
            assert(tv.emits[j as int] == t.emits[j as int].deep_view());
            append_to(&mut out, find_obligation_faults_of(spec, t.id.as_str(), &t.emits[j]));
            assert(out.deep_view() =~= so_far + effect_obligations(
                sv,
                tv.id,
                tv.emits,
                j + 1,
            ));
            j = j + 1;
        }
        i = i + 1;
    }
    out
}

// ---------------------------------------------------------------------------
// Variables
// ---------------------------------------------------------------------------
/// Whether the transition binds `v` itself.
pub open spec fn binds_var(t: TransitionView, v: Str) -> bool {
    keys_of(t.binds).contains(v)
}

/// Whether some transition binds `v`.
pub open spec fn bound_somewhere(spec: SpecView, v: Str) -> bool {
    exists|t: int| 0 <= t < spec.transitions.len() && binds_var(#[trigger] spec.transitions[t], v)
}

/// Whether tokens in place `p` come from transitions only: it is declared, holds no token at
/// first, and some transition produces to it.
pub open spec fn fed(spec: SpecView, p: Str) -> bool {
    place_ids(spec).contains(p) && !marked_places(spec).contains(p) && is_produced(spec, p)
}

/// Whether, as far as `k` steps back tell, every token in place `p` knows the variable `v`:
/// each transition that produces to `p` binds `v`, or consumes from a place whose tokens do.
pub open spec fn known_within(spec: SpecView, k: nat, p: Str, v: Str) -> bool
    decreases k, 0nat,
{
    fed(spec, p) && if k == 0 {
        bound_somewhere(spec, v)
    } else {
        forall|t: int|
            0 <= t < spec.transitions.len() && (#[trigger] spec.transitions[t]).produces.contains(p)
                ==> available_within(spec, (k - 1) as nat, spec.transitions[t], v)
    }
}

/// Whether, as far as `k` steps back tell, a firing of `t` knows the variable `v`.
pub open spec fn available_within(spec: SpecView, k: nat, t: TransitionView, v: Str) -> bool
    decreases k, 1nat,
{
    binds_var(t, v) || exists|c: int|
        0 <= c < t.consumes.len() && known_within(spec, k, #[trigger] t.consumes[c], v)
}

/// Whether every token that ever lies in place `p` knows the variable `v`.
pub open spec fn always_known(spec: SpecView, p: Str, v: Str) -> bool {
    forall|k: nat| #[trigger] known_within(spec, k, p, v)
}

/// Whether every firing of `t` knows the variable `v`: it binds it, or consumes from a place
/// whose tokens always know it.
pub open spec fn guaranteed(spec: SpecView, t: TransitionView, v: Str) -> bool {
    binds_var(t, v) || exists|c: int|
        0 <= c < t.consumes.len() && always_known(spec, #[trigger] t.consumes[c], v)
}

/// The first `n` variables of `t` that no consumed token guarantees.
pub open spec fn unbound_vars(
    spec: SpecView,
    t: TransitionView,
    vars: Seq<Str>,
    n: int,
) -> Seq<DiagnosticView>
    decreases n,
{
    if n <= 0 {
        Seq::empty()
    } else if guaranteed(spec, t, vars[n - 1]) {
        unbound_vars(spec, t, vars, n - 1)
    } else {
        unbound_vars(spec, t, vars, n - 1).push(
            error_at(
                "W018"@,
                "transition `"@ + t.id + "` references `$"@ + vars[n - 1]
                    + "` which no consumed token guarantees"@,
            ),
        )
    }
}

/// The variables of the first `n` transitions that no consumed token guarantees.
pub open spec fn variable_faults(spec: SpecView, n: int) -> Seq<DiagnosticView>
    decreases n,
{
    if n <= 0 {
        Seq::empty()
    } else {
        let t = spec.transitions[n - 1];
        variable_faults(spec, n - 1) + unbound_vars(spec, t, vars_of(t), vars_of(t).len() as int)
    }
}

proof fn lemma_available_bound(spec: SpecView, k: nat, t: int, v: Str)
    requires
        0 <= t < spec.transitions.len(),
        available_within(spec, k, spec.transitions[t], v),
    ensures
        bound_somewhere(spec, v),
    decreases k, 1nat,
{
    if !binds_var(spec.transitions[t], v) {
        let c = choose|c: int|
            0 <= c < spec.transitions[t].consumes.len() && known_within(
                spec,
                k,
                #[trigger] spec.transitions[t].consumes[c],
                v,
            );
        lemma_known_bound(spec, k, spec.transitions[t].consumes[c], v);
    }
}

proof fn lemma_known_bound(spec: SpecView, k: nat, p: Str, v: Str)
    requires
        known_within(spec, k, p, v),
    ensures
        bound_somewhere(spec, v),
    decreases k, 0nat,
{
    if k > 0 {
        let t = choose|t: int|
            0 <= t < spec.transitions.len() && (#[trigger] spec.transitions[t]).produces.contains(p);
        lemma_available_bound(spec, (k - 1) as nat, t, v);
    }
}

/// What is known further back is known less far back too.
proof fn lemma_known_less(spec: SpecView, k: nat, p: Str, v: Str)
    requires
        known_within(spec, k + 1, p, v),
    ensures
        known_within(spec, k, p, v),
    decreases k,
{
    if k == 0 {
        lemma_known_bound(spec, 1, p, v);
    } else {
        assert forall|t: int|
            0 <= t < spec.transitions.len() && (#[trigger] spec.transitions[t]).produces.contains(
                p,
            ) implies available_within(spec, (k - 1) as nat, spec.transitions[t], v) by {
            let tr = spec.transitions[t];
            assert(available_within(spec, k, tr, v));
            if !binds_var(tr, v) {
                let c = choose|c: int|
                    0 <= c < tr.consumes.len() && known_within(
                        spec,
                        k,
                        #[trigger] tr.consumes[c],
                        v,
                    );
                lemma_known_less(spec, (k - 1) as nat, tr.consumes[c], v);
            }
        }
    }
}

proof fn lemma_known_downto(spec: SpecView, k: nat, l: nat, p: Str, v: Str)
    requires
        known_within(spec, l, p, v),
        k <= l,
    ensures
        known_within(spec, k, p, v),
    decreases l - k,
{
    if k < l {
        lemma_known_less(spec, (l - 1) as nat, p, v);
        lemma_known_downto(spec, k, (l - 1) as nat, p, v);
    }
}

/// Once a step back changes nothing, no further step does.
proof fn lemma_known_stable(spec: SpecView, k: nat, l: nat, p: Str, v: Str)
    requires
        k <= l,
        forall|q: Str| #[trigger]
            known_within(spec, k + 1, q, v) == known_within(spec, k, q, v),
        known_within(spec, k, p, v),
    ensures
        known_within(spec, l, p, v),
    decreases l,
{
    if l == k {
    } else {
        assert(known_within(spec, k + 1, p, v));
        assert forall|t: int|
            0 <= t < spec.transitions.len() && (#[trigger] spec.transitions[t]).produces.contains(
                p,
            ) implies available_within(spec, (l - 1) as nat, spec.transitions[t], v) by {
            let tr = spec.transitions[t];
            assert(available_within(spec, k, tr, v));
            if !binds_var(tr, v) {
                let c = choose|c: int|
                    0 <= c < tr.consumes.len() && known_within(
                        spec,
                        k,
                        #[trigger] tr.consumes[c],
                        v,
                    );
                lemma_known_stable(spec, k, (l - 1) as nat, tr.consumes[c], v);
            }
        }
    }
}

fn table_has(t: &Transition, v: &str) -> (r: bool)
    ensures
        r == binds_var(t.deep_view(), v@),
{
    let ghost tv = t.deep_view();
    let mut i: usize = 0;
    while i < t.binds.len()
        invariant
            i <= tv.binds.len(),
            tv == t.deep_view(),
            forall|j: int| 0 <= j < i ==> keys_of(tv.binds)[j] != v@,
        decreases tv.binds.len() - i,
    {
        if same_text(t.binds.key_at(i).as_str(), v) {
            assert(keys_of(tv.binds)[i as int] == v@);
            return true;
        }
        i = i + 1;
    }
    false
}

/// Whether one of the places that `names` lists has its flag set.
fn flagged(spec: &Spec, names: &Vec<String>, flags: &Vec<bool>, Ghost(k): Ghost<nat>, v: &str) -> (r:
    bool)
    requires
        flags.len() == spec.places.len(),
        forall|i: int|
            0 <= i < flags.len() ==> #[trigger] flags[i] == known_within(
                spec.deep_view(),
                k,
                spec.deep_view().places[i].id,
                v@,
            ),
    ensures
        r == exists|c: int|
            0 <= c < names.deep_view().len() && known_within(
                spec.deep_view(),
                k,
                #[trigger] names.deep_view()[c],
                v@,
            ),
{
    let ghost sv = spec.deep_view();
    let ghost nv = names.deep_view();
    let mut c: usize = 0;
    while c < names.len()
        invariant
            c <= names.len(),
            sv == spec.deep_view(),
            nv == names.deep_view(),
            flags.len() == spec.places.len(),
            forall|i: int|
                0 <= i < flags.len() ==> #[trigger] flags[i] == known_within(
                    sv,
                    k,
                    sv.places[i].id,
                    v@,
                ),
            forall|d: int| 0 <= d < c ==> !known_within(sv, k, #[trigger] nv[d], v@),
        decreases names.len() - c,
    {
        assert(nv[c as int] == names[c as int]@);
        let mut i: usize = 0;
        while i < spec.places.len()
            invariant
                i <= spec.places.len(),
                c < names.len(),
                sv == spec.deep_view(),
                nv == names.deep_view(),
                nv[c as int] == names[c as int]@,
                flags.len() == spec.places.len(),
                forall|i: int|
                    0 <= i < flags.len() ==> #[trigger] flags[i] == known_within(
                        sv,
                        k,
                        sv.places[i].id,
                        v@,
                    ),
                forall|j: int|
                    0 <= j < i ==> !((#[trigger] sv.places[j]).id == nv[c as int] && known_within(
                        sv,
                        k,
                        nv[c as int],
                        v@,
                    )),
            decreases spec.places.len() - i,
        {
            assert(sv.places[i as int] == spec.places[i as int].deep_view());
            if flags[i] && spec.places[i].id == names[c] {
                assert(known_within(sv, k, nv[c as int], v@));
                return true;
            }
            i = i + 1;
        }
        assert(!known_within(sv, k, nv[c as int], v@)) by {
            if known_within(sv, k, nv[c as int], v@) {
                assert(place_ids(sv).contains(nv[c as int]));
                let j = place_ids(sv).index_of(nv[c as int]);
                assert(sv.places[j].id == nv[c as int]);
            }
        }
        c = c + 1;
    }
    false
}

/// One step back: for each place, whether its tokens know `v`.
fn step_back(spec: &Spec, open: &Vec<bool>, flags: &Vec<bool>, Ghost(k): Ghost<nat>, v: &str) -> (r:
    Vec<bool>)
    requires
        flags.len() == spec.places.len(),
        open.len() == spec.places.len(),
        forall|i: int|
            0 <= i < open.len() ==> #[trigger] open[i] == fed(
                spec.deep_view(),
                spec.deep_view().places[i].id,
            ),
        forall|i: int|
            0 <= i < flags.len() ==> #[trigger] flags[i] == known_within(
                spec.deep_view(),
                k,
                spec.deep_view().places[i].id,
                v@,
            ),
    ensures
        r.len() == spec.places.len(),
        forall|i: int|
            0 <= i < r.len() ==> #[trigger] r[i] == known_within(
                spec.deep_view(),
                k + 1,
                spec.deep_view().places[i].id,
                v@,
            ),
{
    let ghost sv = spec.deep_view();
    let mut out: Vec<bool> = Vec::new();
    let mut i: usize = 0;
    while i < spec.places.len()
        invariant
            i <= spec.places.len(),
            sv == spec.deep_view(),
            out.len() == i,
            flags.len() == spec.places.len(),
            open.len() == spec.places.len(),
            forall|i: int| 0 <= i < open.len() ==> #[trigger] open[i] == fed(sv, sv.places[i].id),
            forall|i: int|
                0 <= i < flags.len() ==> #[trigger] flags[i] == known_within(
                    sv,
                    k,
                    sv.places[i].id,
                    v@,
                ),
            forall|j: int|
                0 <= j < i ==> #[trigger] out[j] == known_within(sv, k + 1, sv.places[j].id, v@),
        decreases spec.places.len() - i,
    {
        let p = &spec.places[i].id;
        assert(sv.places[i as int] == spec.places[i as int].deep_view());
        let mut ok = open[i];
        let mut t: usize = 0;
        while t < spec.transitions.len()
            invariant
                t <= spec.transitions.len(),
                i < spec.places.len(),
                sv == spec.deep_view(),
                p@ == sv.places[i as int].id,
                flags.len() == spec.places.len(),
                forall|i: int|
                    0 <= i < flags.len() ==> #[trigger] flags[i] == known_within(
                        sv,
                        k,
                        sv.places[i].id,
                        v@,
                    ),
                ok == (fed(sv, p@) && forall|u: int|
                    0 <= u < t && (#[trigger] sv.transitions[u]).produces.contains(p@)
                        ==> available_within(sv, k, sv.transitions[u], v@)),
            decreases spec.transitions.len() - t,
        {
            let tr = &spec.transitions[t];
            assert(sv.transitions[t as int] == tr.deep_view());
            if vec_contains(&tr.produces, p.as_str()) {
                let knows = table_has(tr, v) || flagged(spec, &tr.consumes, flags, Ghost(k), v);
                assert(knows == available_within(sv, k, sv.transitions[t as int], v@));
                if !knows {
                    ok = false;
                }
            }
            t = t + 1;
        }
        assert(ok == known_within(sv, k + 1, p@, v@));
        out.push(ok);
        i = i + 1;
    }
    out
}

proof fn lemma_fewer_flags(a: Seq<bool>, b: Seq<bool>, n: int)
    requires
        a.len() == b.len(),
        0 <= n <= a.len(),
        forall|i: int| 0 <= i < a.len() && #[trigger] b[i] ==> a[i],
    ensures
        set_flags(b, n) <= set_flags(a, n),
        (exists|i: int| 0 <= i < n && #[trigger] a[i] != b[i]) ==> set_flags(b, n) < set_flags(
            a,
            n,
        ),
    decreases n,
{
    if n > 0 {
        lemma_fewer_flags(a, b, n - 1);
        assert(b[n - 1] ==> a[n - 1]);
    }
}

fn declared_fed(spec: &Spec, marked: &Vec<String>) -> (r: Vec<bool>)
    requires
        marked.deep_view() == marked_places(spec.deep_view()),
    ensures
        r.len() == spec.places.len(),
        forall|i: int|
            0 <= i < r.len() ==> #[trigger] r[i] == fed(
                spec.deep_view(),
                spec.deep_view().places[i].id,
            ),
{
    let ghost sv = spec.deep_view();
    let mut out: Vec<bool> = Vec::new();
    let mut i: usize = 0;
    while i < spec.places.len()
        invariant
            i <= spec.places.len(),
            sv == spec.deep_view(),
            marked.deep_view() == marked_places(sv),
            out.len() == i,
            forall|j: int| 0 <= j < i ==> #[trigger] out[j] == fed(sv, sv.places[j].id),
        decreases spec.places.len() - i,
    {
        let p = &spec.places[i].id;
        assert(sv.places[i as int] == spec.places[i as int].deep_view());
        assert(place_ids(sv)[i as int] == p@);
        out.push(!vec_contains(marked, p.as_str()) && someone_produces(spec, p.as_str()));
        i = i + 1;
    }
    out
}

/// For each place, whether every token that ever lies in it knows the variable `v`.
fn find_known(spec: &Spec, open: &Vec<bool>, v: &str) -> (r: (Vec<bool>, Ghost<nat>))
    requires
        open.len() == spec.places.len(),
        forall|i: int|
            0 <= i < open.len() ==> #[trigger] open[i] == fed(
                spec.deep_view(),
                spec.deep_view().places[i].id,
            ),
    ensures
        r.0.len() == spec.places.len(),
        forall|i: int|
            0 <= i < r.0.len() ==> #[trigger] r.0[i] == known_within(
                spec.deep_view(),
                r.1@,
                spec.deep_view().places[i].id,
                v@,
            ),
        forall|p: Str| #[trigger]
            known_within(spec.deep_view(), r.1@, p, v@) <==> always_known(
                spec.deep_view(),
                p,
                v@,
            ),
{
    let ghost sv = spec.deep_view();
    let mut bound = false;
    let mut t: usize = 0;
    while t < spec.transitions.len()
        invariant
            t <= spec.transitions.len(),
            sv == spec.deep_view(),
            bound == exists|u: int| 0 <= u < t && binds_var(#[trigger] sv.transitions[u], v@),
        decreases spec.transitions.len() - t,
    {
        assert(sv.transitions[t as int] == spec.transitions[t as int].deep_view());
        if table_has(&spec.transitions[t], v) {
            bound = true;
        }
        t = t + 1;
    }
    let mut flags: Vec<bool> = Vec::new();
    let mut i: usize = 0;
    while i < spec.places.len()
        invariant
            i <= spec.places.len(),
            sv == spec.deep_view(),
            bound == bound_somewhere(sv, v@),
            open.len() == spec.places.len(),
            forall|i: int| 0 <= i < open.len() ==> #[trigger] open[i] == fed(sv, sv.places[i].id),
            flags.len() == i,
            forall|j: int|
                0 <= j < i ==> #[trigger] flags[j] == known_within(sv, 0, sv.places[j].id, v@),
        decreases spec.places.len() - i,
    {
        flags.push(open[i] && bound);
        i = i + 1;
    }
    let ghost mut k: nat = 0;
    loop
        invariant
            sv == spec.deep_view(),
            open.len() == spec.places.len(),
            flags.len() == spec.places.len(),
            forall|i: int| 0 <= i < open.len() ==> #[trigger] open[i] == fed(sv, sv.places[i].id),
            forall|i: int|
                0 <= i < flags.len() ==> #[trigger] flags[i] == known_within(
                    sv,
                    k,
                    sv.places[i].id,
                    v@,
                ),
        decreases set_flags(flags@, flags@.len() as int),
    {
        let next = step_back(spec, open, &flags, Ghost(k), v);
        let mut changed = false;
        let mut j: usize = 0;
        while j < next.len()
            invariant
                j <= next.len(),
                next.len() == flags.len(),
                changed == exists|i: int| 0 <= i < j && #[trigger] flags@[i] != next@[i],
            decreases next.len() - j,
        {
            if next[j] != flags[j] {
                assert(flags@[j as int] != next@[j as int]);
                changed = true;
            }
            j = j + 1;
        }
        proof {
            assert forall|i: int| 0 <= i < flags@.len() && #[trigger] next@[i] implies flags@[i] by {
                assert(next[i] == known_within(sv, k + 1, sv.places[i].id, v@));
                assert(flags[i] == known_within(sv, k, sv.places[i].id, v@));
                lemma_known_less(sv, k, sv.places[i].id, v@);
            }
            lemma_fewer_flags(flags@, next@, flags@.len() as int);
        }
        if !changed {
            proof {
                assert forall|q: Str| #[trigger] known_within(sv, k + 1, q, v@) == known_within(
                    sv,
                    k,
                    q,
                    v@,
                ) by {
                    if place_ids(sv).contains(q) {
                        let i = place_ids(sv).index_of(q);
                        assert(sv.places[i].id == q);
                        assert(flags@[i] == next@[i]);
                        assert(flags[i] == known_within(sv, k, sv.places[i].id, v@));
                        assert(next[i] == known_within(sv, k + 1, sv.places[i].id, v@));
                    }
                }
                assert forall|p: Str| #[trigger] known_within(sv, k, p, v@) <==> always_known(
                    sv,
                    p,
                    v@,
                ) by {
                    if known_within(sv, k, p, v@) {
                        assert forall|l: nat| #[trigger] known_within(sv, l, p, v@) by {
                            if l <= k {
                                lemma_known_downto(sv, l, k, p, v@);
                            } else {
                                lemma_known_stable(sv, k, l, p, v@);
                            }
                        }
                    }
                }
            }
            return (flags, Ghost(k));
        }
        flags = next;
        proof {
            k = k + 1;
        }
    }
}

fn find_variable_faults(spec: &Spec, marked: &Vec<String>) -> (r: Vec<Diagnostic>)
    requires
        marked.deep_view() == marked_places(spec.deep_view()),
    ensures
        r.deep_view() == variable_faults(
            spec.deep_view(),
            spec.deep_view().transitions.len() as int,
        ),
{
    let ghost sv = spec.deep_view();
    let open = declared_fed(spec, marked);
    let mut out: Vec<Diagnostic> = empty_vec();
    let mut i: usize = 0;
    while i < spec.transitions.len()
        invariant
            i <= spec.transitions.len(),
            sv == spec.deep_view(),
            open.len() == spec.places.len(),
            forall|i: int| 0 <= i < open.len() ==> #[trigger] open[i] == fed(sv, sv.places[i].id),
            out.deep_view() == variable_faults(sv, i as int),
        decreases spec.transitions.len() - i,
    {
        let t = &spec.transitions[i];
        let ghost tv = t.deep_view();
        assert(sv.transitions[i as int] == tv);
        let vars = Spec::referenced_vars(t);
        let ghost vv = vars_of(tv);
        let ghost so_far = out.deep_view();
        let mut j: usize = 0;
        assert(so_far + unbound_vars(sv, tv, vv, 0) =~= so_far);
        while j < vars.len()
            invariant
                j <= vars.len(),
                sv == spec.deep_view(),
                tv == t.deep_view(),
                vv == vars.deep_view(),
                open.len() == spec.places.len(),
                forall|i: int|
                    0 <= i < open.len() ==> #[trigger] open[i] == fed(sv, sv.places[i].id),
                out.deep_view() == so_far + unbound_vars(sv, tv, vv, j as int),
            decreases vars.len() - j,
        {
            let v = vars[j].as_str();
            assert(vv[j as int] == v@);
            let (flags, step) = find_known(spec, &open, v);
            let ghost k = step@;
            let ok = table_has(t, v) || flagged(spec, &t.consumes, &flags, Ghost(k), v);
            proof {
                assert(ok == guaranteed(sv, tv, v@)) by {
                    if exists|c: int|
                        0 <= c < tv.consumes.len() && known_within(
                            sv,
                            k,
                            #[trigger] tv.consumes[c],
                            v@,
                        ) {
                        let c = choose|c: int|
                            0 <= c < tv.consumes.len() && known_within(
                                sv,
                                k,
                                #[trigger] tv.consumes[c],
                                v@,
                            );
                        assert(always_known(sv, tv.consumes[c], v@));
                    }
                    if exists|c: int|
                        0 <= c < tv.consumes.len() && always_known(
                            sv,
                            #[trigger] tv.consumes[c],
                            v@,
                        ) {
                        let c = choose|c: int|
                            0 <= c < tv.consumes.len() && always_known(
                                sv,
                                #[trigger] tv.consumes[c],
                                v@,
                            );
                        assert(known_within(sv, k, tv.consumes[c], v@));
                    }
                }
            }
            if !ok {
                push_to(
                    &mut out,
                    error(
                        "W018",
                        cat5(
                            "transition `",
                            t.id.as_str(),
                            "` references `$",
                            v,
                            "` which no consumed token guarantees",
                        ),
                    ),
                );
            }
            assert(out.deep_view() =~= so_far + unbound_vars(sv, tv, vv, j + 1));
            j = j + 1;
        }
        i = i + 1;
    }
    out
}

// ---------------------------------------------------------------------------
// Invariants
// ---------------------------------------------------------------------------
/// The first transition at or after position `i` that takes a token from place `p` and puts
/// one back.
pub open spec fn copier_from(ts: Seq<TransitionView>, p: Str, i: int) -> Option<Str>
    decreases ts.len() - i,
{
    if i < 0 || i >= ts.len() {
        None
    } else if ts[i].consumes.contains(p) && ts[i].produces.contains(p) {
        Some(ts[i].id)
    } else {
        copier_from(ts, p, i + 1)
    }
}

/// What is wrong with a declared property.
pub open spec fn invariant_fault(spec: SpecView, inv: InvariantView) -> Seq<DiagnosticView> {
    match inv.kind {
        InvariantKindView::EffectHasProducingTransition { effect, scope } => if emitted_kinds(
            spec,
        ).contains(effect) {
            Seq::empty()
        } else {
            seq![
                error_at(
                    "W019"@,
                    "invariant `"@ + inv.id + "` names effect `"@ + effect
                        + "` which no transition emits"@,
                ),
            ]
        },
        InvariantKindView::TokenConsumedNotCopied { place } => {
            let unknown = if place_ids(spec).contains(place) {
                Seq::empty()
            } else {
                seq![
                    error_at(
                        "W020"@,
                        "invariant `"@ + inv.id + "` names unknown place `"@ + place + "`"@,
                    ),
                ]
            };
            let copied = match copier_from(spec.transitions, place, 0) {
                Some(id) => seq![
                    error_at(
                        "W021"@,
                        "invariant `"@ + inv.id + "` fails statically: transition `"@ + id
                            + "` returns the `"@ + place + "` token it consumes"@,
                    ),
                ],
                None => Seq::empty(),
            };
            unknown + copied
        },
    }
}

/// What is wrong with the first `n` declared properties.
pub open spec fn invariant_faults(spec: SpecView, n: int) -> Seq<DiagnosticView>
    decreases n,
{
    if n <= 0 {
        Seq::empty()
    } else {
        invariant_faults(spec, n - 1) + invariant_fault(spec, spec.invariants[n - 1])
    }
}

fn find_copier(spec: &Spec, p: &str) -> (r: Option<String>)
    ensures
        r.deep_view() == copier_from(spec.deep_view().transitions, p@, 0),
{
    let ghost ts = spec.transitions.deep_view();
    let mut i: usize = 0;
    while i < spec.transitions.len()
        invariant
            i <= spec.transitions.len(),
            ts == spec.transitions.deep_view(),
            copier_from(ts, p@, 0) == copier_from(ts, p@, i as int),
        decreases spec.transitions.len() - i,
    {
        let t = &spec.transitions[i];
        assert(ts[i as int] == t.deep_view());
        if vec_contains(&t.consumes, p) && vec_contains(&t.produces, p) {
            return Some(t.id.clone());
        }
        i = i + 1;
    }
    None
}

fn find_invariant_fault(spec: &Spec, inv: &Invariant, emitted: &IndexSet<String>) -> (r: Vec<
    Diagnostic,
>)
    requires
        forall|k: Str| #[trigger]
            texts_of(*emitted).contains(k) <==> emitted_kinds(spec.deep_view()).contains(k),
    ensures
        r.deep_view() == invariant_fault(spec.deep_view(), inv.deep_view()),
{
    let mut out: Vec<Diagnostic> = empty_vec();
    match &inv.kind {
        InvariantKind::EffectHasProducingTransition { effect, scope } => {
            if !set_contains(emitted, effect.as_str()) {
                push_to(
                    &mut out,
                    error(
                        "W019",
                        cat5(
                            "invariant `",
                            inv.id.as_str(),
                            "` names effect `",
                            effect.as_str(),
                            "` which no transition emits",
                        ),
                    ),
                );
            }
        },
        InvariantKind::TokenConsumedNotCopied { place } => {
            let ids = list_place_ids(spec);
            if !vec_contains(&ids, place.as_str()) {
                push_to(
                    &mut out,
                    error(
                        "W020",
                        cat5(
                            "invariant `",
                            inv.id.as_str(),
                            "` names unknown place `",
                            place.as_str(),
                            "`",
                        ),
                    ),
                );
            }
            match find_copier(spec, place.as_str()) {
                Some(id) => {
                    push_to(
                        &mut out,
                        error(
                            "W021",
                            cat7(
                                "invariant `",
                                inv.id.as_str(),
                                "` fails statically: transition `",
                                id.as_str(),
                                "` returns the `",
                                place.as_str(),
                                "` token it consumes",
                            ),
                        ),
                    );
                },
                None => {},
            }
        },
    }
    assert(out.deep_view() =~= invariant_fault(spec.deep_view(), inv.deep_view()));
    out
}

// ---------------------------------------------------------------------------
// The lint
// ---------------------------------------------------------------------------
/// All that is wrong with a specification.
pub open spec fn linted(spec: SpecView) -> LintReportView {
    let n = spec.transitions.len() as int;
    LintReportView {
        diagnostics: name_faults(spec) + flow_faults(spec) + choice_faults(spec.transitions, n)
            + relation_faults(spec, spec.relations.len() as int) + obligation_faults(spec, n)
            + variable_faults(spec, n) + invariant_faults(spec, spec.invariants.len() as int),
    }
}

/// Checks a specification for soundness.
pub fn lint(spec: &Spec) -> (r: LintReport)
    ensures
        r.deep_view() == linted(spec.deep_view()),
{
    let ghost sv = spec.deep_view();
    let marked = list_marked(spec);
    let kinds = list_emitted(spec);
    let emitted = set_of(&kinds);
    let mut out = find_name_faults(spec, &marked);
    append_to(&mut out, find_flow_faults(spec, &marked));
    append_to(&mut out, find_choice_faults(spec));
    append_to(&mut out, find_relation_faults(spec, &emitted));
    append_to(&mut out, find_obligation_faults(spec));
    append_to(&mut out, find_variable_faults(spec, &marked));
    let ghost so_far = out.deep_view();
    let mut i: usize = 0;
    assert(so_far + invariant_faults(sv, 0) =~= so_far);
    while i < spec.invariants.len()
        invariant
            i <= spec.invariants.len(),
            sv == spec.deep_view(),
            forall|k: Str| #[trigger]
                texts_of(emitted).contains(k) <==> emitted_kinds(sv).contains(k),
            out.deep_view() == so_far + invariant_faults(sv, i as int),
        decreases spec.invariants.len() - i,
    {
        assert(sv.invariants[i as int] == spec.invariants[i as int].deep_view());
        append_to(&mut out, find_invariant_fault(spec, &spec.invariants[i], &emitted));
        assert(out.deep_view() =~= so_far + invariant_faults(sv, i + 1));
        i = i + 1;
    }
    LintReport { diagnostics: out }
}

// ---------------------------------------------------------------------------
// Laws
// ---------------------------------------------------------------------------
proof fn lemma_sound_parts(a: Seq<DiagnosticView>, b: Seq<DiagnosticView>)
    requires
        sound(a + b),
    ensures
        sound(a),
        sound(b),
{
    assert forall|i: int| 0 <= i < a.len() implies (#[trigger] a[i]).severity
        != Severity::Error by {
        assert((a + b)[i] == a[i]);
    }
    assert forall|i: int| 0 <= i < b.len() implies (#[trigger] b[i]).severity
        != Severity::Error by {
        assert((a + b)[a.len() + i] == b[i]);
    }
}

proof fn lemma_sound_pushed(a: Seq<DiagnosticView>, d: DiagnosticView)
    requires
        sound(a.push(d)),
    ensures
        sound(a),
        d.severity != Severity::Error,
{
    assert(a.push(d)[a.len() as int] == d);
    assert forall|i: int| 0 <= i < a.len() implies (#[trigger] a[i]).severity
        != Severity::Error by {
        assert(a.push(d)[i] == a[i]);
    }
}

proof fn lemma_none_dead(spec: SpecView, n: int)
    requires
        sound(dead_upto(spec, n)),
    ensures
        forall|t: int| 0 <= t < n ==> live(spec, (#[trigger] spec.transitions[t]).id),
    decreases n,
{
    if n > 0 {
        if !live(spec, spec.transitions[n - 1].id) {
            lemma_sound_pushed(
                dead_upto(spec, n - 1),
                error_at(
                    "W009"@,
                    "transition `"@ + spec.transitions[n - 1].id
                        + "` is dead: never structurally enabled"@,
                ),
            );
        }
        lemma_none_dead(spec, n - 1);
    }
}

proof fn lemma_finals_reached(spec: SpecView, n: int)
    requires
        sound(unreachable_finals(spec, n)),
    ensures
        forall|f: int| 0 <= f < n ==> coverable(spec, #[trigger] spec.final_places[f]),
    decreases n,
{
    if n > 0 {
        if !coverable(spec, spec.final_places[n - 1]) {
            lemma_sound_pushed(
                unreachable_finals(spec, n - 1),
                error_at(
                    "W010"@,
                    "improper completion: final place `"@ + spec.final_places[n - 1]
                        + "` is unreachable"@,
                ),
            );
        }
        lemma_finals_reached(spec, n - 1);
    }
}

proof fn lemma_vars_guaranteed(spec: SpecView, t: TransitionView, vars: Seq<Str>, n: int)
    requires
        sound(unbound_vars(spec, t, vars, n)),
    ensures
        forall|v: int| 0 <= v < n ==> guaranteed(spec, t, #[trigger] vars[v]),
    decreases n,
{
    if n > 0 {
        if !guaranteed(spec, t, vars[n - 1]) {
            lemma_sound_pushed(
                unbound_vars(spec, t, vars, n - 1),
                error_at(
                    "W018"@,
                    "transition `"@ + t.id + "` references `$"@ + vars[n - 1]
                        + "` which no consumed token guarantees"@,
                ),
            );
        }
        lemma_vars_guaranteed(spec, t, vars, n - 1);
    }
}

proof fn lemma_all_guaranteed(spec: SpecView, n: int)
    requires
        sound(variable_faults(spec, n)),
    ensures
        forall|t: int, v: int|
            0 <= t < n && 0 <= v < vars_of(spec.transitions[t]).len() ==> guaranteed(
                spec,
                spec.transitions[t],
                #[trigger] vars_of(spec.transitions[t])[v],
            ),
    decreases n,
{
    if n > 0 {
        let t = spec.transitions[n - 1];
        let vars = vars_of(t);
        lemma_sound_parts(
            variable_faults(spec, n - 1),
            unbound_vars(spec, t, vars, vars.len() as int),
        );
        lemma_all_guaranteed(spec, n - 1);
        lemma_vars_guaranteed(spec, t, vars, vars.len() as int);
    }
}

/// What a sound specification promises: each of its transitions can be enabled, each of its
/// final places can be marked, and each variable that a transition refers to is known whenever
/// it fires.
pub proof fn sound_specifications_can_run(spec: SpecView)
    requires
        sound(linted(spec).diagnostics),
    ensures
        forall|t: int|
            0 <= t < spec.transitions.len() ==> live(spec, (#[trigger] spec.transitions[t]).id),
        forall|f: int|
            0 <= f < spec.final_places.len() ==> coverable(spec, #[trigger] spec.final_places[f]),
        forall|t: int, v: int|
            0 <= t < spec.transitions.len() && 0 <= v < vars_of(spec.transitions[t]).len()
                ==> guaranteed(
                spec,
                spec.transitions[t],
                #[trigger] vars_of(spec.transitions[t])[v],
            ),
{
    let n = spec.transitions.len() as int;
    let a = name_faults(spec);
    let b = flow_faults(spec);
    let c = choice_faults(spec.transitions, n);
    let d = relation_faults(spec, spec.relations.len() as int);
    let e = obligation_faults(spec, n);
    let f = variable_faults(spec, n);
    let g = invariant_faults(spec, spec.invariants.len() as int);
    lemma_sound_parts(a + b + c + d + e + f, g);
    lemma_sound_parts(a + b + c + d + e, f);
    lemma_sound_parts(a + b + c + d, e);
    lemma_sound_parts(a + b + c, d);
    lemma_sound_parts(a + b, c);
    lemma_sound_parts(a, b);
    let dead = dead_upto(spec, n);
    let finals = unreachable_finals(spec, spec.final_places.len() as int);
    lemma_sound_parts(dead + finals, place_faults_upto(spec, spec.places.len() as int));
    lemma_sound_parts(dead, finals);
    lemma_none_dead(spec, n);
    lemma_finals_reached(spec, spec.final_places.len() as int);
    lemma_all_guaranteed(spec, n);
}

} // verus!
