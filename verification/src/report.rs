//! What is told of a lint, a verdict, a measure, a campaign and a scenario, line by line.

use crate::campaign::{Campaign, Trial};
use crate::certificate::{Certificate, CertificateView};
use crate::digest::{digest_text, short_digest, short_text};
use crate::explain::{failures_upto, list_failures};
use crate::lint::{sound, DiagnosticView, Severity};
use crate::load::{short_name, LoadedSpec, LoadedSpecView};
use crate::mutate::{Mutant, MutantView};
use crate::net::{Failure, FailureView};
use crate::observation::{fact_text, FactView, Observation, ObservationView};
use crate::ordered::{append_to, empty_vec, push_to, Dup, StrMap};
use crate::permissiveness::{Permissiveness, PermissivenessView};
use crate::policy::{BotPolicy, BotPolicyView, PolicyFindingView, PolicyOutcome, PolicyOutcomeView};
use crate::search::{WitnessStep, WitnessStepView};
use crate::text::{
    cat2, cat3, cat4, cat5, cat7, decimal, decimal_text, has_prefix, join, joined,
    starts_with_text, Str,
};
use crate::verify::{
    path_text, BlockedStep, BlockedStepView, Verdict, VerifyOutcome, VerifyOutcomeView,
};
use vstd::prelude::*;
use vstd::utf8::{encode_utf8, is_char_boundary};

verus! {

// ---------------------------------------------------------------------------
// Lines
// ---------------------------------------------------------------------------
/// The text with blanks behind it, up to a width.
pub open spec fn padded(s: Str, width: int) -> Str
    decreases width - s.len(),
{
    if s.len() >= width {
        s
    } else {
        padded(s.push(' '), width)
    }
}

fn pad(s: &str, width: usize) -> (r: String)
    ensures
        r@ == padded(s@, width as int),
{
    let mut cs = crate::text::chars_of(s);
    while cs.len() < width
        invariant
            padded(cs@, width as int) == padded(s@, width as int),
        decreases width - cs.len(),
    {
        cs.push(' ');
    }
    crate::text::string_of(&cs)
}

/// The first `n` texts, each behind a prefix.
pub open spec fn prefixed(prefix: Str, items: Seq<Str>, n: int) -> Seq<Str>
    decreases n,
{
    if n <= 0 {
        Seq::empty()
    } else {
        prefixed(prefix, items, n - 1).push(prefix + items[n - 1])
    }
}

fn prefix_all(prefix: &str, items: &Vec<String>) -> (r: Vec<String>)
    ensures
        r.deep_view() == prefixed(prefix@, items.deep_view(), items.deep_view().len() as int),
{
    let ghost iv = items.deep_view();
    let mut out: Vec<String> = empty_vec();
    let mut i: usize = 0;
    while i < items.len()
        invariant
            i <= items.len(),
            iv == items.deep_view(),
            out.deep_view() == prefixed(prefix@, iv, i as int),
        decreases items.len() - i,
    {
        assert(iv[i as int] == items[i as int]@);
        push_to(&mut out, cat2(prefix, items[i].as_str()));
        i = i + 1;
    }
    assert(items.len() == iv.len());
    out
}

fn one(line: String) -> (r: Vec<String>)
    ensures
        r.deep_view() == seq![line@],
{
    let ghost l = line@;
    let mut out: Vec<String> = empty_vec();
    push_to(&mut out, line);
    assert(out.deep_view() =~= seq![l]);
    out
}

fn number(n: usize) -> (r: String)
    ensures
        r@ == decimal(n as nat),
{
    decimal_text(n as u64)
}

/// How a verdict is told.
pub open spec fn verdict_word(v: Verdict) -> Str {
    if v == Verdict::Accept {
        "ACCEPT"@
    } else {
        "REJECT"@
    }
}

fn tell_verdict(accepted: bool) -> (r: &'static str)
    ensures
        r@ == verdict_word(
            if accepted {
                Verdict::Accept
            } else {
                Verdict::Reject
            },
        ),
{
    if accepted {
        "ACCEPT"
    } else {
        "REJECT"
    }
}

// ---------------------------------------------------------------------------
// A lint
// ---------------------------------------------------------------------------
/// What is told of a finding.
pub open spec fn finding_line(d: DiagnosticView) -> Str {
    (if d.severity == Severity::Error {
        "ERROR  "@
    } else {
        "WARNING"@
    }) + " "@ + d.code + "  "@ + d.message
}

/// What is told of the first `n` findings.
pub open spec fn findings_told(ds: Seq<DiagnosticView>, n: int) -> Seq<Str>
    decreases n,
{
    if n <= 0 {
        Seq::empty()
    } else {
        findings_told(ds, n - 1).push(finding_line(ds[n - 1]))
    }
}

/// What is told of a lint.
pub open spec fn lint_told(l: LoadedSpecView) -> Seq<Str> {
    seq![
        "SPEC      "@ + short_name(l.spec.workflow, l.hash),
        "PLACES    "@ + decimal(l.spec.places.len()) + "   TRANSITIONS  "@ + decimal(
            l.spec.transitions.len(),
        ),
    ] + findings_told(l.report.diagnostics, l.report.diagnostics.len() as int) + seq![
        if sound(l.report.diagnostics) {
            "VERDICT   SOUND"@
        } else {
            "VERDICT   UNSOUND"@
        },
    ]
}

/// Tells of a lint.
pub fn lint_lines(loaded: &LoadedSpec) -> (r: Vec<String>)
    requires
        is_char_boundary(encode_utf8(loaded.deep_view().hash), 12),
    ensures
        r.deep_view() == lint_told(loaded.deep_view()),
{
    let ghost lv = loaded.deep_view();
    let ghost ds = lv.report.diagnostics;
    let name = loaded.short_hash();
    assert(loaded.spec.places.len() == lv.spec.places.len());
    assert(loaded.spec.transitions.len() == lv.spec.transitions.len());
    let places = number(loaded.spec.places.len());
    let transitions = number(loaded.spec.transitions.len());
    let mut out: Vec<String> = empty_vec();
    push_to(&mut out, cat2("SPEC      ", name.as_str()));
    push_to(
        &mut out,
        cat4("PLACES    ", places.as_str(), "   TRANSITIONS  ", transitions.as_str()),
    );
    let ghost head = out.deep_view();
    let mut i: usize = 0;
    assert(head + findings_told(ds, 0) =~= head);
    while i < loaded.report.diagnostics.len()
        invariant
            i <= loaded.report.diagnostics.len(),
            ds == loaded.deep_view().report.diagnostics,
            out.deep_view() == head + findings_told(ds, i as int),
        decreases loaded.report.diagnostics.len() - i,
    {
        let d = &loaded.report.diagnostics[i];
        assert(ds[i as int] == d.deep_view());
        let tag = if d.severity == Severity::Error {
            "ERROR  "
        } else {
            "WARNING"
        };
        push_to(&mut out, cat5(tag, " ", d.code, "  ", d.message.as_str()));
        assert(out.deep_view() =~= head + findings_told(ds, i + 1));
        i = i + 1;
    }
    assert(loaded.report.diagnostics.len() == ds.len());
    if loaded.report.is_sound() {
        push_to(&mut out, "VERDICT   SOUND".to_string());
    } else {
        push_to(&mut out, "VERDICT   UNSOUND".to_string());
    }
    assert(out.deep_view() =~= lint_told(lv));
    out
}

// ---------------------------------------------------------------------------
// A verdict
// ---------------------------------------------------------------------------
/// The bindings among the first `n` that are told: those whose names do not begin with an
/// underscore.
pub open spec fn bindings_told(m: Seq<(Str, Str)>, n: int) -> Seq<Str>
    decreases n,
{
    if n <= 0 {
        Seq::empty()
    } else if has_prefix(m[n - 1].0, "_"@) {
        bindings_told(m, n - 1)
    } else {
        bindings_told(m, n - 1).push(m[n - 1].0 + "="@ + m[n - 1].1)
    }
}

/// What is told of a step.
pub open spec fn step_line(s: WitnessStepView) -> Str {
    let source = match s.record {
        Some(r) => r,
        None => "unobserved"@,
    };
    "            "@ + padded(s.transition, 26) + " "@ + padded(s.principal, 20) + " ["@ + source
        + "] "@ + joined(bindings_told(s.bindings, s.bindings.len() as int), " "@)
}

/// What is told of the first `n` steps.
pub open spec fn steps_told(path: Seq<WitnessStepView>, n: int) -> Seq<Str>
    decreases n,
{
    if n <= 0 {
        Seq::empty()
    } else {
        steps_told(path, n - 1).push(step_line(path[n - 1]))
    }
}

/// How many of the first `n` steps were observed.
pub open spec fn observed_upto(path: Seq<WitnessStepView>, n: int) -> nat
    decreases n,
{
    if n <= 0 {
        0
    } else if path[n - 1].observed {
        observed_upto(path, n - 1) + 1
    } else {
        observed_upto(path, n - 1)
    }
}

/// The first line of a verdict.
pub open spec fn verdict_line(v: Verdict, robust: Option<bool>) -> Str {
    "VERDICT   "@ + verdict_word(v) + (match robust {
        Some(true) => "  (robust: holds at maximum slack)"@,
        Some(false) => "  (explainable by unobserved steps)"@,
        None => Seq::empty(),
    })
}

/// What is told of the part of a rejected run that can be explained.
pub open spec fn explained_told(o: VerifyOutcomeView) -> Seq<Str> {
    if o.witness is None && o.explained.len() > 0 {
        seq![
            "EXPLAINED "@ + path_text(o.explained) + "      "@ + decimal(
                observed_upto(o.explained, o.explained.len() as int),
            ) + " of "@ + decimal(o.observed_steps as nat) + " observed steps"@,
        ] + steps_told(o.explained, o.explained.len() as int)
    } else {
        Seq::empty()
    }
}

/// What is told of the step that is blocked.
pub open spec fn blocked_told(b: Option<BlockedStepView>) -> Seq<Str> {
    match b {
        Some(s) => seq![
            "BLOCKED   "@ + padded(s.step, 26) + " "@ + padded(s.principal, 20) + " ["@ + s.record
                + "]"@,
        ],
        None => Seq::empty(),
    }
}

/// What is told of the path that explains a run.
pub open spec fn witness_told(w: Option<Seq<WitnessStepView>>) -> Seq<Str> {
    match w {
        Some(p) => seq!["WITNESS   "@ + path_text(p)] + steps_told(p, p.len() as int),
        None => Seq::empty(),
    }
}

/// The first `n` facts of a core, numbered from one.
pub open spec fn facts_told(fs: Seq<FactView>, n: int) -> Seq<Str>
    decreases n,
{
    if n <= 0 {
        Seq::empty()
    } else {
        facts_told(fs, n - 1).push("  ["@ + decimal(n as nat) + "] "@ + fact_text(fs[n - 1]))
    }
}

/// What is told of a core.
pub open spec fn core_told(c: CertificateView) -> Seq<Str> {
    let fs = c.minimal_unsatisfiable_set;
    if fs.len() == 0 {
        Seq::empty()
    } else {
        seq![
            "MINIMAL UNSATISFIABLE SET   ("@ + decimal(c.mus_oracle_calls as nat)
                + " oracle calls"@ + (if c.mus_minimal {
                Seq::empty()
            } else {
                ", not reduced to a local minimum"@
            }) + ")"@,
        ] + facts_told(fs, fs.len() as int)
    }
}

/// What is told of what failed.
pub open spec fn failures_told(fs: Seq<FailureView>) -> Seq<Str> {
    if fs.len() == 0 {
        Seq::empty()
    } else {
        seq!["FAILED OBLIGATION"@] + prefixed(
            "  "@,
            failures_upto(fs, fs.len() as int),
            fs.len() as int,
        )
    }
}

/// The last lines told of a verdict, on its bound, how much was searched, and what was judged
/// by what.
pub open spec fn verdict_foot(
    l: LoadedSpecView,
    obs: ObservationView,
    canonical: Seq<u8>,
    o: VerifyOutcomeView,
) -> Seq<Str> {
    seq![
        "BOUND     k="@ + decimal(o.bound as nat) + ", slack="@ + decimal(o.slack as nat) + (
        if o.exhausted {
            "  (state cap reached)"@
        } else {
            Seq::empty()
        }),
        "STATES    "@ + decimal(o.states_explored as nat),
        "SPEC      "@ + short_name(l.spec.workflow, l.hash),
        "RUN       "@ + obs.run_id + "  sha256:"@ + short_text(digest_text(canonical)),
    ]
}

/// What is told of a verdict.
pub open spec fn verdict_told(
    l: LoadedSpecView,
    obs: ObservationView,
    canonical: Seq<u8>,
    o: VerifyOutcomeView,
    robust: Option<bool>,
    c: CertificateView,
) -> Seq<Str> {
    seq![verdict_line(o.verdict, robust)] + explained_told(o) + blocked_told(o.blocked)
        + witness_told(o.witness) + core_told(c) + prefixed(
        "NOTE      "@,
        c.notes,
        c.notes.len() as int,
    ) + failures_told(o.failures) + verdict_foot(l, obs, canonical, o)
}

fn list_bindings(m: &StrMap<String>) -> (r: Vec<String>)
    ensures
        r.deep_view() == bindings_told(m.deep_view(), m.deep_view().len() as int),
{
    let ghost mv = m.deep_view();
    let mut out: Vec<String> = empty_vec();
    let mut i: usize = 0;
    while i < m.len()
        invariant
            i <= mv.len(),
            mv == m.deep_view(),
            out.deep_view() == bindings_told(mv, i as int),
        decreases mv.len() - i,
    {
        let k = m.key_at(i);
        let v = m.value_at(i);
        if !starts_with_text(k.as_str(), "_") {
            push_to(&mut out, cat3(k.as_str(), "=", v.as_str()));
        }
        i = i + 1;
    }
    out
}

/// Tells of a step.
pub fn print_step(step: &WitnessStep) -> (r: String)
    ensures
        r@ == step_line(step.deep_view()),
{
    let source = match &step.record {
        Some(s) => s.dup(),
        None => "unobserved".to_string(),
    };
    let list = list_bindings(&step.bindings);
    let bindings = join(&list, " ");
    let transition = pad(step.transition.as_str(), 26);
    let principal = pad(step.principal.as_str(), 20);
    let head = cat7(
        "            ",
        transition.as_str(),
        " ",
        principal.as_str(),
        " [",
        source.as_str(),
        "] ",
    );
    cat2(head.as_str(), bindings.as_str())
}

fn tell_steps(path: &Vec<WitnessStep>) -> (r: Vec<String>)
    ensures
        r.deep_view() == steps_told(path.deep_view(), path.deep_view().len() as int),
{
    let ghost pv = path.deep_view();
    let mut out: Vec<String> = empty_vec();
    let mut i: usize = 0;
    while i < path.len()
        invariant
            i <= path.len(),
            pv == path.deep_view(),
            out.deep_view() == steps_told(pv, i as int),
        decreases path.len() - i,
    {
        assert(pv[i as int] == path[i as int].deep_view());
        push_to(&mut out, print_step(&path[i]));
        i = i + 1;
    }
    assert(path.len() == pv.len());
    out
}

proof fn lemma_observed(path: Seq<WitnessStepView>, n: int)
    requires
        0 <= n,
    ensures
        observed_upto(path, n) <= n,
    decreases n,
{
    if n > 0 {
        lemma_observed(path, n - 1);
    }
}

fn tell_explained(o: &VerifyOutcome) -> (r: Vec<String>)
    ensures
        r.deep_view() == explained_told(o.deep_view()),
{
    let ghost ov = o.deep_view();
    let ghost pv = ov.explained;
    assert(o.explained.len() == pv.len());
    if o.witness.is_some() || o.explained.len() == 0 {
        return empty_vec();
    }
    let mut seen: usize = 0;
    let mut i: usize = 0;
    while i < o.explained.len()
        invariant
            i <= o.explained.len(),
            pv == o.deep_view().explained,
            seen == observed_upto(pv, i as int),
        decreases o.explained.len() - i,
    {
        assert(pv[i as int] == o.explained[i as int].deep_view());
        proof {
            lemma_observed(pv, i as int);
        }
        if o.explained[i].observed {
            seen = seen + 1;
        }
        i = i + 1;
    }
    let path = o.explained_path();
    let count = number(seen);
    let steps = number(o.observed_steps);
    let mut out = one(
        cat7(
            "EXPLAINED ",
            path.as_str(),
            "      ",
            count.as_str(),
            " of ",
            steps.as_str(),
            " observed steps",
        ),
    );
    append_to(&mut out, tell_steps(&o.explained));
    out
}

fn tell_blocked(b: &Option<BlockedStep>) -> (r: Vec<String>)
    ensures
        r.deep_view() == blocked_told(b.deep_view()),
{
    match b {
        Some(s) => {
            let step = pad(s.step.as_str(), 26);
            let principal = pad(s.principal.as_str(), 20);
            one(
                cat7(
                    "BLOCKED   ",
                    step.as_str(),
                    " ",
                    principal.as_str(),
                    " [",
                    s.record.as_str(),
                    "]",
                ),
            )
        },
        None => empty_vec(),
    }
}

fn tell_witness(o: &VerifyOutcome) -> (r: Vec<String>)
    ensures
        r.deep_view() == witness_told(o.deep_view().witness),
{
    match &o.witness {
        Some(w) => {
            let path = o.witness_path();
            let mut out = one(cat2("WITNESS   ", path.as_str()));
            append_to(&mut out, tell_steps(w));
            out
        },
        None => empty_vec(),
    }
}

fn tell_core(c: &Certificate) -> (r: Vec<String>)
    ensures
        r.deep_view() == core_told(c.deep_view()),
{
    let ghost cv = c.deep_view();
    let ghost fs = cv.minimal_unsatisfiable_set;
    assert(c.minimal_unsatisfiable_set.len() == fs.len());
    if c.minimal_unsatisfiable_set.len() == 0 {
        return empty_vec();
    }
    let calls = number(c.mus_oracle_calls);
    let tail = if c.mus_minimal {
        String::new()
    } else {
        ", not reduced to a local minimum".to_string()
    };
    let mut out = one(
        cat5(
            "MINIMAL UNSATISFIABLE SET   (",
            calls.as_str(),
            " oracle calls",
            tail.as_str(),
            ")",
        ),
    );
    let ghost head = out.deep_view();
    let mut i: usize = 0;
    assert(head + facts_told(fs, 0) =~= head);
    while i < c.minimal_unsatisfiable_set.len()
        invariant
            i <= c.minimal_unsatisfiable_set.len(),
            fs == c.deep_view().minimal_unsatisfiable_set,
            out.deep_view() == head + facts_told(fs, i as int),
        decreases c.minimal_unsatisfiable_set.len() - i,
    {
        assert(fs[i as int] == c.minimal_unsatisfiable_set[i as int].deep_view());
        let n = number(i + 1);
        let fact = c.minimal_unsatisfiable_set[i].render();
        push_to(&mut out, cat4("  [", n.as_str(), "] ", fact.as_str()));
        assert(out.deep_view() =~= head + facts_told(fs, i + 1));
        i = i + 1;
    }
    out
}

proof fn lemma_failures_len(fs: Seq<FailureView>, n: int)
    requires
        0 <= n,
    ensures
        failures_upto(fs, n).len() == n,
    decreases n,
{
    if n > 0 {
        lemma_failures_len(fs, n - 1);
    }
}

fn tell_failures(fs: &Vec<Failure>) -> (r: Vec<String>)
    ensures
        r.deep_view() == failures_told(fs.deep_view()),
{
    assert(fs.len() == fs.deep_view().len());
    if fs.len() == 0 {
        return empty_vec();
    }
    let mut out = one("FAILED OBLIGATION".to_string());
    let texts = list_failures(fs);
    proof {
        lemma_failures_len(fs.deep_view(), fs.deep_view().len() as int);
    }
    append_to(&mut out, prefix_all("  ", &texts));
    out
}

/// Tells of a verdict. `canonical` is the canonical encoding of the observation.
pub fn report(
    loaded: &LoadedSpec,
    obs: &Observation,
    canonical: &[u8],
    outcome: &VerifyOutcome,
    robust: Option<bool>,
    issued: &Certificate,
) -> (r: Vec<String>)
    requires
        is_char_boundary(encode_utf8(loaded.deep_view().hash), 12),
    ensures
        r.deep_view() == verdict_told(
            loaded.deep_view(),
            obs.deep_view(),
            canonical@,
            outcome.deep_view(),
            robust,
            issued.deep_view(),
        ),
{
    let word = tell_verdict(outcome.accepted());
    let how = match robust {
        Some(true) => "  (robust: holds at maximum slack)".to_string(),
        Some(false) => "  (explainable by unobserved steps)".to_string(),
        None => String::new(),
    };
    let line = cat3("VERDICT   ", word, how.as_str());
    assert(line@ == verdict_line(outcome.deep_view().verdict, robust));
    let mut out = one(line);
    append_to(&mut out, tell_explained(outcome));
    append_to(&mut out, tell_blocked(&outcome.blocked));
    append_to(&mut out, tell_witness(outcome));
    append_to(&mut out, tell_core(issued));
    append_to(&mut out, prefix_all("NOTE      ", &issued.notes));
    append_to(&mut out, tell_failures(&outcome.failures));
    let bound = number(outcome.bound);
    let slack = number(outcome.slack);
    let states = number(outcome.states_explored);
    let name = loaded.short_hash();
    let hash = Observation::hash(canonical);
    let short = short_digest(hash.as_str());
    let capped = if outcome.exhausted {
        "  (state cap reached)".to_string()
    } else {
        String::new()
    };
    let mut foot: Vec<String> = empty_vec();
    push_to(
        &mut foot,
        cat5("BOUND     k=", bound.as_str(), ", slack=", slack.as_str(), capped.as_str()),
    );
    push_to(&mut foot, cat2("STATES    ", states.as_str()));
    push_to(&mut foot, cat2("SPEC      ", name.as_str()));
    push_to(
        &mut foot,
        cat4("RUN       ", obs.run_id.as_str(), "  sha256:", short.as_str()),
    );
    assert(foot.deep_view() =~= verdict_foot(
        loaded.deep_view(),
        obs.deep_view(),
        canonical@,
        outcome.deep_view(),
    ));
    append_to(&mut out, foot);
    out
}

// ---------------------------------------------------------------------------
// A measure
// ---------------------------------------------------------------------------
/// How many shapes were counted, with a plus sign where the count was cut short.
pub open spec fn shapes_text(m: PermissivenessView) -> Str {
    decimal(m.shapes as nat) + (if m.truncated {
        "+"@
    } else {
        Seq::empty()
    })
}

/// What is told of the first `n` depths.
pub open spec fn rows_told(rows: Seq<PermissivenessView>, n: int) -> Seq<Str>
    decreases n,
{
    if n <= 0 {
        Seq::empty()
    } else {
        rows_told(rows, n - 1).push(
            "  "@ + padded(decimal(rows[n - 1].depth as nat), 7) + " "@ + shapes_text(rows[n - 1]),
        )
    }
}

/// What is told of a measure.
pub open spec fn measure_told(l: LoadedSpecView, rows: Seq<PermissivenessView>) -> Seq<Str> {
    let foot = if rows.len() == 0 {
        Seq::empty()
    } else {
        seq![
            "ACCEPTS   "@ + shapes_text(rows.last())
                + " structurally distinct executions at depth "@ + decimal(
                rows.last().depth as nat,
            ),
            "LANGUAGE  infinite: the net contains a cycle, so no depth bounds the accepted set"@,
        ]
    };
    seq![
        "SPEC      "@ + short_name(l.spec.workflow, l.hash),
        "SOURCE    "@ + decimal(l.spec.places.len()) + " places, "@ + decimal(
            l.spec.transitions.len(),
        ) + " transitions"@,
        "DEPTH     DISTINCT EFFECT-GRAPH SHAPES"@,
    ] + rows_told(rows, rows.len() as int) + foot
}

fn tell_shapes(m: &Permissiveness) -> (r: String)
    ensures
        r@ == shapes_text(m.deep_view()),
{
    let n = number(m.shapes);
    let plus = if m.truncated {
        "+".to_string()
    } else {
        String::new()
    };
    cat2(n.as_str(), plus.as_str())
}

/// Tells of a measure.
pub fn measure_lines(loaded: &LoadedSpec, rows: &Vec<Permissiveness>) -> (r: Vec<String>)
    requires
        is_char_boundary(encode_utf8(loaded.deep_view().hash), 12),
    ensures
        r.deep_view() == measure_told(loaded.deep_view(), rows.deep_view()),
{
    let ghost lv = loaded.deep_view();
    let ghost rv = rows.deep_view();
    let name = loaded.short_hash();
    assert(loaded.spec.places.len() == lv.spec.places.len());
    assert(loaded.spec.transitions.len() == lv.spec.transitions.len());
    let places = number(loaded.spec.places.len());
    let transitions = number(loaded.spec.transitions.len());
    let mut out: Vec<String> = empty_vec();
    push_to(&mut out, cat2("SPEC      ", name.as_str()));
    push_to(
        &mut out,
        cat5(
            "SOURCE    ",
            places.as_str(),
            " places, ",
            transitions.as_str(),
            " transitions",
        ),
    );
    push_to(&mut out, "DEPTH     DISTINCT EFFECT-GRAPH SHAPES".to_string());
    let ghost head = out.deep_view();
    let mut i: usize = 0;
    assert(head + rows_told(rv, 0) =~= head);
    while i < rows.len()
        invariant
            i <= rows.len(),
            rv == rows.deep_view(),
            out.deep_view() == head + rows_told(rv, i as int),
        decreases rows.len() - i,
    {
        assert(rv[i as int] == rows[i as int].deep_view());
        let depth = number(rows[i].depth);
        let column = pad(depth.as_str(), 7);
        let shapes = tell_shapes(&rows[i]);
        push_to(&mut out, cat4("  ", column.as_str(), " ", shapes.as_str()));
        assert(out.deep_view() =~= head + rows_told(rv, i + 1));
        i = i + 1;
    }
    assert(rows.len() == rv.len());
    if rows.len() > 0 {
        let last = &rows[rows.len() - 1];
        assert(rv.last() == last.deep_view());
        let shapes = tell_shapes(last);
        let depth = number(last.depth);
        push_to(
            &mut out,
            cat4(
                "ACCEPTS   ",
                shapes.as_str(),
                " structurally distinct executions at depth ",
                depth.as_str(),
            ),
        );
        push_to(
            &mut out,
            "LANGUAGE  infinite: the net contains a cycle, so no depth bounds the accepted set".to_string(),
        );
    }
    assert(out.deep_view() =~= measure_told(lv, rv));
    out
}

// ---------------------------------------------------------------------------
// A campaign
// ---------------------------------------------------------------------------
/// How a trial is told.
pub open spec fn trial_word(t: Trial) -> Str {
    match t {
        Trial::Unsound => "unsound"@,
        Trial::Accept => "ACCEPT"@,
        Trial::Reject => "REJECT"@,
    }
}

/// What is told of the first `n` mutants.
pub open spec fn trials_told(ms: Seq<MutantView>, ts: Seq<Trial>, n: int) -> Seq<Str>
    decreases n,
{
    if n <= 0 {
        Seq::empty()
    } else {
        trials_told(ms, ts, n - 1).push(
            "  "@ + padded(ms[n - 1].id, 62) + " "@ + trial_word(ts[n - 1]),
        )
    }
}

/// What those of the first `n` mutants that accept the run relax.
pub open spec fn relaxations_upto(ms: Seq<MutantView>, ts: Seq<Trial>, n: int) -> Seq<Str>
    decreases n,
{
    if n <= 0 {
        Seq::empty()
    } else if ts[n - 1] == Trial::Accept {
        relaxations_upto(ms, ts, n - 1).push("  "@ + ms[n - 1].description)
    } else {
        relaxations_upto(ms, ts, n - 1)
    }
}

/// What is told of a pair of mutants.
pub open spec fn pair_told(a: MutantView, b: MutantView) -> Seq<Str> {
    seq![
        "  "@ + a.id,
        "  "@ + b.id,
        "    -> "@ + a.description,
        "    -> "@ + b.description,
    ]
}

/// What is told of the first `n` pairs.
pub open spec fn pairs_told(ms: Seq<MutantView>, ps: Seq<(usize, usize)>, n: int) -> Seq<Str>
    decreases n,
{
    if n <= 0 {
        Seq::empty()
    } else {
        pairs_told(ms, ps, n - 1) + pair_told(ms[ps[n - 1].0 as int], ms[ps[n - 1].1 as int])
    }
}

/// What is told of what a campaign found: the single mutants that accept the run, or the pairs
/// of which five are shown, or that there are none.
pub open spec fn result_told(ms: Seq<MutantView>, ts: Seq<Trial>, ps: Seq<(usize, usize)>) -> Seq<
    Str,
> {
    let n = ms.len() as int;
    let hits = relaxations_upto(ms, ts, n);
    let first = "RESULT    "@ + decimal(hits.len()) + " of "@ + decimal(ms.len())
        + " single mutations remove the rejection"@;
    if hits.len() > 0 {
        seq![first] + hits
    } else if ps.len() == 0 {
        seq![
            first,
            "          no pair of mutations removes it either: the rejection does not rest on any one or two clauses"@,
        ]
    } else {
        seq![
            first,
            "          the rejection is over-determined: "@ + decimal(ps.len())
                + " pair(s) of clauses must both be relaxed"@,
            "MINIMAL RELAXATION"@,
        ] + pairs_told(
            ms,
            ps,
            if ps.len() < 5 {
                ps.len() as int
            } else {
                5
            },
        )
    }
}

/// What is told of a campaign.
pub open spec fn campaign_told(
    l: LoadedSpecView,
    run_id: Str,
    ms: Seq<MutantView>,
    baseline: Verdict,
    ts: Seq<Trial>,
    ps: Seq<(usize, usize)>,
) -> Seq<Str> {
    let head = seq![
        "SPEC      "@ + short_name(l.spec.workflow, l.hash),
        "RUN       "@ + run_id,
        "BASELINE  "@ + verdict_word(baseline),
    ];
    if baseline == Verdict::Accept {
        head + seq!["Mutation testing only applies to a rejected run. This one is accepted."@]
    } else {
        head + seq!["MUTANT                                                           VERDICT"@]
            + trials_told(ms, ts, ms.len() as int) + result_told(ms, ts, ps)
    }
}

fn tell_trials(ms: &Vec<Mutant>, ts: &Vec<Trial>) -> (r: Vec<String>)
    requires
        ms.len() == ts.len(),
    ensures
        r.deep_view() == trials_told(ms.deep_view(), ts@, ms.deep_view().len() as int),
{
    let ghost mv = ms.deep_view();
    let mut out: Vec<String> = empty_vec();
    let mut i: usize = 0;
    while i < ms.len()
        invariant
            i <= ms.len(),
            ms.len() == ts.len(),
            mv == ms.deep_view(),
            out.deep_view() == trials_told(mv, ts@, i as int),
        decreases ms.len() - i,
    {
        assert(mv[i as int] == ms[i as int].deep_view());
        let word = match ts[i] {
            Trial::Unsound => "unsound",
            Trial::Accept => "ACCEPT",
            Trial::Reject => "REJECT",
        };
        let id = pad(ms[i].id.as_str(), 62);
        push_to(&mut out, cat4("  ", id.as_str(), " ", word));
        i = i + 1;
    }
    assert(ms.len() == mv.len());
    out
}

fn list_relaxations(ms: &Vec<Mutant>, ts: &Vec<Trial>) -> (r: Vec<String>)
    requires
        ms.len() == ts.len(),
    ensures
        r.deep_view() == relaxations_upto(ms.deep_view(), ts@, ms.deep_view().len() as int),
{
    let ghost mv = ms.deep_view();
    let mut out: Vec<String> = empty_vec();
    let mut i: usize = 0;
    while i < ms.len()
        invariant
            i <= ms.len(),
            ms.len() == ts.len(),
            mv == ms.deep_view(),
            out.deep_view() == relaxations_upto(mv, ts@, i as int),
        decreases ms.len() - i,
    {
        assert(mv[i as int] == ms[i as int].deep_view());
        if ts[i] == Trial::Accept {
            push_to(&mut out, cat2("  ", ms[i].description.as_str()));
        }
        i = i + 1;
    }
    assert(ms.len() == mv.len());
    out
}

fn tell_pairs(ms: &Vec<Mutant>, ps: &Vec<(usize, usize)>) -> (r: Vec<String>)
    requires
        forall|i: int|
            0 <= i < ps.len() ==> (#[trigger] ps[i]).0 < ms.len() && ps[i].1 < ms.len(),
    ensures
        r.deep_view() == pairs_told(
            ms.deep_view(),
            ps@,
            if ps.len() < 5 {
                ps.len() as int
            } else {
                5
            },
        ),
{
    let ghost mv = ms.deep_view();
    let mut out: Vec<String> = empty_vec();
    let mut i: usize = 0;
    while i < ps.len() && i < 5
        invariant
            i <= ps.len(),
            i <= 5,
            forall|i: int|
                0 <= i < ps.len() ==> (#[trigger] ps[i]).0 < ms.len() && ps[i].1 < ms.len(),
            mv == ms.deep_view(),
            out.deep_view() == pairs_told(mv, ps@, i as int),
        decreases ps.len() - i,
    {
        let p = ps[i];
        assert(ps[i as int].0 < ms.len());
        let a = &ms[p.0];
        let b = &ms[p.1];
        assert(mv[p.0 as int] == a.deep_view());
        assert(mv[p.1 as int] == b.deep_view());
        let ghost so_far = out.deep_view();
        push_to(&mut out, cat2("  ", a.id.as_str()));
        push_to(&mut out, cat2("  ", b.id.as_str()));
        push_to(&mut out, cat2("    -> ", a.description.as_str()));
        push_to(&mut out, cat2("    -> ", b.description.as_str()));
        assert(out.deep_view() =~= so_far + pair_told(a.deep_view(), b.deep_view()));
        i = i + 1;
    }
    out
}

fn tell_result(ms: &Vec<Mutant>, ts: &Vec<Trial>, ps: &Vec<(usize, usize)>) -> (r: Vec<String>)
    requires
        ms.len() == ts.len(),
        forall|i: int|
            0 <= i < ps.len() ==> (#[trigger] ps[i]).0 < ms.len() && ps[i].1 < ms.len(),
    ensures
        r.deep_view() == result_told(ms.deep_view(), ts@, ps@),
{
    let hits = list_relaxations(ms, ts);
    assert(hits.len() == hits.deep_view().len());
    assert(ms.len() == ms.deep_view().len());
    let count = number(hits.len());
    let all = number(ms.len());
    let mut out = one(
        cat5(
            "RESULT    ",
            count.as_str(),
            " of ",
            all.as_str(),
            " single mutations remove the rejection",
        ),
    );
    if hits.len() > 0 {
        append_to(&mut out, hits);
        return out;
    }
    if ps.len() == 0 {
        push_to(
            &mut out,
            "          no pair of mutations removes it either: the rejection does not rest on any one or two clauses".to_string(),
        );
        assert(out.deep_view() =~= result_told(ms.deep_view(), ts@, ps@));
        return out;
    }
    let n = number(ps.len());
    push_to(
        &mut out,
        cat3(
            "          the rejection is over-determined: ",
            n.as_str(),
            " pair(s) of clauses must both be relaxed",
        ),
    );
    push_to(&mut out, "MINIMAL RELAXATION".to_string());
    append_to(&mut out, tell_pairs(ms, ps));
    assert(out.deep_view() =~= result_told(ms.deep_view(), ts@, ps@));
    out
}

/// Tells of a campaign against these mutants.
pub fn campaign_lines(loaded: &LoadedSpec, run_id: &str, ms: &Vec<Mutant>, c: &Campaign) -> (r:
    Vec<String>)
    requires
        is_char_boundary(encode_utf8(loaded.deep_view().hash), 12),
        c.baseline == Verdict::Reject ==> c.singles.len() == ms.len(),
        forall|i: int|
            0 <= i < c.pairs.len() ==> (#[trigger] c.pairs[i]).0 < ms.len() && c.pairs[i].1
                < ms.len(),
    ensures
        r.deep_view() == campaign_told(
            loaded.deep_view(),
            run_id@,
            ms.deep_view(),
            c.baseline,
            c.singles@,
            c.pairs@,
        ),
{
    let accepted = c.baseline == Verdict::Accept;
    let name = loaded.short_hash();
    let word = tell_verdict(accepted);
    let mut out: Vec<String> = empty_vec();
    push_to(&mut out, cat2("SPEC      ", name.as_str()));
    push_to(&mut out, cat2("RUN       ", run_id));
    push_to(&mut out, cat2("BASELINE  ", word));
    let ghost head = out.deep_view();
    if accepted {
        push_to(
            &mut out,
            "Mutation testing only applies to a rejected run. This one is accepted.".to_string(),
        );
        assert(out.deep_view() =~= campaign_told(
            loaded.deep_view(),
            run_id@,
            ms.deep_view(),
            c.baseline,
            c.singles@,
            c.pairs@,
        ));
        return out;
    }
    push_to(
        &mut out,
        "MUTANT                                                           VERDICT".to_string(),
    );
    append_to(&mut out, tell_trials(ms, &c.singles));
    append_to(&mut out, tell_result(ms, &c.singles, &c.pairs));
    assert(out.deep_view() =~= campaign_told(
        loaded.deep_view(),
        run_id@,
        ms.deep_view(),
        c.baseline,
        c.singles@,
        c.pairs@,
    ));
    out
}

// ---------------------------------------------------------------------------
// A scenario
// ---------------------------------------------------------------------------
/// What is told of a service account.
pub open spec fn account_told(p: BotPolicyView) -> Seq<Str> {
    seq![
        "SERVICE ACCOUNT"@,
        "   identity     "@ + p.identity,
        "   credential   "@ + p.credential.kind + " "@ + p.credential.id + "  issued "@
            + p.credential.issued,
        "   rotated      "@ + (match p.credential.last_rotated {
            Some(t) => t,
            None => "never"@,
        }),
        "   may perform  "@ + joined(p.allowed_actions, ", "@),
        "   may write to "@ + joined(p.allowed_scopes, ", "@),
        "   "@ + p.description,
    ]
}

/// Tells of a service account.
pub fn account_lines(p: &BotPolicy) -> (r: Vec<String>)
    ensures
        r.deep_view() == account_told(p.deep_view()),
{
    let rotated = match &p.credential.last_rotated {
        Some(t) => t.dup(),
        None => "never".to_string(),
    };
    let actions = join(&p.allowed_actions, ", ");
    let scopes = join(&p.allowed_scopes, ", ");
    let credential = cat5(
        "   credential   ",
        p.credential.kind.as_str(),
        " ",
        p.credential.id.as_str(),
        "  issued ",
    );
    let mut out: Vec<String> = empty_vec();
    push_to(&mut out, "SERVICE ACCOUNT".to_string());
    push_to(&mut out, cat2("   identity     ", p.identity.as_str()));
    push_to(&mut out, cat2(credential.as_str(), p.credential.issued.as_str()));
    push_to(&mut out, cat2("   rotated      ", rotated.as_str()));
    push_to(&mut out, cat2("   may perform  ", actions.as_str()));
    push_to(&mut out, cat2("   may write to ", scopes.as_str()));
    push_to(&mut out, cat2("   ", p.description.as_str()));
    assert(out.deep_view() =~= account_told(p.deep_view()));
    out
}

/// What is told of the first `n` findings of a permission check.
pub open spec fn denials_told(fs: Seq<PolicyFindingView>, n: int) -> Seq<Str>
    decreases n,
{
    if n <= 0 {
        Seq::empty()
    } else {
        denials_told(fs, n - 1).push("      "@ + fs[n - 1].subject + "  "@ + fs[n - 1].detail)
    }
}

/// What is told of a permission check.
pub open spec fn permission_told(p: PolicyOutcomeView) -> Seq<Str> {
    seq![
        "   IDENTITY AND PERMISSION CHECK   "@ + decimal(p.checked_identities as nat)
            + " identities, "@ + decimal(p.checked_actions as nat) + " actions"@,
    ] + (if p.findings.len() == 0 {
        seq!["   -> ALLOWED. Every action is one this identity may perform."@]
    } else {
        seq!["   -> DENIED"@] + denials_told(p.findings, p.findings.len() as int)
    })
}

/// What is told of a verdict beside a permission check: two failures at most.
pub open spec fn reachability_told(o: VerifyOutcomeView) -> Seq<Str> {
    if o.verdict == Verdict::Accept {
        seq![
            "   -> ACCEPT. "@ + (match o.witness {
                Some(p) => path_text(p),
                None => Seq::empty(),
            }),
        ]
    } else {
        let legal = if o.explained.len() == 0 {
            Seq::empty()
        } else {
            seq!["      legal so far: "@ + path_text(o.explained)]
        };
        let blocked = match o.blocked {
            Some(b) => seq!["      blocked at:   "@ + b.step],
            None => Seq::empty(),
        };
        let n = if o.failures.len() < 2 {
            o.failures.len() as int
        } else {
            2
        };
        seq!["   -> REJECT"@] + legal + blocked + prefixed(
            "      "@,
            failures_upto(o.failures, o.failures.len() as int),
            n,
        )
    }
}

/// What is told of one run of a scenario.
pub open spec fn leg_told(title: Str, story: Str, p: PolicyOutcomeView, o: VerifyOutcomeView) -> Seq<
    Str,
> {
    seq![""@, "== "@ + title + " =="@, "   "@ + story, ""@] + permission_told(p) + seq![
        ""@,
        "   REACHABILITY CHECK   (one unlogged step allowed)"@,
    ] + reachability_told(o)
}

fn tell_permission(p: &PolicyOutcome) -> (r: Vec<String>)
    ensures
        r.deep_view() == permission_told(p.deep_view()),
{
    let ghost fs = p.deep_view().findings;
    let identities = number(p.checked_identities);
    let actions = number(p.checked_actions);
    let mut out = one(
        cat5(
            "   IDENTITY AND PERMISSION CHECK   ",
            identities.as_str(),
            " identities, ",
            actions.as_str(),
            " actions",
        ),
    );
    if p.allowed() {
        push_to(
            &mut out,
            "   -> ALLOWED. Every action is one this identity may perform.".to_string(),
        );
        assert(out.deep_view() =~= permission_told(p.deep_view()));
        return out;
    }
    push_to(&mut out, "   -> DENIED".to_string());
    let ghost head = out.deep_view();
    let mut i: usize = 0;
    assert(head + denials_told(fs, 0) =~= head);
    while i < p.findings.len()
        invariant
            i <= p.findings.len(),
            fs == p.deep_view().findings,
            out.deep_view() == head + denials_told(fs, i as int),
        decreases p.findings.len() - i,
    {
        let f = &p.findings[i];
        assert(fs[i as int] == f.deep_view());
        push_to(&mut out, cat4("      ", f.subject.as_str(), "  ", f.detail.as_str()));
        assert(out.deep_view() =~= head + denials_told(fs, i + 1));
        i = i + 1;
    }
    assert(p.findings.len() == fs.len());
    assert(out.deep_view() =~= permission_told(p.deep_view()));
    out
}

fn tell_reachability(o: &VerifyOutcome) -> (r: Vec<String>)
    ensures
        r.deep_view() == reachability_told(o.deep_view()),
{
    let ghost ov = o.deep_view();
    if o.accepted() {
        let path = o.witness_path();
        return one(cat2("   -> ACCEPT. ", path.as_str()));
    }
    let mut out = one("   -> REJECT".to_string());
    assert(o.explained.len() == ov.explained.len());
    if o.explained.len() > 0 {
        let path = o.explained_path();
        push_to(&mut out, cat2("      legal so far: ", path.as_str()));
    }
    match &o.blocked {
        Some(b) => push_to(&mut out, cat2("      blocked at:   ", b.step.as_str())),
        None => {},
    }
    let ghost head = out.deep_view();
    let texts = list_failures(&o.failures);
    let ghost tv = texts.deep_view();
    proof {
        lemma_failures_len(ov.failures, ov.failures.len() as int);
        assert(texts.len() == tv.len());
    }
    let mut i: usize = 0;
    assert(head + prefixed("      "@, tv, 0) =~= head);
    while i < texts.len() && i < 2
        invariant
            i <= texts.len(),
            i <= 2,
            tv == texts.deep_view(),
            out.deep_view() == head + prefixed("      "@, tv, i as int),
        decreases texts.len() - i,
    {
        assert(tv[i as int] == texts[i as int]@);
        push_to(&mut out, cat2("      ", texts[i].as_str()));
        assert(out.deep_view() =~= head + prefixed("      "@, tv, i + 1));
        i = i + 1;
    }
    assert(out.deep_view() =~= reachability_told(ov));
    out
}

/// Tells of one run of a scenario: what the permission check makes of it, and what the
/// verdict is.
pub fn leg_lines(title: &str, story: &str, p: &PolicyOutcome, o: &VerifyOutcome) -> (r: Vec<String>)
    ensures
        r.deep_view() == leg_told(title@, story@, p.deep_view(), o.deep_view()),
{
    let mut out: Vec<String> = empty_vec();
    push_to(&mut out, "".to_string());
    push_to(&mut out, cat3("== ", title, " =="));
    push_to(&mut out, cat2("   ", story));
    push_to(&mut out, "".to_string());
    append_to(&mut out, tell_permission(p));
    push_to(&mut out, "".to_string());
    push_to(&mut out, "   REACHABILITY CHECK   (one unlogged step allowed)".to_string());
    append_to(&mut out, tell_reachability(o));
    assert(out.deep_view() =~= leg_told(title@, story@, p.deep_view(), o.deep_view()));
    out
}

} // verus!
