//! What reports say, line by line.
use crate::campaign::Trial;
use crate::certificate::CertificateView;
use crate::digest::{hex_text, sha256_of, short_text};
use crate::explain::failures_upto;
use crate::lint::{sound, DiagnosticView, Severity};
use crate::load::LoadedSpecView;
use crate::mutate::MutantView;
use crate::net::{failure_text, FailureView};
use crate::observation::{fact_text, FactView, ObservationView};
use crate::permissiveness::PermissivenessView;
use crate::policy::{BotPolicyView, PolicyFindingView, PolicyOutcomeView};
use crate::report::{
    account_told, bindings_told, blocked_told, campaign_told, core_told, denials_told,
    explained_told, facts_told, failures_told, findings_told, leg_told, lint_told, measure_told,
    observed_upto, padded, pair_told, pairs_told, permission_told, prefixed, reachability_told,
    relaxations_upto, result_told, rows_told, shapes_text, step_line, steps_told, trials_told,
    verdict_foot, verdict_line, verdict_told, witness_told,
};
use crate::search::{lemma_push_contains, WitnessStepView};
use crate::text::{decimal, joined, Str};
use crate::verify::{path_text, BlockedStepView, Verdict, VerifyOutcomeView};
use vstd::prelude::*;

verus! {

/// A text is made as wide as asked for by spaces behind it, and never shortened.
pub proof fn padding_adds_spaces_behind(s: Str, width: int)
    ensures
        s.len() >= width ==> padded(s, width) == s,
        s.len() < width ==> padded(s, width).len() == width,
        padded(s, width).take(s.len() as int) == s,
        forall|i: int| s.len() <= i < padded(s, width).len() ==> padded(s, width)[i] == ' ',
        padded(s, width).len() >= s.len(),
    decreases width - s.len(),
{
    if s.len() < width {
        let t = s.push(' ');
        padding_adds_spaces_behind(t, width);
        let p = padded(t, width);
        assert(p.take(t.len() as int) == t);
        assert(p.take(s.len() as int) =~= s) by {
            assert forall|i: int| 0 <= i < s.len() implies p[i] == s[i] by {
                assert(p.take(t.len() as int)[i] == t[i]);
            }
        }
        assert(p[s.len() as int] == ' ') by {
            assert(p.take(t.len() as int)[s.len() as int] == t[s.len() as int]);
        }
    } else {
        assert(s.take(s.len() as int) =~= s);
    }
}

/// Lines are put behind a prefix one by one.
pub proof fn lines_are_prefixed(prefix: Str, items: Seq<Str>, n: int)
    requires
        0 <= n <= items.len(),
    ensures
        prefixed(prefix, items, n).len() == n,
        forall|i: int| 0 <= i < n ==> #[trigger] prefixed(prefix, items, n)[i] == prefix + items[i],
    decreases n,
{
    if n > 0 {
        lines_are_prefixed(prefix, items, n - 1);
    }
}

/// A diagnostic is told by its severity, its code and its message.
pub proof fn diagnostics_are_told_in_order(ds: Seq<DiagnosticView>, n: int)
    requires
        0 <= n <= ds.len(),
    ensures
        findings_told(ds, n).len() == n,
        forall|i: int|
            0 <= i < n ==> #[trigger] findings_told(ds, n)[i] == (if ds[i].severity
                == Severity::Error {
                "ERROR  "@
            } else {
                "WARNING"@
            }) + " "@ + ds[i].code + "  "@ + ds[i].message,
    decreases n,
{
    if n > 0 {
        diagnostics_are_told_in_order(ds, n - 1);
    }
}

/// The report of the checks names the specification and its size, tells each diagnostic, and
/// ends by saying whether there is an error among them.
pub proof fn what_the_report_of_the_checks_says(l: LoadedSpecView)
    ensures
        ({
            let ds = l.report.diagnostics;
            let told = lint_told(l);
            &&& told.len() == ds.len() + 3
            &&& told[0] == "SPEC      "@ + (l.spec.workflow + "@sha256:"@ + short_text(l.hash))
            &&& told[1] == "PLACES    "@ + decimal(l.spec.places.len()) + "   TRANSITIONS  "@
                + decimal(l.spec.transitions.len())
            &&& forall|i: int|
                0 <= i < ds.len() ==> #[trigger] told[i + 2] == (if ds[i].severity
                    == Severity::Error {
                    "ERROR  "@
                } else {
                    "WARNING"@
                }) + " "@ + ds[i].code + "  "@ + ds[i].message
            &&& (forall|i: int| 0 <= i < ds.len() ==> (#[trigger] ds[i]).severity
                != Severity::Error) ==> told.last() == "VERDICT   SOUND"@
            &&& (exists|i: int| 0 <= i < ds.len() && (#[trigger] ds[i]).severity
                == Severity::Error) ==> told.last() == "VERDICT   UNSOUND"@
        }),
{
    let ds = l.report.diagnostics;
    diagnostics_are_told_in_order(ds, ds.len() as int);
    let told = lint_told(l);
    assert forall|i: int| 0 <= i < ds.len() implies #[trigger] told[i + 2] == findings_told(
        ds,
        ds.len() as int,
    )[i] by {}
}

proof fn lemma_hidden(k: Str)
    ensures
        crate::text::has_prefix(k, "_"@) <==> k.len() > 0 && k[0] == '_',
{
    reveal_strlit("_");
    if k.len() > 0 && k[0] == '_' {
        assert(k.take(1) =~= "_"@);
    }
    if crate::text::has_prefix(k, "_"@) {
        assert(k.take(1)[0] == '_');
    }
}

/// The bindings that are told are those whose names do not begin with an underscore.
pub proof fn which_bindings_are_told(m: Seq<(Str, Str)>, n: int, line: Str)
    requires
        0 <= n <= m.len(),
    ensures
        bindings_told(m, n).contains(line) <==> exists|i: int|
            0 <= i < n && !((#[trigger] m[i]).0.len() > 0 && m[i].0[0] == '_') && line == m[i].0
                + "="@ + m[i].1,
    decreases n,
{
    if n > 0 {
        which_bindings_are_told(m, n - 1, line);
        lemma_hidden(m[n - 1].0);
        lemma_push_contains(bindings_told(m, n - 1), m[n - 1].0 + "="@ + m[n - 1].1, line);
    }
}

/// A step of a path is told with its transition, its principal, its record or that it was not
/// observed, and its bindings; the steps are told in order.
pub proof fn steps_of_a_path_are_told_in_order(path: Seq<WitnessStepView>, n: int)
    requires
        0 <= n <= path.len(),
    ensures
        steps_told(path, n).len() == n,
        forall|i: int|
            0 <= i < n ==> #[trigger] steps_told(path, n)[i] == "            "@ + padded(
                path[i].transition,
                26,
            ) + " "@ + padded(path[i].principal, 20) + " ["@ + (match path[i].record {
                Some(r) => r,
                None => "unobserved"@,
            }) + "] "@ + joined(
                bindings_told(path[i].bindings, path[i].bindings.len() as int),
                " "@,
            ),
    decreases n,
{
    if n > 0 {
        steps_of_a_path_are_told_in_order(path, n - 1);
    }
}

/// The observed steps of a path are counted one by one.
pub proof fn observed_steps_are_counted(path: Seq<WitnessStepView>, n: int)
    requires
        0 <= n <= path.len(),
    ensures
        n == 0 ==> observed_upto(path, n) == 0,
        n > 0 && path[n - 1].observed ==> observed_upto(path, n) == observed_upto(path, n - 1) + 1,
        n > 0 && !path[n - 1].observed ==> observed_upto(path, n) == observed_upto(path, n - 1),
        observed_upto(path, n) <= n,
    decreases n,
{
    if n > 0 {
        observed_steps_are_counted(path, n - 1);
    }
}

/// The facts that cannot hold together are told in order, each with its number.
pub proof fn facts_are_told_with_their_numbers(fs: Seq<FactView>, n: int)
    requires
        0 <= n <= fs.len(),
    ensures
        facts_told(fs, n).len() == n,
        forall|i: int|
            0 <= i < n ==> #[trigger] facts_told(fs, n)[i] == "  ["@ + decimal((i + 1) as nat)
                + "] "@ + fact_text(fs[i]),
    decreases n,
{
    if n > 0 {
        facts_are_told_with_their_numbers(fs, n - 1);
    }
}

/// The first line of the report of a run says what came of it, and whether a rejection holds
/// whatever went unlogged.
pub proof fn what_the_first_line_says()
    ensures
        verdict_line(Verdict::Accept, None) == "VERDICT   "@ + "ACCEPT"@ + Seq::<char>::empty(),
        verdict_line(Verdict::Reject, None) == "VERDICT   "@ + "REJECT"@ + Seq::<char>::empty(),
        verdict_line(Verdict::Reject, Some(true)) == "VERDICT   "@ + "REJECT"@
            + "  (robust: holds at maximum slack)"@,
        verdict_line(Verdict::Reject, Some(false)) == "VERDICT   "@ + "REJECT"@
            + "  (explainable by unobserved steps)"@,
{
}

/// The report of a run says what came of it; of a rejected one how much was explained and where
/// it was blocked; of an accepted one its witness; then the facts that cannot hold together,
/// the notes and the failures; and last what it was held against.
pub proof fn what_the_report_of_a_run_says(
    l: LoadedSpecView,
    obs: ObservationView,
    canonical: Seq<u8>,
    o: VerifyOutcomeView,
    robust: Option<bool>,
    c: CertificateView,
)
    ensures
        ({
            let core = c.minimal_unsatisfiable_set;
            verdict_told(l, obs, canonical, o, robust, c) == seq![verdict_line(o.verdict, robust)] + (
            if o.witness is None && o.explained.len() > 0 {
                seq![
                    "EXPLAINED "@ + path_text(o.explained) + "      "@ + decimal(
                        observed_upto(o.explained, o.explained.len() as int),
                    ) + " of "@ + decimal(o.observed_steps as nat) + " observed steps"@,
                ] + steps_told(o.explained, o.explained.len() as int)
            } else {
                Seq::empty()
            }) + (match o.blocked {
                Some(s) => seq![
                    "BLOCKED   "@ + padded(s.step, 26) + " "@ + padded(s.principal, 20) + " ["@
                        + s.record + "]"@,
                ],
                None => Seq::empty(),
            }) + (match o.witness {
                Some(p) => seq!["WITNESS   "@ + path_text(p)] + steps_told(p, p.len() as int),
                None => Seq::empty(),
            }) + (if core.len() == 0 {
                Seq::empty()
            } else {
                seq![
                    "MINIMAL UNSATISFIABLE SET   ("@ + decimal(c.mus_oracle_calls as nat)
                        + " oracle calls"@ + (if c.mus_minimal {
                        Seq::empty()
                    } else {
                        ", not reduced to a local minimum"@
                    }) + ")"@,
                ] + facts_told(core, core.len() as int)
            }) + prefixed("NOTE      "@, c.notes, c.notes.len() as int) + (if o.failures.len()
                == 0 {
                Seq::empty()
            } else {
                seq!["FAILED OBLIGATION"@] + prefixed(
                    "  "@,
                    failures_upto(o.failures, o.failures.len() as int),
                    o.failures.len() as int,
                )
            }) + seq![
                "BOUND     k="@ + decimal(o.bound as nat) + ", slack="@ + decimal(o.slack as nat)
                    + (if o.exhausted {
                    "  (state cap reached)"@
                } else {
                    Seq::empty()
                }),
                "STATES    "@ + decimal(o.states_explored as nat),
                "SPEC      "@ + (l.spec.workflow + "@sha256:"@ + short_text(l.hash)),
                "RUN       "@ + obs.run_id + "  sha256:"@ + short_text(
                    hex_text(sha256_of(canonical)),
                ),
            ]
        }),
{
}

/// A measure is told by its depth and its count, with a plus sign where it was cut short.
pub proof fn measures_are_told_in_order(rows: Seq<PermissivenessView>, n: int)
    requires
        0 <= n <= rows.len(),
    ensures
        rows_told(rows, n).len() == n,
        forall|i: int|
            0 <= i < n ==> #[trigger] rows_told(rows, n)[i] == "  "@ + padded(
                decimal(rows[i].depth as nat),
                7,
            ) + " "@ + (decimal(rows[i].shapes as nat) + (if rows[i].truncated {
                "+"@
            } else {
                Seq::empty()
            })),
    decreases n,
{
    if n > 0 {
        measures_are_told_in_order(rows, n - 1);
    }
}

/// A trial is told by its mutant and what came of it; the mutants that make the run accepted
/// are told by what they relax.
pub proof fn trials_are_told_in_order(
    ms: Seq<MutantView>,
    ts: Seq<Trial>,
    n: int,
    line: Str,
)
    requires
        0 <= n <= ms.len(),
        n <= ts.len(),
    ensures
        trials_told(ms, ts, n).len() == n,
        forall|i: int|
            0 <= i < n ==> #[trigger] trials_told(ms, ts, n)[i] == "  "@ + padded(ms[i].id, 62)
                + " "@ + (match ts[i] {
                Trial::Unsound => "unsound"@,
                Trial::Accept => "ACCEPT"@,
                Trial::Reject => "REJECT"@,
            }),
        relaxations_upto(ms, ts, n).contains(line) <==> exists|i: int|
            0 <= i < n && ts[i] == Trial::Accept && line == "  "@ + (#[trigger] ms[i]).description,
        n > 0 ==> relaxations_upto(ms, ts, n).len() - relaxations_upto(ms, ts, n - 1).len() == (
        if ts[n - 1] == Trial::Accept {
            1int
        } else {
            0
        }),
    decreases n,
{
    if n > 0 {
        trials_are_told_in_order(ms, ts, n - 1, line);
        lemma_push_contains(
            relaxations_upto(ms, ts, n - 1),
            "  "@ + ms[n - 1].description,
            line,
        );
    }
}

/// The report of a campaign says how many single mutations make the run accepted, and which;
/// where none does, how many pairs do, with the first five of them.
pub proof fn what_the_report_of_a_campaign_says(
    ms: Seq<MutantView>,
    ts: Seq<Trial>,
    ps: Seq<(usize, usize)>,
)
    ensures
        ({
            let n = ms.len() as int;
            let hits = relaxations_upto(ms, ts, n);
            let told = result_told(ms, ts, ps);
            &&& told.len() > 0 && told[0] == "RESULT    "@ + decimal(hits.len()) + " of "@
                + decimal(ms.len()) + " single mutations remove the rejection"@
            &&& hits.len() > 0 ==> told.skip(1) == hits
            &&& hits.len() == 0 && ps.len() == 0 ==> told.len() == 2 && told[1]
                == "          no pair of mutations removes it either: the rejection does not rest on any one or two clauses"@
            &&& hits.len() == 0 && ps.len() > 0 ==> told.len() > 3 && told[1]
                == "          the rejection is over-determined: "@ + decimal(ps.len())
                + " pair(s) of clauses must both be relaxed"@ && told[2] == "MINIMAL RELAXATION"@
            &&& hits.len() == 0 && 0 < ps.len() < 5 ==> told.skip(3) == pairs_told(
                ms,
                ps,
                ps.len() as int,
            )
            &&& hits.len() == 0 && ps.len() >= 5 ==> told.skip(3) == pairs_told(ms, ps, 5)
        }),
{
    let n = ms.len() as int;
    let hits = relaxations_upto(ms, ts, n);
    let told = result_told(ms, ts, ps);
    if hits.len() > 0 {
        assert(told.skip(1) =~= hits);
    } else if ps.len() > 0 {
        let k = if ps.len() < 5 {
            ps.len() as int
        } else {
            5
        };
        pairs_are_told_by_both(ms, ps, k);
        assert(told.skip(3) =~= pairs_told(ms, ps, k));
    }
}

/// A pair is told by the two mutants and by what each relaxes.
pub proof fn pairs_are_told_by_both(ms: Seq<MutantView>, ps: Seq<(usize, usize)>, n: int)
    requires
        0 <= n <= ps.len(),
    ensures
        pairs_told(ms, ps, n).len() == 4 * n,
        forall|i: int|
            #![trigger ps[i]]
            0 <= i < n ==> pairs_told(ms, ps, n)[4 * i] == "  "@ + ms[ps[i].0 as int].id
                && pairs_told(ms, ps, n)[4 * i + 1] == "  "@ + ms[ps[i].1 as int].id && pairs_told(
                ms,
                ps,
                n,
            )[4 * i + 2] == "    -> "@ + ms[ps[i].0 as int].description && pairs_told(ms, ps, n)[4
                * i + 3] == "    -> "@ + ms[ps[i].1 as int].description,
    decreases n,
{
    if n > 0 {
        pairs_are_told_by_both(ms, ps, n - 1);
        let rest = pairs_told(ms, ps, n - 1);
        let more = pair_told(ms[ps[n - 1].0 as int], ms[ps[n - 1].1 as int]);
        let all = pairs_told(ms, ps, n);
        assert(all == rest + more);
        assert forall|i: int|
            #![trigger ps[i]]
            0 <= i < n implies all[4 * i] == "  "@ + ms[ps[i].0 as int].id && all[4 * i + 1]
            == "  "@ + ms[ps[i].1 as int].id && all[4 * i + 2] == "    -> "@
            + ms[ps[i].0 as int].description && all[4 * i + 3] == "    -> "@
            + ms[ps[i].1 as int].description by {
            if i < n - 1 {
                assert(all[4 * i] == rest[4 * i]);
                assert(all[4 * i + 1] == rest[4 * i + 1]);
                assert(all[4 * i + 2] == rest[4 * i + 2]);
                assert(all[4 * i + 3] == rest[4 * i + 3]);
            } else {
                assert(all[4 * i] == more[0]);
                assert(all[4 * i + 1] == more[1]);
                assert(all[4 * i + 2] == more[2]);
                assert(all[4 * i + 3] == more[3]);
            }
        }
    }
}

/// A permission check is told by what it looked at, and then that everything is allowed, or each
/// thing that is not.
pub proof fn what_the_report_of_a_permission_check_says(p: PolicyOutcomeView)
    ensures
        ({
            let told = permission_told(p);
            &&& told[0] == "   IDENTITY AND PERMISSION CHECK   "@ + decimal(
                p.checked_identities as nat,
            ) + " identities, "@ + decimal(p.checked_actions as nat) + " actions"@
            &&& p.findings.len() == 0 ==> told.len() == 2 && told[1]
                == "   -> ALLOWED. Every action is one this identity may perform."@
            &&& p.findings.len() > 0 ==> told.len() == p.findings.len() + 2 && told[1]
                == "   -> DENIED"@ && forall|i: int|
                0 <= i < p.findings.len() ==> #[trigger] told[i + 2] == "      "@
                    + p.findings[i].subject + "  "@ + p.findings[i].detail
        }),
{
    let n = p.findings.len() as int;
    lemma_denials(p.findings, n);
    let told = permission_told(p);
    if n > 0 {
        assert forall|i: int| 0 <= i < n implies #[trigger] told[i + 2] == denials_told(
            p.findings,
            n,
        )[i] by {}
    }
}

proof fn lemma_denials(fs: Seq<PolicyFindingView>, n: int)
    requires
        0 <= n <= fs.len(),
    ensures
        denials_told(fs, n).len() == n,
        forall|i: int|
            0 <= i < n ==> #[trigger] denials_told(fs, n)[i] == "      "@ + fs[i].subject + "  "@
                + fs[i].detail,
    decreases n,
{
    if n > 0 {
        lemma_denials(fs, n - 1);
    }
}

/// A verified run is told by its witness where it is accepted; else by how far it was legal,
/// where it was blocked, and its first two failures.
pub proof fn what_is_told_of_a_verified_run(o: VerifyOutcomeView)
    ensures
        ({
            let told = reachability_told(o);
            &&& o.verdict == Verdict::Accept ==> told.len() == 1 && told[0] == "   -> ACCEPT. "@ + (
            match o.witness {
                Some(p) => path_text(p),
                None => Seq::empty(),
            })
            &&& o.verdict == Verdict::Reject ==> told[0] == "   -> REJECT"@ && told == seq![
                "   -> REJECT"@,
            ] + (if o.explained.len() == 0 {
                Seq::empty()
            } else {
                seq!["      legal so far: "@ + path_text(o.explained)]
            }) + (match o.blocked {
                Some(b) => seq!["      blocked at:   "@ + b.step],
                None => Seq::empty(),
            }) + prefixed(
                "      "@,
                failures_upto(o.failures, o.failures.len() as int),
                if o.failures.len() < 2 {
                    o.failures.len() as int
                } else {
                    2
                },
            )
        }),
{
}

/// The report of a measure names the specification and its size, tells each row, and where there
/// is a row what is accepted at the last depth.
pub proof fn what_the_report_of_a_measure_says(l: LoadedSpecView, rows: Seq<PermissivenessView>)
    ensures
        ({
            let told = measure_told(l, rows);
            let n = rows.len() as int;
            &&& told[0] == "SPEC      "@ + (l.spec.workflow + "@sha256:"@ + short_text(l.hash))
            &&& told[1] == "SOURCE    "@ + decimal(l.spec.places.len()) + " places, "@ + decimal(
                l.spec.transitions.len(),
            ) + " transitions"@
            &&& told[2] == "DEPTH     DISTINCT EFFECT-GRAPH SHAPES"@
            &&& told.subrange(3, 3 + n) == rows_told(rows, n)
            &&& n == 0 ==> told.len() == 3
            &&& n > 0 ==> told.len() == n + 5 && told[n + 3] == "ACCEPTS   "@ + (decimal(
                rows.last().shapes as nat,
            ) + (if rows.last().truncated {
                "+"@
            } else {
                Seq::empty()
            })) + " structurally distinct executions at depth "@ + decimal(
                rows.last().depth as nat,
            ) && told[n + 4]
                == "LANGUAGE  infinite: the net contains a cycle, so no depth bounds the accepted set"@
        }),
{
    measures_are_told_in_order(rows, rows.len() as int);
    let n = rows.len() as int;
    assert(measure_told(l, rows).subrange(3, 3 + n) =~= rows_told(rows, n));
}

/// The report of a campaign names the specification and the run, says what came of the run
/// without a mutation, and tells no trial where that was accepted.
pub proof fn how_the_report_of_a_campaign_begins(
    l: LoadedSpecView,
    run_id: Str,
    ms: Seq<MutantView>,
    baseline: Verdict,
    ts: Seq<Trial>,
    ps: Seq<(usize, usize)>,
)
    ensures
        ({
            let told = campaign_told(l, run_id, ms, baseline, ts, ps);
            &&& told[0] == "SPEC      "@ + (l.spec.workflow + "@sha256:"@ + short_text(l.hash))
            &&& told[1] == "RUN       "@ + run_id
            &&& baseline == Verdict::Accept ==> told.len() == 4 && told[2] == "BASELINE  "@
                + "ACCEPT"@ && told[3]
                == "Mutation testing only applies to a rejected run. This one is accepted."@
            &&& baseline == Verdict::Reject ==> told[2] == "BASELINE  "@ + "REJECT"@ && told.skip(4)
                == trials_told(ms, ts, ms.len() as int) + result_told(ms, ts, ps)
        }),
{
    if baseline == Verdict::Reject {
        assert(campaign_told(l, run_id, ms, baseline, ts, ps).skip(4) =~= trials_told(
            ms,
            ts,
            ms.len() as int,
        ) + result_told(ms, ts, ps));
    }
}

/// An account is told by its identity, its credential, what it may do and where.
pub proof fn what_is_told_of_an_account(p: BotPolicyView)
    ensures
        ({
            let told = account_told(p);
            &&& told.len() == 7
            &&& told[1] == "   identity     "@ + p.identity
            &&& told[2] == "   credential   "@ + p.credential.kind + " "@ + p.credential.id
                + "  issued "@ + p.credential.issued
            &&& p.credential.last_rotated matches Some(t) ==> told[3] == "   rotated      "@ + t
            &&& p.credential.last_rotated is None ==> told[3] == "   rotated      "@ + "never"@
            &&& told[4] == "   may perform  "@ + joined(p.allowed_actions, ", "@)
            &&& told[5] == "   may write to "@ + joined(p.allowed_scopes, ", "@)
            &&& told[6] == "   "@ + p.description
        }),
{
}

/// One run of a scenario is told by its title and its story, what the permission check makes of
/// it, and then what verification does.
pub proof fn what_is_told_of_one_run(
    title: Str,
    story: Str,
    p: PolicyOutcomeView,
    o: VerifyOutcomeView,
)
    ensures
        ({
            let told = leg_told(title, story, p, o);
            let n = permission_told(p).len() as int;
            &&& told[1] == "== "@ + title + " =="@
            &&& told[2] == "   "@ + story
            &&& told.subrange(4, 4 + n) == permission_told(p)
            &&& told[5 + n] == "   REACHABILITY CHECK   (one unlogged step allowed)"@
            &&& told.skip(6 + n) == reachability_told(o)
        }),
{
    let told = leg_told(title, story, p, o);
    let n = permission_told(p).len() as int;
    assert(told.subrange(4, 4 + n) =~= permission_told(p));
    assert(told.skip(6 + n) =~= reachability_told(o));
}

} // verus!
