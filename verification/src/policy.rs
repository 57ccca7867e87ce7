//! The permission check: is each action one that the identity may perform? It asks nothing
//! about the run as a whole.

use crate::model::{glob_match, glob_matches, has_char};
use crate::observation::{
    all_effects, EffectInstance, EffectInstanceView, Observation, ObservationView, Record,
    RecordView,
};
use crate::ordered::{append_to, empty_vec, lookup, push_to, vec_contains, Dup};
use crate::text::{cat2, cat3, same_text, Str};
use vstd::prelude::*;

verus! {

/// The credential that an identity acts with.
#[derive(Debug)]
pub struct Credential {
    pub kind: String,
    pub id: String,
    pub issued: String,
    pub last_rotated: Option<String>,
}

/// What a [`Credential`] holds.
pub struct CredentialView {
    pub kind: Str,
    pub id: Str,
    pub issued: Str,
    pub last_rotated: Option<Str>,
}

impl DeepView for Credential {
    type V = CredentialView;

    open spec fn deep_view(&self) -> CredentialView {
        CredentialView {
            kind: self.kind.deep_view(),
            id: self.id.deep_view(),
            issued: self.issued.deep_view(),
            last_rotated: self.last_rotated.deep_view(),
        }
    }
}

impl Dup for Credential {
    fn dup(&self) -> (r: Self) {
        Credential {
            kind: self.kind.dup(),
            id: self.id.dup(),
            issued: self.issued.dup(),
            last_rotated: self.last_rotated.dup(),
        }
    }
}

/// What an identity may do. An empty list permits everything.
#[derive(Debug)]
pub struct BotPolicy {
    pub identity: String,
    pub description: String,
    pub credential: Credential,
    pub allowed_actions: Vec<String>,
    pub allowed_scopes: Vec<String>,
    pub allowed_steps: Vec<String>,
}

/// What a [`BotPolicy`] holds.
pub struct BotPolicyView {
    pub identity: Str,
    pub description: Str,
    pub credential: CredentialView,
    pub allowed_actions: Seq<Str>,
    pub allowed_scopes: Seq<Str>,
    pub allowed_steps: Seq<Str>,
}

impl DeepView for BotPolicy {
    type V = BotPolicyView;

    open spec fn deep_view(&self) -> BotPolicyView {
        BotPolicyView {
            identity: self.identity.deep_view(),
            description: self.description.deep_view(),
            credential: self.credential.deep_view(),
            allowed_actions: self.allowed_actions.deep_view(),
            allowed_scopes: self.allowed_scopes.deep_view(),
            allowed_steps: self.allowed_steps.deep_view(),
        }
    }
}

impl Dup for BotPolicy {
    fn dup(&self) -> (r: Self) {
        BotPolicy {
            identity: self.identity.dup(),
            description: self.description.dup(),
            credential: self.credential.dup(),
            allowed_actions: self.allowed_actions.dup(),
            allowed_scopes: self.allowed_scopes.dup(),
            allowed_steps: self.allowed_steps.dup(),
        }
    }
}

/// What is not permitted, and where it was seen.
#[derive(Debug)]
pub struct PolicyFinding {
    pub subject: String,
    pub detail: String,
}

/// What a [`PolicyFinding`] holds.
pub struct PolicyFindingView {
    pub subject: Str,
    pub detail: Str,
}

impl DeepView for PolicyFinding {
    type V = PolicyFindingView;

    open spec fn deep_view(&self) -> PolicyFindingView {
        PolicyFindingView {
            subject: self.subject.deep_view(),
            detail: self.detail.deep_view(),
        }
    }
}

impl Dup for PolicyFinding {
    fn dup(&self) -> (r: Self) {
        PolicyFinding {
            subject: self.subject.dup(),
            detail: self.detail.dup(),
        }
    }
}

/// What came of a permission check.
#[derive(Debug)]
pub struct PolicyOutcome {
    pub checked_identities: usize,
    pub checked_actions: usize,
    pub findings: Vec<PolicyFinding>,
}

/// What a [`PolicyOutcome`] holds.
pub struct PolicyOutcomeView {
    pub checked_identities: usize,
    pub checked_actions: usize,
    pub findings: Seq<PolicyFindingView>,
}

impl DeepView for PolicyOutcome {
    type V = PolicyOutcomeView;

    open spec fn deep_view(&self) -> PolicyOutcomeView {
        PolicyOutcomeView {
            checked_identities: self.checked_identities,
            checked_actions: self.checked_actions,
            findings: self.findings.deep_view(),
        }
    }
}

impl Dup for PolicyOutcome {
    fn dup(&self) -> (r: Self) {
        PolicyOutcome {
            checked_identities: self.checked_identities,
            checked_actions: self.checked_actions,
            findings: self.findings.dup(),
        }
    }
}

impl Default for Credential {
    fn default() -> (r: Self)
        ensures
            r.deep_view() == (CredentialView {
                kind: Seq::empty(),
                id: Seq::empty(),
                issued: Seq::empty(),
                last_rotated: None,
            }),
    {
        Credential {
            kind: String::new(),
            id: String::new(),
            issued: String::new(),
            last_rotated: None,
        }
    }
}

impl Default for BotPolicy {
    fn default() -> (r: Self)
        ensures
            r.deep_view().identity == Seq::<char>::empty(),
            r.deep_view().description == Seq::<char>::empty(),
            r.deep_view().credential == (CredentialView {
                kind: Seq::empty(),
                id: Seq::empty(),
                issued: Seq::empty(),
                last_rotated: None,
            }),
            r.deep_view().allowed_actions == Seq::<Str>::empty(),
            r.deep_view().allowed_scopes == Seq::<Str>::empty(),
            r.deep_view().allowed_steps == Seq::<Str>::empty(),
    {
        BotPolicy {
            identity: String::new(),
            description: String::new(),
            credential: Credential::default(),
            allowed_actions: empty_vec(),
            allowed_scopes: empty_vec(),
            allowed_steps: empty_vec(),
        }
    }
}

// ---------------------------------------------------------------------------
// What is permitted
// ---------------------------------------------------------------------------
/// The identity that a principal acts under: a name without a domain is one of the runner's.
pub open spec fn identity_in(principal: Str) -> Str {
    if principal.contains('@') {
        principal
    } else {
        principal + "@ci.internal"@
    }
}

/// Whether the identity of a principal matches the policy's pattern. No pattern admits anyone.
pub open spec fn identity_allowed(p: BotPolicyView, principal: Str) -> bool {
    p.identity.len() == 0 || identity_in(principal) == p.identity || glob_matches(
        p.identity,
        identity_in(principal),
    )
}

/// Whether a list permits an item.
pub open spec fn listed(list: Seq<Str>, item: Str) -> bool {
    list.len() == 0 || list.contains(item)
}

/// Whether one of the patterns matches.
pub open spec fn some_match(patterns: Seq<Str>, value: Str) -> bool {
    exists|i: int| 0 <= i < patterns.len() && glob_matches(#[trigger] patterns[i], value)
}

/// Whether the step that a record claims is permitted.
pub open spec fn step_allowed(p: BotPolicyView, step: Option<Str>) -> bool {
    match step {
        Some(s) => listed(p.allowed_steps, s),
        None => true,
    }
}

/// Whether the scope of an effect, where it has one, is permitted.
pub open spec fn scope_allowed(p: BotPolicyView, e: EffectInstanceView) -> bool {
    match lookup(e.args, "scope"@) {
        Some(s) => p.allowed_scopes.len() == 0 || some_match(p.allowed_scopes, s),
        None => true,
    }
}

/// Whether an effect is permitted.
pub open spec fn effect_allowed(p: BotPolicyView, e: EffectInstanceView) -> bool {
    listed(p.allowed_actions, e.kind) && scope_allowed(p, e)
}

// ---------------------------------------------------------------------------
// What is found
// ---------------------------------------------------------------------------
/// What is found of the identity behind a record.
pub open spec fn identity_finding(r: RecordView) -> PolicyFindingView {
    PolicyFindingView {
        subject: r.id,
        detail: "`"@ + identity_in(r.principal) + "` is not the authorised identity"@,
    }
}

/// What is found of the step that a record claims.
pub open spec fn step_findings(p: BotPolicyView, r: RecordView) -> Seq<PolicyFindingView> {
    match r.step {
        Some(s) => if listed(p.allowed_steps, s) {
            Seq::empty()
        } else {
            seq![
                PolicyFindingView {
                    subject: r.id,
                    detail: "step `"@ + s + "` is not permitted for this identity"@,
                },
            ]
        },
        None => Seq::empty(),
    }
}

/// What is found of an effect: its action first, and its scope only where the action is
/// permitted.
pub open spec fn effect_findings(p: BotPolicyView, e: EffectInstanceView) -> Seq<
    PolicyFindingView,
> {
    if !listed(p.allowed_actions, e.kind) {
        seq![
            PolicyFindingView {
                subject: e.id,
                detail: "action `"@ + e.kind + "` is not permitted"@,
            },
        ]
    } else if !scope_allowed(p, e) {
        seq![
            PolicyFindingView {
                subject: e.id,
                detail: "scope `"@ + lookup(e.args, "scope"@)->0
                    + "` is outside the permitted scopes"@,
            },
        ]
    } else {
        Seq::empty()
    }
}

/// What is found of the first `n` effects.
pub open spec fn effects_findings(
    p: BotPolicyView,
    es: Seq<EffectInstanceView>,
    n: int,
) -> Seq<PolicyFindingView>
    decreases n,
{
    if n <= 0 {
        Seq::empty()
    } else {
        effects_findings(p, es, n - 1) + effect_findings(p, es[n - 1])
    }
}

/// What is found of a record. `known` says whether its identity is the authorised one.
pub open spec fn record_findings(p: BotPolicyView, r: RecordView, known: bool) -> Seq<
    PolicyFindingView,
> {
    let who = if known {
        Seq::empty()
    } else {
        seq![identity_finding(r)]
    };
    who + step_findings(p, r) + effects_findings(p, r.effects, r.effects.len() as int)
}

/// What is found of the first `n` records.
pub open spec fn findings_upto(
    p: BotPolicyView,
    rs: Seq<RecordView>,
    n: int,
) -> Seq<PolicyFindingView>
    decreases n,
{
    if n <= 0 {
        Seq::empty()
    } else {
        findings_upto(p, rs, n - 1) + record_findings(
            p,
            rs[n - 1],
            identity_allowed(p, rs[n - 1].principal),
        )
    }
}

/// What is found of the first `n` records where the policy names one identity exactly.
pub open spec fn exact_findings_upto(
    p: BotPolicyView,
    rs: Seq<RecordView>,
    n: int,
) -> Seq<PolicyFindingView>
    decreases n,
{
    if n <= 0 {
        Seq::empty()
    } else {
        exact_findings_upto(p, rs, n - 1) + record_findings(
            p,
            rs[n - 1],
            identity_in(rs[n - 1].principal) == p.identity,
        )
    }
}

/// What a permission check makes of an observation.
pub open spec fn judged(p: BotPolicyView, obs: ObservationView) -> PolicyOutcomeView {
    PolicyOutcomeView {
        checked_identities: obs.records.len() as usize,
        checked_actions: all_effects(obs.records).len() as usize,
        findings: findings_upto(p, obs.records, obs.records.len() as int),
    }
}

/// What a permission check makes of an observation where the policy names one identity
/// exactly.
pub open spec fn judged_exactly(p: BotPolicyView, obs: ObservationView) -> PolicyOutcomeView {
    PolicyOutcomeView {
        checked_identities: obs.records.len() as usize,
        checked_actions: all_effects(obs.records).len() as usize,
        findings: exact_findings_upto(p, obs.records, obs.records.len() as int),
    }
}

/// The details of the first `n` findings.
pub open spec fn details_upto(fs: Seq<PolicyFindingView>, n: int) -> Seq<Str>
    decreases n,
{
    if n <= 0 {
        Seq::empty()
    } else {
        details_upto(fs, n - 1).push(fs[n - 1].detail)
    }
}

impl PolicyOutcome {
    /// Whether nothing was found.
    pub fn allowed(&self) -> (r: bool)
        ensures
            r == (self.deep_view().findings.len() == 0),
    {
        assert(self.findings.len() == self.deep_view().findings.len());
        self.findings.len() == 0
    }

    /// What was found, in order.
    pub fn messages(&self) -> (r: Vec<String>)
        ensures
            r.deep_view() == details_upto(
                self.deep_view().findings,
                self.deep_view().findings.len() as int,
            ),
    {
        let ghost fs = self.findings.deep_view();
        let mut out: Vec<String> = empty_vec();
        let mut i: usize = 0;
        while i < self.findings.len()
            invariant
                i <= self.findings.len(),
                fs == self.findings.deep_view(),
                out.deep_view() == details_upto(fs, i as int),
            decreases self.findings.len() - i,
        {
            assert(fs[i as int] == self.findings[i as int].deep_view());
            push_to(&mut out, self.findings[i].detail.dup());
            i = i + 1;
        }
        out
    }
}

// ---------------------------------------------------------------------------
// The check
// ---------------------------------------------------------------------------
fn identity_of(principal: &str) -> (r: String)
    ensures
        r@ == identity_in(principal@),
{
    if has_char(principal, '@') {
        principal.to_string()
    } else {
        cat2(principal, "@ci.internal")
    }
}

fn in_list(list: &Vec<String>, item: &str) -> (r: bool)
    ensures
        r == listed(list.deep_view(), item@),
{
    assert(list.len() == list.deep_view().len());
    list.len() == 0 || vec_contains(list, item)
}

fn matches_some(patterns: &Vec<String>, value: &str) -> (r: bool)
    ensures
        r == some_match(patterns.deep_view(), value@),
{
    let ghost ps = patterns.deep_view();
    let mut i: usize = 0;
    while i < patterns.len()
        invariant
            i <= patterns.len(),
            ps == patterns.deep_view(),
            forall|j: int| 0 <= j < i ==> !glob_matches(#[trigger] ps[j], value@),
        decreases patterns.len() - i,
    {
        assert(ps[i as int] == patterns[i as int]@);
        if glob_match(patterns[i].as_str(), value) {
            return true;
        }
        i = i + 1;
    }
    false
}

fn find_in_effects(p: &BotPolicy, es: &Vec<EffectInstance>) -> (r: Vec<PolicyFinding>)
    ensures
        r.deep_view() == effects_findings(p.deep_view(), es.deep_view(), es.deep_view().len() as int),
{
    let ghost pv = p.deep_view();
    let ghost ev = es.deep_view();
    let mut out: Vec<PolicyFinding> = empty_vec();
    assert(p.allowed_scopes.len() == pv.allowed_scopes.len());
    let mut i: usize = 0;
    while i < es.len()
        invariant
            i <= es.len(),
            pv == p.deep_view(),
            ev == es.deep_view(),
            p.allowed_scopes.len() == pv.allowed_scopes.len(),
            out.deep_view() == effects_findings(pv, ev, i as int),
        decreases es.len() - i,
    {
        let e = &es[i];
        assert(ev[i as int] == e.deep_view());
        let ghost so_far = out.deep_view();
        if !in_list(&p.allowed_actions, e.kind.as_str()) {
            push_to(
                &mut out,
                PolicyFinding {
                    subject: e.id.dup(),
                    detail: cat3("action `", e.kind.as_str(), "` is not permitted"),
                },
            );
        } else {
            match e.args.get("scope") {
                Some(scope) => {
                    if p.allowed_scopes.len() != 0 && !matches_some(
                        &p.allowed_scopes,
                        scope.as_str(),
                    ) {
                        push_to(
                            &mut out,
                            PolicyFinding {
                                subject: e.id.dup(),
                                detail: cat3(
                                    "scope `",
                                    scope.as_str(),
                                    "` is outside the permitted scopes",
                                ),
                            },
                        );
                    }
                },
                None => {},
            }
        }
        assert(out.deep_view() =~= so_far + effect_findings(pv, ev[i as int]));
        i = i + 1;
    }
    assert(es.len() == ev.len());
    out
}

fn find_in_record(p: &BotPolicy, r: &Record, known: bool) -> (out: Vec<PolicyFinding>)
    ensures
        out.deep_view() == record_findings(p.deep_view(), r.deep_view(), known),
{
    let ghost pv = p.deep_view();
    let ghost rv = r.deep_view();
    let mut out: Vec<PolicyFinding> = empty_vec();
    if !known {
        let who = identity_of(r.principal.as_str());
        push_to(
            &mut out,
            PolicyFinding {
                subject: r.id.dup(),
                detail: cat3("`", who.as_str(), "` is not the authorised identity"),
            },
        );
    }
    let ghost so_far = out.deep_view();
    match &r.step {
        Some(step) => {
            if !in_list(&p.allowed_steps, step.as_str()) {
                push_to(
                    &mut out,
                    PolicyFinding {
                        subject: r.id.dup(),
                        detail: cat3(
                            "step `",
                            step.as_str(),
                            "` is not permitted for this identity",
                        ),
                    },
                );
            }
        },
        None => {},
    }
    assert(out.deep_view() =~= so_far + step_findings(pv, rv));
    append_to(&mut out, find_in_effects(p, &r.effects));
    assert(out.deep_view() =~= record_findings(pv, rv, known));
    out
}

/// Checks each action of an observation against what the identity may do.
pub fn evaluate(policy: &BotPolicy, obs: &Observation) -> (r: PolicyOutcome)
    ensures
        r.deep_view() == judged(policy.deep_view(), obs.deep_view()),
{
    let ghost pv = policy.deep_view();
    let ghost rs = obs.deep_view().records;
    let checked_actions: usize = obs.effects().len();
    let mut findings: Vec<PolicyFinding> = empty_vec();
    let mut i: usize = 0;
    while i < obs.records.len()
        invariant
            i <= obs.records.len(),
            pv == policy.deep_view(),
            rs == obs.deep_view().records,
            findings.deep_view() == findings_upto(pv, rs, i as int),
        decreases obs.records.len() - i,
    {
        let r = &obs.records[i];
        assert(rs[i as int] == r.deep_view());
        let who = identity_of(r.principal.as_str());
        let known = same_text(policy.identity.as_str(), "") || same_text(
            who.as_str(),
            policy.identity.as_str(),
        ) || glob_match(policy.identity.as_str(), who.as_str());
        proof {
            reveal_strlit("");
            assert(pv.identity.len() == 0 <==> pv.identity =~= ""@);
        }
        append_to(&mut findings, find_in_record(policy, r, known));
        i = i + 1;
    }
    assert(obs.records.len() == rs.len());
    PolicyOutcome { checked_identities: obs.records.len(), checked_actions, findings }
}

/// Checks each action of an observation against what the identity may do, where the policy
/// names one identity and no pattern.
pub fn evaluate_exactly(policy: &BotPolicy, obs: &Observation) -> (r: PolicyOutcome)
    ensures
        r.deep_view() == judged_exactly(policy.deep_view(), obs.deep_view()),
{
    let ghost pv = policy.deep_view();
    let ghost rs = obs.deep_view().records;
    let checked_actions: usize = obs.effects().len();
    let mut findings: Vec<PolicyFinding> = empty_vec();
    let mut i: usize = 0;
    while i < obs.records.len()
        invariant
            i <= obs.records.len(),
            pv == policy.deep_view(),
            rs == obs.deep_view().records,
            findings.deep_view() == exact_findings_upto(pv, rs, i as int),
        decreases obs.records.len() - i,
    {
        let r = &obs.records[i];
        assert(rs[i as int] == r.deep_view());
        let who = identity_of(r.principal.as_str());
        let known = same_text(who.as_str(), policy.identity.as_str());
        append_to(&mut findings, find_in_record(policy, r, known));
        i = i + 1;
    }
    assert(obs.records.len() == rs.len());
    PolicyOutcome { checked_identities: obs.records.len(), checked_actions, findings }
}

// ---------------------------------------------------------------------------
// The check of the service
// ---------------------------------------------------------------------------
/// What the service tells of an effect.
pub open spec fn effect_notes(p: BotPolicyView, e: EffectInstanceView) -> Seq<Str> {
    if !listed(p.allowed_actions, e.kind) {
        seq!["action "@ + e.kind + " is not permitted"@]
    } else if !scope_allowed(p, e) {
        seq!["scope "@ + lookup(e.args, "scope"@)->0 + " is outside the permitted scopes"@]
    } else {
        Seq::empty()
    }
}

/// What the service tells of the first `n` effects.
pub open spec fn effects_notes(p: BotPolicyView, es: Seq<EffectInstanceView>, n: int) -> Seq<Str>
    decreases n,
{
    if n <= 0 {
        Seq::empty()
    } else {
        effects_notes(p, es, n - 1) + effect_notes(p, es[n - 1])
    }
}

/// What the service tells of a record: it does not look at steps.
pub open spec fn record_notes(p: BotPolicyView, r: RecordView) -> Seq<Str> {
    let who = if identity_allowed(p, r.principal) {
        Seq::empty()
    } else {
        seq![identity_in(r.principal) + " is not the authorised identity"@]
    };
    who + effects_notes(p, r.effects, r.effects.len() as int)
}

/// What the service tells of the first `n` records.
pub open spec fn notes_upto(p: BotPolicyView, rs: Seq<RecordView>, n: int) -> Seq<Str>
    decreases n,
{
    if n <= 0 {
        Seq::empty()
    } else {
        notes_upto(p, rs, n - 1) + record_notes(p, rs[n - 1])
    }
}

fn note_effects(p: &BotPolicy, es: &Vec<EffectInstance>) -> (r: Vec<String>)
    ensures
        r.deep_view() == effects_notes(p.deep_view(), es.deep_view(), es.deep_view().len() as int),
{
    let ghost pv = p.deep_view();
    let ghost ev = es.deep_view();
    let mut out: Vec<String> = empty_vec();
    assert(p.allowed_scopes.len() == pv.allowed_scopes.len());
    let mut i: usize = 0;
    while i < es.len()
        invariant
            i <= es.len(),
            pv == p.deep_view(),
            ev == es.deep_view(),
            p.allowed_scopes.len() == pv.allowed_scopes.len(),
            out.deep_view() == effects_notes(pv, ev, i as int),
        decreases es.len() - i,
    {
        let e = &es[i];
        assert(ev[i as int] == e.deep_view());
        let ghost so_far = out.deep_view();
        if !in_list(&p.allowed_actions, e.kind.as_str()) {
            push_to(&mut out, cat3("action ", e.kind.as_str(), " is not permitted"));
        } else {
            match e.args.get("scope") {
                Some(scope) => {
                    if p.allowed_scopes.len() != 0 && !matches_some(
                        &p.allowed_scopes,
                        scope.as_str(),
                    ) {
                        push_to(
                            &mut out,
                            cat3("scope ", scope.as_str(), " is outside the permitted scopes"),
                        );
                    }
                },
                None => {},
            }
        }
        assert(out.deep_view() =~= so_far + effect_notes(pv, ev[i as int]));
        i = i + 1;
    }
    assert(es.len() == ev.len());
    out
}

/// The permission check that the service shows beside each verdict. It says whether the run is
/// permitted, and what is not.
pub fn permission(policy: &BotPolicy, obs: &Observation) -> (r: (bool, Vec<String>))
    ensures
        r.1.deep_view() == notes_upto(
            policy.deep_view(),
            obs.deep_view().records,
            obs.deep_view().records.len() as int,
        ),
        r.0 == (r.1.deep_view().len() == 0),
{
    let ghost pv = policy.deep_view();
    let ghost rs = obs.deep_view().records;
    let mut out: Vec<String> = empty_vec();
    let mut i: usize = 0;
    while i < obs.records.len()
        invariant
            i <= obs.records.len(),
            pv == policy.deep_view(),
            rs == obs.deep_view().records,
            out.deep_view() == notes_upto(pv, rs, i as int),
        decreases obs.records.len() - i,
    {
        let r = &obs.records[i];
        assert(rs[i as int] == r.deep_view());
        let ghost so_far = out.deep_view();
        let who = identity_of(r.principal.as_str());
        proof {
            reveal_strlit("");
            assert(pv.identity.len() == 0 <==> pv.identity =~= ""@);
        }
        if !same_text(policy.identity.as_str(), "") && !same_text(
            who.as_str(),
            policy.identity.as_str(),
        ) && !glob_match(policy.identity.as_str(), who.as_str()) {
            push_to(&mut out, cat2(who.as_str(), " is not the authorised identity"));
        }
        append_to(&mut out, note_effects(policy, &r.effects));
        assert(out.deep_view() =~= so_far + record_notes(pv, rs[i as int]));
        i = i + 1;
    }
    assert(obs.records.len() == rs.len());
    assert(out.len() == out.deep_view().len());
    (out.len() == 0, out)
}

// ---------------------------------------------------------------------------
// Laws
// ---------------------------------------------------------------------------
/// Whether every part of a record is permitted.
pub open spec fn record_allowed(p: BotPolicyView, r: RecordView) -> bool {
    &&& identity_allowed(p, r.principal)
    &&& step_allowed(p, r.step)
    &&& forall|i: int| 0 <= i < r.effects.len() ==> effect_allowed(p, #[trigger] r.effects[i])
}

proof fn lemma_effects_findings(p: BotPolicyView, es: Seq<EffectInstanceView>, n: int)
    requires
        0 <= n <= es.len(),
    ensures
        effects_findings(p, es, n).len() == 0 <==> forall|i: int|
            0 <= i < n ==> effect_allowed(p, #[trigger] es[i]),
    decreases n,
{
    if n > 0 {
        lemma_effects_findings(p, es, n - 1);
        assert(effect_findings(p, es[n - 1]).len() == 0 <==> effect_allowed(p, es[n - 1]));
    }
}

proof fn lemma_findings(p: BotPolicyView, rs: Seq<RecordView>, n: int)
    requires
        0 <= n <= rs.len(),
    ensures
        findings_upto(p, rs, n).len() == 0 <==> forall|i: int|
            0 <= i < n ==> record_allowed(p, #[trigger] rs[i]),
    decreases n,
{
    if n > 0 {
        lemma_findings(p, rs, n - 1);
        let r = rs[n - 1];
        lemma_effects_findings(p, r.effects, r.effects.len() as int);
        assert(record_findings(p, r, identity_allowed(p, r.principal)).len() == 0
            <==> record_allowed(p, r));
    }
}

/// A run is permitted exactly where every record of it is: its identity, the step that it
/// claims, and the action and the scope of each of its effects.
pub proof fn a_run_is_allowed_where_every_record_is(p: BotPolicyView, obs: ObservationView)
    ensures
        judged(p, obs).findings.len() == 0 <==> forall|i: int|
            0 <= i < obs.records.len() ==> record_allowed(p, #[trigger] obs.records[i]),
{
    lemma_findings(p, obs.records, obs.records.len() as int);
}

/// The check does not look at the order of records, at what they claim to be related to, or at
/// when they were made: two observations with the same records in any order are permitted
/// alike.
pub proof fn the_order_of_records_is_not_looked_at(
    p: BotPolicyView,
    a: ObservationView,
    b: ObservationView,
)
    requires
        forall|r: RecordView| #[trigger] a.records.contains(r) <==> b.records.contains(r),
    ensures
        judged(p, a).findings.len() == 0 <==> judged(p, b).findings.len() == 0,
{
    a_run_is_allowed_where_every_record_is(p, a);
    a_run_is_allowed_where_every_record_is(p, b);
    assert forall|i: int|
        (forall|j: int| 0 <= j < b.records.len() ==> record_allowed(p, #[trigger] b.records[j]))
            && 0 <= i < a.records.len() implies record_allowed(p, #[trigger] a.records[i]) by {
        assert(a.records.contains(a.records[i]));
        let j = b.records.index_of(a.records[i]);
        assert(record_allowed(p, b.records[j]));
    }
    assert forall|i: int|
        (forall|j: int| 0 <= j < a.records.len() ==> record_allowed(p, #[trigger] a.records[j]))
            && 0 <= i < b.records.len() implies record_allowed(p, #[trigger] b.records[i]) by {
        assert(b.records.contains(b.records[i]));
        assert(a.records.contains(b.records[i]));
        let j = a.records.index_of(b.records[i]);
        assert(record_allowed(p, a.records[j]));
    }
}

/// A policy for the identity `*`, or for none, admits every principal.
pub proof fn a_wildcard_identity_admits_anyone(p: BotPolicyView, principal: Str)
    requires
        p.identity.len() == 0 || p.identity == "*"@,
    ensures
        identity_allowed(p, principal),
{
    if p.identity.len() != 0 {
        reveal_strlit("*");
        let v = identity_in(principal);
        assert(p.identity[0] == '*');
        assert(p.identity.drop_first() =~= Seq::<char>::empty());
        assert(glob_matches(p.identity.drop_first(), v.skip(v.len() as int)));
    }
}

} // verus!
