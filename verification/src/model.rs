//! The workflow specification: principals, places, transitions, effect templates and the
//! relations between effects, with the patterns that its fields are written in.

use crate::index::Table;
use crate::ordered::{append_to, empty_vec, lookup, push_to, sorted_set, values_of, Dup, StrSet};
use crate::text::{chars_of, same_text, strip_prefix_text, Str};
use vstd::prelude::*;

verus! {

/// What kind of identity a principal is.
#[derive(Debug, Clone, Copy, PartialEq, Eq, Structural)]
pub enum PrincipalClass {
    ServiceAccount,
    Human,
    Workload,
}

impl DeepView for PrincipalClass {
    type V = PrincipalClass;

    open spec fn deep_view(&self) -> PrincipalClass {
        *self
    }
}

impl Dup for PrincipalClass {
    fn dup(&self) -> (r: Self) {
        *self
    }
}

/// How a transition comes by the value of a variable that it binds: minted on firing, or
/// vouched for by a presented certificate.
#[derive(Debug, Clone, Copy, PartialEq, Eq, Structural)]
pub enum BindMode {
    Fresh,
    Attested,
}

impl DeepView for BindMode {
    type V = BindMode;

    open spec fn deep_view(&self) -> BindMode {
        *self
    }
}

impl Dup for BindMode {
    fn dup(&self) -> (r: Self) {
        *self
    }
}

/// An identity class and the pattern that its members match.
#[derive(Debug)]
pub struct Principal {
    pub class: PrincipalClass,
    pub id_pattern: String,
}

/// What a [`Principal`] holds.
pub struct PrincipalView {
    pub class: PrincipalClass,
    pub id_pattern: Str,
}

impl DeepView for Principal {
    type V = PrincipalView;

    open spec fn deep_view(&self) -> PrincipalView {
        PrincipalView {
            class: self.class,
            id_pattern: self.id_pattern.deep_view(),
        }
    }
}

impl Dup for Principal {
    fn dup(&self) -> (r: Self) {
        Principal {
            class: self.class,
            id_pattern: self.id_pattern.dup(),
        }
    }
}

/// A token of the initial marking.
#[derive(Debug)]
pub struct TokenSpec {
    pub ty: String,
    pub value: String,
}

/// What a [`TokenSpec`] holds.
pub struct TokenSpecView {
    pub ty: Str,
    pub value: Str,
}

impl DeepView for TokenSpec {
    type V = TokenSpecView;

    open spec fn deep_view(&self) -> TokenSpecView {
        TokenSpecView {
            ty: self.ty.deep_view(),
            value: self.value.deep_view(),
        }
    }
}

impl Dup for TokenSpec {
    fn dup(&self) -> (r: Self) {
        TokenSpec {
            ty: self.ty.dup(),
            value: self.value.dup(),
        }
    }
}

/// A place, its initial tokens and the variables that its tokens carry.
#[derive(Debug)]
pub struct Place {
    pub id: String,
    pub tokens: Vec<TokenSpec>,
    pub carries: Vec<String>,
}

/// What a [`Place`] holds.
pub struct PlaceView {
    pub id: Str,
    pub tokens: Seq<TokenSpecView>,
    pub carries: Seq<Str>,
}

impl DeepView for Place {
    type V = PlaceView;

    open spec fn deep_view(&self) -> PlaceView {
        PlaceView {
            id: self.id.deep_view(),
            tokens: self.tokens.deep_view(),
            carries: self.carries.deep_view(),
        }
    }
}

impl Dup for Place {
    fn dup(&self) -> (r: Self) {
        Place {
            id: self.id.dup(),
            tokens: self.tokens.dup(),
            carries: self.carries.dup(),
        }
    }
}

/// A relation that an emitted effect must stand in to an earlier effect.
#[derive(Debug)]
pub struct RelationObligation {
    pub ty: String,
    pub target: String,
    pub bind: Table<String>,
}

/// What a [`RelationObligation`] holds.
pub struct RelationObligationView {
    pub ty: Str,
    pub target: Str,
    pub bind: Seq<(Str, Str)>,
}

impl DeepView for RelationObligation {
    type V = RelationObligationView;

    open spec fn deep_view(&self) -> RelationObligationView {
        RelationObligationView {
            ty: self.ty.deep_view(),
            target: self.target.deep_view(),
            bind: self.bind.deep_view(),
        }
    }
}

impl Dup for RelationObligation {
    fn dup(&self) -> (r: Self) {
        RelationObligation {
            ty: self.ty.dup(),
            target: self.target.dup(),
            bind: self.bind.dup(),
        }
    }
}

/// An effect that a transition emits: its kind, the pattern of each argument, and the
/// relations that it must stand in.
#[derive(Debug)]
pub struct EffectTemplate {
    pub effect: String,
    pub requires_relation: Vec<RelationObligation>,
    pub args: Table<String>,
}

/// What a [`EffectTemplate`] holds.
pub struct EffectTemplateView {
    pub effect: Str,
    pub requires_relation: Seq<RelationObligationView>,
    pub args: Seq<(Str, Str)>,
}

impl DeepView for EffectTemplate {
    type V = EffectTemplateView;

    open spec fn deep_view(&self) -> EffectTemplateView {
        EffectTemplateView {
            effect: self.effect.deep_view(),
            requires_relation: self.requires_relation.deep_view(),
            args: self.args.deep_view(),
        }
    }
}

impl Dup for EffectTemplate {
    fn dup(&self) -> (r: Self) {
        EffectTemplate {
            effect: self.effect.dup(),
            requires_relation: self.requires_relation.dup(),
            args: self.args.dup(),
        }
    }
}

/// A transition of the workflow.
#[derive(Debug)]
pub struct Transition {
    pub id: String,
    pub principal: String,
    pub consumes: Vec<String>,
    pub produces: Vec<String>,
    pub binds: Table<BindMode>,
    pub guard: Option<String>,
    pub emits: Vec<EffectTemplate>,
}

/// What a [`Transition`] holds.
pub struct TransitionView {
    pub id: Str,
    pub principal: Str,
    pub consumes: Seq<Str>,
    pub produces: Seq<Str>,
    pub binds: Seq<(Str, BindMode)>,
    pub guard: Option<Str>,
    pub emits: Seq<EffectTemplateView>,
}

impl DeepView for Transition {
    type V = TransitionView;

    open spec fn deep_view(&self) -> TransitionView {
        TransitionView {
            id: self.id.deep_view(),
            principal: self.principal.deep_view(),
            consumes: self.consumes.deep_view(),
            produces: self.produces.deep_view(),
            binds: self.binds.deep_view(),
            guard: self.guard.deep_view(),
            emits: self.emits.deep_view(),
        }
    }
}

impl Dup for Transition {
    fn dup(&self) -> (r: Self) {
        Transition {
            id: self.id.dup(),
            principal: self.principal.dup(),
            consumes: self.consumes.dup(),
            produces: self.produces.dup(),
            binds: self.binds.dup(),
            guard: self.guard.dup(),
            emits: self.emits.dup(),
        }
    }
}

/// The effect kinds that a relation joins, and the constraint between them.
#[derive(Debug)]
pub struct RelationSchema {
    pub from: String,
    pub to: String,
    pub constraint: String,
}

/// What a [`RelationSchema`] holds.
pub struct RelationSchemaView {
    pub from: Str,
    pub to: Str,
    pub constraint: Str,
}

impl DeepView for RelationSchema {
    type V = RelationSchemaView;

    open spec fn deep_view(&self) -> RelationSchemaView {
        RelationSchemaView {
            from: self.from.deep_view(),
            to: self.to.deep_view(),
            constraint: self.constraint.deep_view(),
        }
    }
}

impl Dup for RelationSchema {
    fn dup(&self) -> (r: Self) {
        RelationSchema {
            from: self.from.dup(),
            to: self.to.dup(),
            constraint: self.constraint.dup(),
        }
    }
}

/// A property that the specification declares of every execution.
#[derive(Debug)]
pub enum InvariantKind {
    EffectHasProducingTransition { effect: String, scope: String },
    TokenConsumedNotCopied { place: String },
}

/// What a [`InvariantKind`] holds.
pub enum InvariantKindView {
    EffectHasProducingTransition { effect: Str, scope: Str },
    TokenConsumedNotCopied { place: Str },
}

impl DeepView for InvariantKind {
    type V = InvariantKindView;

    open spec fn deep_view(&self) -> InvariantKindView {
        match self {
            InvariantKind::EffectHasProducingTransition { effect, scope } => InvariantKindView::EffectHasProducingTransition {
                effect: effect.deep_view(),
                scope: scope.deep_view(),
            },
            InvariantKind::TokenConsumedNotCopied { place } => InvariantKindView::TokenConsumedNotCopied {
                place: place.deep_view(),
            },
        }
    }
}

impl Dup for InvariantKind {
    fn dup(&self) -> (r: Self) {
        match self {
            InvariantKind::EffectHasProducingTransition { effect, scope } => InvariantKind::EffectHasProducingTransition {
                effect: effect.dup(),
                scope: scope.dup(),
            },
            InvariantKind::TokenConsumedNotCopied { place } => InvariantKind::TokenConsumedNotCopied {
                place: place.dup(),
            },
        }
    }
}

/// A named property.
#[derive(Debug)]
pub struct Invariant {
    pub id: String,
    pub kind: InvariantKind,
}

/// What a [`Invariant`] holds.
pub struct InvariantView {
    pub id: Str,
    pub kind: InvariantKindView,
}

impl DeepView for Invariant {
    type V = InvariantView;

    open spec fn deep_view(&self) -> InvariantView {
        InvariantView {
            id: self.id.deep_view(),
            kind: self.kind.deep_view(),
        }
    }
}

impl Dup for Invariant {
    fn dup(&self) -> (r: Self) {
        Invariant {
            id: self.id.dup(),
            kind: self.kind.dup(),
        }
    }
}

/// A workflow specification.
#[derive(Debug)]
pub struct Spec {
    pub spec_version: u32,
    pub workflow: String,
    pub principals: Table<Principal>,
    pub places: Vec<Place>,
    pub final_places: Vec<String>,
    pub transitions: Vec<Transition>,
    pub relations: Table<RelationSchema>,
    pub invariants: Vec<Invariant>,
}

/// What a [`Spec`] holds.
pub struct SpecView {
    pub spec_version: u32,
    pub workflow: Str,
    pub principals: Seq<(Str, PrincipalView)>,
    pub places: Seq<PlaceView>,
    pub final_places: Seq<Str>,
    pub transitions: Seq<TransitionView>,
    pub relations: Seq<(Str, RelationSchemaView)>,
    pub invariants: Seq<InvariantView>,
}

impl DeepView for Spec {
    type V = SpecView;

    open spec fn deep_view(&self) -> SpecView {
        SpecView {
            spec_version: self.spec_version,
            workflow: self.workflow.deep_view(),
            principals: self.principals.deep_view(),
            places: self.places.deep_view(),
            final_places: self.final_places.deep_view(),
            transitions: self.transitions.deep_view(),
            relations: self.relations.deep_view(),
            invariants: self.invariants.deep_view(),
        }
    }
}

impl Dup for Spec {
    fn dup(&self) -> (r: Self) {
        Spec {
            spec_version: self.spec_version,
            workflow: self.workflow.dup(),
            principals: self.principals.dup(),
            places: self.places.dup(),
            final_places: self.final_places.dup(),
            transitions: self.transitions.dup(),
            relations: self.relations.dup(),
            invariants: self.invariants.dup(),
        }
    }
}

/// How a template argument constrains a value: by a variable, a glob, or a literal.
#[derive(Debug)]
pub enum Pattern {
    Var(String),
    Glob(String),
    Lit(String),
}

/// What a [`Pattern`] holds.
pub enum PatternView {
    Var(Str),
    Glob(Str),
    Lit(Str),
}

impl DeepView for Pattern {
    type V = PatternView;

    open spec fn deep_view(&self) -> PatternView {
        match self {
            Pattern::Var(a0) => PatternView::Var(a0.deep_view()),
            Pattern::Glob(a0) => PatternView::Glob(a0.deep_view()),
            Pattern::Lit(a0) => PatternView::Lit(a0.deep_view()),
        }
    }
}

impl Dup for Pattern {
    fn dup(&self) -> (r: Self) {
        match self {
            Pattern::Var(a0) => Pattern::Var(a0.dup()),
            Pattern::Glob(a0) => Pattern::Glob(a0.dup()),
            Pattern::Lit(a0) => Pattern::Lit(a0.dup()),
        }
    }
}

// ---------------------------------------------------------------------------
// Patterns
// ---------------------------------------------------------------------------
/// `$name` is a variable; anything else with a `*` in it is a glob; the rest is literal.
pub open spec fn classified(raw: Str) -> PatternView {
    if raw.len() > 0 && raw[0] == '$' {
        PatternView::Var(raw.skip(1))
    } else if raw.contains('*') {
        PatternView::Glob(raw)
    } else {
        PatternView::Lit(raw)
    }
}

/// Whether the character `c` occurs in `s`.
pub fn has_char(s: &str, c: char) -> (r: bool)
    ensures
        r == s@.contains(c),
{
    let v = chars_of(s);
    let mut i: usize = 0;
    while i < v.len()
        invariant
            i <= v.len(),
            v@ == s@,
            forall|j: int| 0 <= j < i ==> v[j] != c,
        decreases v.len() - i,
    {
        if v[i] == c {
            assert(s@[i as int] == c);
            return true;
        }
        i = i + 1;
    }
    false
}

/// Classifies a template argument.
pub fn classify(raw: &str) -> (r: Pattern)
    ensures
        r.deep_view() == classified(raw@),
{
    proof {
        reveal_strlit("$");
        assert("$"@ =~= seq!['$']);
        if raw@.len() > 0 {
            assert(raw@.take(1) =~= seq![raw@[0]]);
            assert(raw@.take(1)[0] == raw@[0]);
            assert("$"@[0] == '$');
        }
    }
    match strip_prefix_text(raw, "$") {
        Some(name) => Pattern::Var(name),
        None => if has_char(raw, '*') {
            Pattern::Glob(raw.to_string())
        } else {
            Pattern::Lit(raw.to_string())
        },
    }
}

/// Whether the glob `p` matches `v`: `?` stands for one character and `*` for any run of
/// characters.
pub open spec fn glob_matches(p: Str, v: Str) -> bool
    decreases p.len(),
{
    if p.len() == 0 {
        v.len() == 0
    } else if p[0] == '*' {
        exists|j: int| 0 <= j <= v.len() && glob_matches(p.drop_first(), #[trigger] v.skip(j))
    } else {
        v.len() > 0 && (p[0] == '?' || p[0] == v[0]) && glob_matches(
            p.drop_first(),
            v.drop_first(),
        )
    }
}

/// The glob from position `i` against the value from position `j`.
spec fn glob_tail(p: Str, v: Str, i: int, j: int) -> bool {
    glob_matches(p.skip(i), v.skip(j))
}

proof fn lemma_glob_tail(p: Str, v: Str, i: int, j: int)
    requires
        0 <= i <= p.len(),
        0 <= j <= v.len(),
    ensures
        glob_tail(p, v, i, j) == (if i == p.len() {
            j == v.len()
        } else if p[i] == '*' {
            exists|k: int| j <= k <= v.len() && #[trigger] glob_tail(p, v, i + 1, k)
        } else {
            j < v.len() && (p[i] == '?' || p[i] == v[j]) && glob_tail(p, v, i + 1, j + 1)
        }),
{
    let a = p.skip(i);
    let b = v.skip(j);
    if i < p.len() {
        assert(a[0] == p[i]);
        assert(a.drop_first() =~= p.skip(i + 1));
        if j < v.len() {
            assert(b[0] == v[j]);
            assert(b.drop_first() =~= v.skip(j + 1));
        }
        if p[i] == '*' {
            if glob_matches(a, b) {
                let x = choose|x: int|
                    0 <= x <= b.len() && glob_matches(a.drop_first(), #[trigger] b.skip(x));
                assert(b.skip(x) =~= v.skip(j + x));
                assert(glob_tail(p, v, i + 1, j + x));
            }
            if exists|k: int| j <= k <= v.len() && #[trigger] glob_tail(p, v, i + 1, k) {
                let k = choose|k: int| j <= k <= v.len() && #[trigger] glob_tail(p, v, i + 1, k);
                assert(b.skip(k - j) =~= v.skip(k));
                assert(glob_matches(a.drop_first(), b.skip(k - j)));
            }
        }
    }
}

/// Positions `from .. pi` of the pattern each match one character of the value, from `mark` on.
spec fn aligned(p: Str, v: Str, from: int, pi: int, mark: int) -> bool {
    forall|k: int|
        from <= k < pi ==> #[trigger] p[k] != '*' && (p[k] == '?' || p[k] == v[mark + (k - from)])
}

/// A match that starts later in the value is never ahead of one that starts earlier: it
/// passes pattern position `pi` at or after the place where the aligned run left off.
proof fn lemma_glob_overtaken(p: Str, v: Str, from: int, pi: int, mark: int, k: int, a: int)
    requires
        0 <= from <= k <= pi <= p.len(),
        0 <= mark,
        mark + (pi - from) <= v.len(),
        aligned(p, v, from, pi, mark),
        mark + (k - from) <= a <= v.len(),
        glob_tail(p, v, k, a),
    ensures
        exists|b: int| mark + (pi - from) <= b <= v.len() && #[trigger] glob_tail(p, v, pi, b),
    decreases pi - k,
{
    if k < pi {
        lemma_glob_tail(p, v, k, a);
        lemma_glob_overtaken(p, v, from, pi, mark, k + 1, a + 1);
    }
}

/// Some place after `m` of the value where the glob from `i` on matches.
spec fn glob_later(p: Str, v: Str, i: int, m: int) -> bool {
    exists|j: int| m < j <= v.len() && #[trigger] glob_tail(p, v, i, j)
}

proof fn lemma_glob_later(p: Str, v: Str, i: int, m: int)
    requires
        -1 <= m < v.len(),
    ensures
        glob_later(p, v, i, m) == (glob_tail(p, v, i, m + 1) || glob_later(p, v, i, m + 1)),
{
    if glob_later(p, v, i, m) {
        let j = choose|j: int| m < j <= v.len() && #[trigger] glob_tail(p, v, i, j);
        if j > m + 1 {
            assert(glob_later(p, v, i, m + 1));
        }
    }
}

/// Whether the glob `pattern` matches `value`.
pub fn glob_match(pattern: &str, value: &str) -> (r: bool)
    ensures
        r == glob_matches(pattern@, value@),
{
    let p = chars_of(pattern);
    let v = chars_of(value);
    let mut pi: usize = 0;
    let mut vi: usize = 0;
    let mut star: Option<usize> = None;
    let mut mark: usize = 0;
    assert(p@.skip(0) =~= p@ && v@.skip(0) =~= v@);
    while vi < v.len()
        invariant
            p@ == pattern@,
            v@ == value@,
            pi <= p.len(),
            vi <= v.len(),
            mark <= vi,
            star matches Some(s) ==> s < pi && vi == mark + (pi - s - 1) && aligned(
                p@,
                v@,
                s + 1,
                pi as int,
                mark as int,
            ),
            glob_matches(p@, v@) == (glob_tail(p@, v@, pi as int, vi as int) || (star matches Some(s)
                && glob_later(p@, v@, s + 1, mark as int))),
        decreases v.len() - mark, v.len() - vi, p.len() - pi,
    {
        proof {
            lemma_glob_tail(p@, v@, pi as int, vi as int);
        }
        if pi < p.len() && p[pi] == '*' {
            proof {
                if let Some(s) = star {
                    if glob_later(p@, v@, s + 1, mark as int) {
                        let j = choose|j: int|
                            mark < j <= v.len() && #[trigger] glob_tail(p@, v@, s + 1, j);
                        lemma_glob_overtaken(
                            p@,
                            v@,
                            s + 1,
                            pi as int,
                            mark as int,
                            s + 1,
                            j,
                        );
                        let b = choose|b: int|
                            vi <= b <= v.len() && #[trigger] glob_tail(p@, v@, pi as int, b);
                        lemma_glob_tail(p@, v@, pi as int, b);
                    }
                }
                lemma_glob_later(p@, v@, pi + 1, vi - 1);
                assert(glob_tail(p@, v@, pi as int, vi as int) == glob_later(
                    p@,
                    v@,
                    pi + 1,
                    vi - 1,
                ));
            }
            star = Some(pi);
            mark = vi;
            pi = pi + 1;
        } else if pi < p.len() && (p[pi] == '?' || p[pi] == v[vi]) {
            pi = pi + 1;
            vi = vi + 1;
        } else if let Some(s) = star {
            proof {
                lemma_glob_later(p@, v@, s + 1, mark as int);
            }
            pi = s + 1;
            mark = mark + 1;
            vi = mark;
        } else {
            return false;
        }
    }
    proof {
        if let Some(s) = star {
            if glob_later(p@, v@, s + 1, mark as int) {
                let j = choose|j: int| mark < j <= v.len() && #[trigger] glob_tail(p@, v@, s + 1, j);
                lemma_glob_overtaken(p@, v@, s + 1, pi as int, mark as int, s + 1, j);
            }
        }
    }
    while pi < p.len() && p[pi] == '*'
        invariant
            p@ == pattern@,
            v@ == value@,
            pi <= p.len(),
            vi == v.len(),
            glob_matches(p@, v@) == glob_tail(p@, v@, pi as int, vi as int),
        decreases p.len() - pi,
    {
        proof {
            lemma_glob_tail(p@, v@, pi as int, vi as int);
            assert(glob_tail(p@, v@, pi + 1, vi as int) ==> exists|k: int|
                vi <= k <= v.len() && #[trigger] glob_tail(p@, v@, pi + 1, k));
        }
        pi = pi + 1;
    }
    proof {
        lemma_glob_tail(p@, v@, pi as int, vi as int);
    }
    pi == p.len()
}

// ---------------------------------------------------------------------------
// Looking things up in a specification
// ---------------------------------------------------------------------------
/// The first transition at or after position `i` with the id `id`.
pub open spec fn transition_from(
    ts: Seq<TransitionView>,
    id: Str,
    i: int,
) -> Option<TransitionView>
    decreases ts.len() - i,
{
    if i < 0 || i >= ts.len() {
        None
    } else if ts[i].id == id {
        Some(ts[i])
    } else {
        transition_from(ts, id, i + 1)
    }
}

/// The first place at or after position `i` with the id `id`.
pub open spec fn place_from(ps: Seq<PlaceView>, id: Str, i: int) -> Option<PlaceView>
    decreases ps.len() - i,
{
    if i < 0 || i >= ps.len() {
        None
    } else if ps[i].id == id {
        Some(ps[i])
    } else {
        place_from(ps, id, i + 1)
    }
}

/// Whether `identity` belongs to the principal class named `key`.
pub open spec fn admits(spec: SpecView, key: Str, identity: Str) -> bool {
    match lookup(spec.principals, key) {
        Some(p) => glob_matches(p.id_pattern, identity),
        None => false,
    }
}

/// The names of the variables among the first `n` of `raws`.
pub open spec fn var_names(raws: Seq<Str>, n: int) -> Seq<Str>
    decreases n,
{
    if n <= 0 {
        Seq::empty()
    } else {
        let init = var_names(raws, n - 1);
        match classified(raws[n - 1]) {
            PatternView::Var(name) => init.push(name),
            _ => init,
        }
    }
}

/// The variables that the bindings of the first `n` obligations name.
pub open spec fn obligation_vars(os: Seq<RelationObligationView>, n: int) -> Seq<Str>
    decreases n,
{
    if n <= 0 {
        Seq::empty()
    } else {
        obligation_vars(os, n - 1) + var_names(
            values_of(os[n - 1].bind),
            os[n - 1].bind.len() as int,
        )
    }
}

/// The variables that the first `n` templates name, in their arguments and obligations.
pub open spec fn template_vars(es: Seq<EffectTemplateView>, n: int) -> Seq<Str>
    decreases n,
{
    if n <= 0 {
        Seq::empty()
    } else {
        template_vars(es, n - 1) + var_names(
            values_of(es[n - 1].args),
            es[n - 1].args.len() as int,
        ) + obligation_vars(es[n - 1].requires_relation, es[n - 1].requires_relation.len() as int)
    }
}

/// The distinct variables that a transition names, in order.
pub open spec fn vars_of(t: TransitionView) -> Seq<Str> {
    sorted_set(template_vars(t.emits, t.emits.len() as int))
}

fn table_vars(args: &Table<String>) -> (r: Vec<String>)
    ensures
        r.deep_view() == var_names(values_of(args.deep_view()), args.deep_view().len() as int),
{
    let ghost raws = values_of(args.deep_view());
    let mut out: Vec<String> = empty_vec();
    let mut i: usize = 0;
    while i < args.len()
        invariant
            raws == values_of(args.deep_view()),
            i <= args.deep_view().len(),
            out.deep_view() == var_names(raws, i as int),
        decreases args.deep_view().len() - i,
    {
        match classify(args.value_at(i).as_str()) {
            Pattern::Var(name) => {
                push_to(&mut out, name);
            },
            _ => {},
        }
        i = i + 1;
    }
    out
}

fn all_obligation_vars(os: &Vec<RelationObligation>) -> (r: Vec<String>)
    ensures
        r.deep_view() == obligation_vars(os.deep_view(), os.deep_view().len() as int),
{
    let mut out: Vec<String> = empty_vec();
    let mut i: usize = 0;
    while i < os.len()
        invariant
            i <= os.len(),
            out.deep_view() == obligation_vars(os.deep_view(), i as int),
        decreases os.len() - i,
    {
        append_to(&mut out, table_vars(&os[i].bind));
        i = i + 1;
    }
    out
}

impl Spec {
    /// The first transition with the given id.
    pub fn transition(&self, id: &str) -> (r: Option<&Transition>)
        ensures
            match r {
                Some(t) => transition_from(self.deep_view().transitions, id@, 0) == Some(
                    t.deep_view(),
                ),
                None => transition_from(self.deep_view().transitions, id@, 0) is None,
            },
    {
        let mut i: usize = 0;
        while i < self.transitions.len()
            invariant
                i <= self.transitions.len(),
                transition_from(self.transitions.deep_view(), id@, 0) == transition_from(
                    self.transitions.deep_view(),
                    id@,
                    i as int,
                ),
            decreases self.transitions.len() - i,
        {
            if same_text(self.transitions[i].id.as_str(), id) {
                return Some(&self.transitions[i]);
            }
            i = i + 1;
        }
        None
    }

    /// The first place with the given id.
    pub fn place(&self, id: &str) -> (r: Option<&Place>)
        ensures
            match r {
                Some(p) => place_from(self.deep_view().places, id@, 0) == Some(p.deep_view()),
                None => place_from(self.deep_view().places, id@, 0) is None,
            },
    {
        let mut i: usize = 0;
        while i < self.places.len()
            invariant
                i <= self.places.len(),
                place_from(self.places.deep_view(), id@, 0) == place_from(
                    self.places.deep_view(),
                    id@,
                    i as int,
                ),
            decreases self.places.len() - i,
        {
            if same_text(self.places[i].id.as_str(), id) {
                return Some(&self.places[i]);
            }
            i = i + 1;
        }
        None
    }

    /// Whether `identity` belongs to the principal class `principal_key`.
    pub fn principal_matches(&self, principal_key: &str, identity: &str) -> (r: bool)
        ensures
            r == admits(self.deep_view(), principal_key@, identity@),
    {
        match self.principals.get(principal_key) {
            Some(p) => glob_match(p.id_pattern.as_str(), identity),
            None => false,
        }
    }

    /// The distinct variables that `t` names in its effects, in order.
    pub fn referenced_vars(t: &Transition) -> (r: Vec<String>)
        ensures
            r.deep_view() == vars_of(t.deep_view()),
    {
        let mut names: Vec<String> = empty_vec();
        let mut i: usize = 0;
        while i < t.emits.len()
            invariant
                i <= t.emits.len(),
                names.deep_view() == template_vars(t.emits.deep_view(), i as int),
            decreases t.emits.len() - i,
        {
            append_to(&mut names, table_vars(&t.emits[i].args));
            append_to(&mut names, all_obligation_vars(&t.emits[i].requires_relation));
            i = i + 1;
        }
        let mut out = StrSet::new();
        out.insert_all(&names);
        out.to_vec()
    }
}

} // verus!
