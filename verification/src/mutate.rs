//! Mutations of a specification: each relaxes one clause, to find out which clauses a
//! rejection rests on.

use crate::index::{assigned, Table};
use crate::model::{
    classified, classify, EffectTemplate, EffectTemplateView, Pattern, PatternView, Principal,
    PrincipalView, RelationObligation, RelationObligationView, RelationSchema, RelationSchemaView,
    Spec, SpecView, Transition, TransitionView,
};
use crate::ordered::{append_to, empty_vec, lookup, push_to, Dup, Same};
use crate::text::{cat2, cat5, cat9, same_text, Str};
use vstd::prelude::*;

verus! {

/// One relaxed clause.
#[derive(Debug)]
pub enum Mutation {
    DropObligation { transition: usize, emit: usize, obligation: usize },
    LoosenArg { transition: usize, emit: usize, key: String },
    WidenPrincipal { name: String },
    RelaxRelation { name: String },
    DropGuard { transition: usize },
}

/// What a [`Mutation`] holds.
pub enum MutationView {
    DropObligation { transition: usize, emit: usize, obligation: usize },
    LoosenArg { transition: usize, emit: usize, key: Str },
    WidenPrincipal { name: Str },
    RelaxRelation { name: Str },
    DropGuard { transition: usize },
}

impl DeepView for Mutation {
    type V = MutationView;

    open spec fn deep_view(&self) -> MutationView {
        match self {
            Mutation::DropObligation { transition, emit, obligation } => MutationView::DropObligation {
                transition: *transition,
                emit: *emit,
                obligation: *obligation,
            },
            Mutation::LoosenArg { transition, emit, key } => MutationView::LoosenArg {
                transition: *transition,
                emit: *emit,
                key: key.deep_view(),
            },
            Mutation::WidenPrincipal { name } => MutationView::WidenPrincipal {
                name: name.deep_view(),
            },
            Mutation::RelaxRelation { name } => MutationView::RelaxRelation {
                name: name.deep_view(),
            },
            Mutation::DropGuard { transition } => MutationView::DropGuard {
                transition: *transition,
            },
        }
    }
}

impl Dup for Mutation {
    fn dup(&self) -> (r: Self) {
        match self {
            Mutation::DropObligation { transition, emit, obligation } => Mutation::DropObligation {
                transition: *transition,
                emit: *emit,
                obligation: *obligation,
            },
            Mutation::LoosenArg { transition, emit, key } => Mutation::LoosenArg {
                transition: *transition,
                emit: *emit,
                key: key.dup(),
            },
            Mutation::WidenPrincipal { name } => Mutation::WidenPrincipal {
                name: name.dup(),
            },
            Mutation::RelaxRelation { name } => Mutation::RelaxRelation {
                name: name.dup(),
            },
            Mutation::DropGuard { transition } => Mutation::DropGuard {
                transition: *transition,
            },
        }
    }
}

impl Same for Mutation {
    fn same(&self, other: &Self) -> (r: bool) {
        match (self, other) {
            (
                Mutation::DropObligation { transition, emit, obligation },
                Mutation::DropObligation { transition: o_transition, emit: o_emit, obligation: o_obligation },
            ) => {
                *transition == *o_transition && *emit == *o_emit && *obligation == *o_obligation
            },
            (
                Mutation::LoosenArg { transition, emit, key },
                Mutation::LoosenArg { transition: o_transition, emit: o_emit, key: o_key },
            ) => {
                *transition == *o_transition && *emit == *o_emit && key.same(o_key)
            },
            (
                Mutation::WidenPrincipal { name },
                Mutation::WidenPrincipal { name: o_name },
            ) => {
                name.same(o_name)
            },
            (
                Mutation::RelaxRelation { name },
                Mutation::RelaxRelation { name: o_name },
            ) => {
                name.same(o_name)
            },
            (
                Mutation::DropGuard { transition },
                Mutation::DropGuard { transition: o_transition },
            ) => {
                *transition == *o_transition
            },
            _ => false,
        }
    }
}

/// A mutation with a name and what it says of the clause.
#[derive(Debug)]
pub struct Mutant {
    pub id: String,
    pub description: String,
    pub mutation: Mutation,
}

/// What a [`Mutant`] holds.
pub struct MutantView {
    pub id: Str,
    pub description: Str,
    pub mutation: MutationView,
}

impl DeepView for Mutant {
    type V = MutantView;

    open spec fn deep_view(&self) -> MutantView {
        MutantView {
            id: self.id.deep_view(),
            description: self.description.deep_view(),
            mutation: self.mutation.deep_view(),
        }
    }
}

impl Dup for Mutant {
    fn dup(&self) -> (r: Self) {
        Mutant {
            id: self.id.dup(),
            description: self.description.dup(),
            mutation: self.mutation.dup(),
        }
    }
}

// ---------------------------------------------------------------------------
// All mutants
// ---------------------------------------------------------------------------
/// The mutants that drop one of the first `n` obligations of an effect.
pub open spec fn obligation_mutants(
    t: TransitionView,
    ti: int,
    e: EffectTemplateView,
    ei: int,
    n: int,
) -> Seq<MutantView>
    decreases n,
{
    if n <= 0 {
        Seq::empty()
    } else {
        let o = e.requires_relation[n - 1];
        obligation_mutants(t, ti, e, ei, n - 1).push(
            MutantView {
                id: "drop-obligation:"@ + t.id + "/"@ + e.effect + "/"@ + o.ty,
                description: "transition `"@ + t.id + "` no longer requires "@ + o.ty + "("@
                    + e.effect + " -> "@ + o.target + ")"@,
                mutation: MutationView::DropObligation {
                    transition: ti as usize,
                    emit: ei as usize,
                    obligation: (n - 1) as usize,
                },
            },
        )
    }
}

/// The mutants that let one of the first `n` arguments of an effect take any value, of those
/// that do not already.
pub open spec fn arg_mutants(
    t: TransitionView,
    ti: int,
    e: EffectTemplateView,
    ei: int,
    n: int,
) -> Seq<MutantView>
    decreases n,
{
    if n <= 0 {
        Seq::empty()
    } else {
        let (key, raw) = e.args[n - 1];
        let rest = arg_mutants(t, ti, e, ei, n - 1);
        if classified(raw) == PatternView::Glob("*"@) {
            rest
        } else {
            rest.push(
                MutantView {
                    id: "loosen-arg:"@ + t.id + "/"@ + e.effect + "/"@ + key,
                    description: "`"@ + key + "` on "@ + t.id + "."@ + e.effect
                        + " widened from `"@ + raw + "` to any value"@,
                    mutation: MutationView::LoosenArg {
                        transition: ti as usize,
                        emit: ei as usize,
                        key,
                    },
                },
            )
        }
    }
}

/// The mutants of the first `n` effects of a transition.
pub open spec fn effect_mutants(t: TransitionView, ti: int, n: int) -> Seq<MutantView>
    decreases n,
{
    if n <= 0 {
        Seq::empty()
    } else {
        let e = t.emits[n - 1];
        effect_mutants(t, ti, n - 1) + obligation_mutants(
            t,
            ti,
            e,
            n - 1,
            e.requires_relation.len() as int,
        ) + arg_mutants(t, ti, e, n - 1, e.args.len() as int)
    }
}

/// The mutant that drops the guard of a transition.
pub open spec fn guard_mutants(t: TransitionView, ti: int) -> Seq<MutantView> {
    match t.guard {
        Some(g) => seq![
            MutantView {
                id: "drop-guard:"@ + t.id,
                description: "guard `"@ + g + "` removed from `"@ + t.id + "`"@,
                mutation: MutationView::DropGuard { transition: ti as usize },
            },
        ],
        None => Seq::empty(),
    }
}

/// The mutants of the first `n` transitions.
pub open spec fn transition_mutants(ts: Seq<TransitionView>, n: int) -> Seq<MutantView>
    decreases n,
{
    if n <= 0 {
        Seq::empty()
    } else {
        let t = ts[n - 1];
        transition_mutants(ts, n - 1) + effect_mutants(t, n - 1, t.emits.len() as int)
            + guard_mutants(t, n - 1)
    }
}

/// The mutants that let one of the first `n` principals be anyone, of those that are not
/// already.
pub open spec fn principal_mutants(ps: Seq<(Str, PrincipalView)>, n: int) -> Seq<MutantView>
    decreases n,
{
    if n <= 0 {
        Seq::empty()
    } else {
        let (name, p) = ps[n - 1];
        let rest = principal_mutants(ps, n - 1);
        if p.id_pattern == "*"@ {
            rest
        } else {
            rest.push(
                MutantView {
                    id: "widen-principal:"@ + name,
                    description: "principal class `"@ + name + "` widened from `"@ + p.id_pattern
                        + "` to any identity"@,
                    mutation: MutationView::WidenPrincipal { name },
                },
            )
        }
    }
}

/// The mutants that drop the constraint of one of the first `n` relations.
pub open spec fn relation_mutants(rs: Seq<(Str, RelationSchemaView)>, n: int) -> Seq<MutantView>
    decreases n,
{
    if n <= 0 {
        Seq::empty()
    } else {
        let (name, r) = rs[n - 1];
        relation_mutants(rs, n - 1).push(
            MutantView {
                id: "relax-relation:"@ + name,
                description: "relation `"@ + name + "` no longer enforces `"@ + r.constraint
                    + "`"@,
                mutation: MutationView::RelaxRelation { name },
            },
        )
    }
}

/// All mutants of a specification.
pub open spec fn all_mutants(spec: SpecView) -> Seq<MutantView> {
    transition_mutants(spec.transitions, spec.transitions.len() as int) + principal_mutants(
        spec.principals,
        spec.principals.len() as int,
    ) + relation_mutants(spec.relations, spec.relations.len() as int)
}

fn mutate_obligations(t: &Transition, ti: usize, e: &EffectTemplate, ei: usize) -> (r: Vec<Mutant>)
    ensures
        r.deep_view() == obligation_mutants(
            t.deep_view(),
            ti as int,
            e.deep_view(),
            ei as int,
            e.deep_view().requires_relation.len() as int,
        ),
{
    let ghost tv = t.deep_view();
    let ghost ev = e.deep_view();
    let mut out: Vec<Mutant> = empty_vec();
    let mut i: usize = 0;
    while i < e.requires_relation.len()
        invariant
            i <= e.requires_relation.len(),
            tv == t.deep_view(),
            ev == e.deep_view(),
            out.deep_view() == obligation_mutants(tv, ti as int, ev, ei as int, i as int),
        decreases e.requires_relation.len() - i,
    {
        let o = &e.requires_relation[i];
        assert(ev.requires_relation[i as int] == o.deep_view());
        let head = cat5("drop-obligation:", t.id.as_str(), "/", e.effect.as_str(), "/");
        push_to(
            &mut out,
            Mutant {
                id: cat2(head.as_str(), o.ty.as_str()),
                description: cat9(
                    "transition `",
                    t.id.as_str(),
                    "` no longer requires ",
                    o.ty.as_str(),
                    "(",
                    e.effect.as_str(),
                    " -> ",
                    o.target.as_str(),
                    ")",
                ),
                mutation: Mutation::DropObligation { transition: ti, emit: ei, obligation: i },
            },
        );
        i = i + 1;
    }
    assert(e.requires_relation.len() == ev.requires_relation.len());
    out
}

fn takes_anything(raw: &str) -> (r: bool)
    ensures
        r == (classified(raw@) == PatternView::Glob("*"@)),
{
    match classify(raw) {
        Pattern::Glob(g) => same_text(g.as_str(), "*"),
        _ => false,
    }
}

fn mutate_args(t: &Transition, ti: usize, e: &EffectTemplate, ei: usize) -> (r: Vec<Mutant>)
    ensures
        r.deep_view() == arg_mutants(
            t.deep_view(),
            ti as int,
            e.deep_view(),
            ei as int,
            e.deep_view().args.len() as int,
        ),
{
    let ghost tv = t.deep_view();
    let ghost ev = e.deep_view();
    let mut out: Vec<Mutant> = empty_vec();
    let mut i: usize = 0;
    while i < e.args.len()
        invariant
            i <= ev.args.len(),
            tv == t.deep_view(),
            ev == e.deep_view(),
            out.deep_view() == arg_mutants(tv, ti as int, ev, ei as int, i as int),
        decreases ev.args.len() - i,
    {
        let key = e.args.key_at(i);
        let raw = e.args.value_at(i);
        assert(ev.args[i as int] == (key@, raw@));
        if !takes_anything(raw.as_str()) {
            let head = cat5("loosen-arg:", t.id.as_str(), "/", e.effect.as_str(), "/");
            push_to(
                &mut out,
                Mutant {
                    id: cat2(head.as_str(), key.as_str()),
                    description: cat9(
                        "`",
                        key.as_str(),
                        "` on ",
                        t.id.as_str(),
                        ".",
                        e.effect.as_str(),
                        " widened from `",
                        raw.as_str(),
                        "` to any value",
                    ),
                    mutation: Mutation::LoosenArg { transition: ti, emit: ei, key: key.dup() },
                },
            );
        }
        i = i + 1;
    }
    out
}

/// All mutants of a specification.
pub fn mutants(spec: &Spec) -> (r: Vec<Mutant>)
    ensures
        r.deep_view() == all_mutants(spec.deep_view()),
{
    let ghost sv = spec.deep_view();
    let mut out: Vec<Mutant> = empty_vec();
    let mut ti: usize = 0;
    while ti < spec.transitions.len()
        invariant
            ti <= spec.transitions.len(),
            sv == spec.deep_view(),
            out.deep_view() == transition_mutants(sv.transitions, ti as int),
        decreases spec.transitions.len() - ti,
    {
        let t = &spec.transitions[ti];
        let ghost tv = t.deep_view();
        assert(sv.transitions[ti as int] == tv);
        let ghost so_far = out.deep_view();
        let mut ei: usize = 0;
        assert(so_far + effect_mutants(tv, ti as int, 0) =~= so_far);
        while ei < t.emits.len()
            invariant
                ei <= t.emits.len(),
                tv == t.deep_view(),
                out.deep_view() == so_far + effect_mutants(tv, ti as int, ei as int),
            decreases t.emits.len() - ei,
        {
            assert(tv.emits[ei as int] == t.emits[ei as int].deep_view());
            append_to(&mut out, mutate_obligations(t, ti, &t.emits[ei], ei));
            append_to(&mut out, mutate_args(t, ti, &t.emits[ei], ei));
            assert(out.deep_view() =~= so_far + effect_mutants(tv, ti as int, ei + 1));
            ei = ei + 1;
        }
        assert(t.emits.len() == tv.emits.len());
        let ghost with_effects = out.deep_view();
        match &t.guard {
            Some(g) => push_to(
                &mut out,
                Mutant {
                    id: cat2("drop-guard:", t.id.as_str()),
                    description: cat5(
                        "guard `",
                        g.as_str(),
                        "` removed from `",
                        t.id.as_str(),
                        "`",
                    ),
                    mutation: Mutation::DropGuard { transition: ti },
                },
            ),
            None => {},
        }
        assert(out.deep_view() =~= with_effects + guard_mutants(tv, ti as int));
        ti = ti + 1;
    }
    assert(spec.transitions.len() == sv.transitions.len());
    let ghost so_far = out.deep_view();
    let mut i: usize = 0;
    assert(so_far + principal_mutants(sv.principals, 0) =~= so_far);
    while i < spec.principals.len()
        invariant
            i <= sv.principals.len(),
            sv == spec.deep_view(),
            out.deep_view() == so_far + principal_mutants(sv.principals, i as int),
        decreases sv.principals.len() - i,
    {
        let name = spec.principals.key_at(i);
        let p = spec.principals.value_at(i);
        assert(sv.principals[i as int] == (name@, p.deep_view()));
        if !same_text(p.id_pattern.as_str(), "*") {
            push_to(
                &mut out,
                Mutant {
                    id: cat2("widen-principal:", name.as_str()),
                    description: cat5(
                        "principal class `",
                        name.as_str(),
                        "` widened from `",
                        p.id_pattern.as_str(),
                        "` to any identity",
                    ),
                    mutation: Mutation::WidenPrincipal { name: name.dup() },
                },
            );
        }
        assert(out.deep_view() =~= so_far + principal_mutants(sv.principals, i + 1));
        i = i + 1;
    }
    let ghost with_principals = out.deep_view();
    let mut k: usize = 0;
    assert(with_principals + relation_mutants(sv.relations, 0) =~= with_principals);
    while k < spec.relations.len()
        invariant
            k <= sv.relations.len(),
            sv == spec.deep_view(),
            out.deep_view() == with_principals + relation_mutants(sv.relations, k as int),
        decreases sv.relations.len() - k,
    {
        let name = spec.relations.key_at(k);
        let r = spec.relations.value_at(k);
        assert(sv.relations[k as int] == (name@, r.deep_view()));
        push_to(
            &mut out,
            Mutant {
                id: cat2("relax-relation:", name.as_str()),
                description: cat5(
                    "relation `",
                    name.as_str(),
                    "` no longer enforces `",
                    r.constraint.as_str(),
                    "`",
                ),
                mutation: Mutation::RelaxRelation { name: name.dup() },
            },
        );
        assert(out.deep_view() =~= with_principals + relation_mutants(sv.relations, k + 1));
        k = k + 1;
    }
    out
}

// ---------------------------------------------------------------------------
// Applying mutations
// ---------------------------------------------------------------------------
/// Whether the specification has this effect template.
pub open spec fn has_template(spec: SpecView, t: int, e: int) -> bool {
    0 <= t < spec.transitions.len() && 0 <= e < spec.transitions[t].emits.len()
}

/// The specification with one effect template replaced.
pub open spec fn with_template(spec: SpecView, t: int, e: int, v: EffectTemplateView) -> SpecView {
    SpecView {
        transitions: spec.transitions.update(
            t,
            TransitionView { emits: spec.transitions[t].emits.update(e, v), ..spec.transitions[t] },
        ),
        ..spec
    }
}

/// The specification with one mutation made, except for dropped obligations. What the
/// mutation names and the specification has not, it leaves alone.
pub open spec fn relaxed(spec: SpecView, m: MutationView) -> SpecView {
    match m {
        MutationView::DropObligation { transition, emit, obligation } => spec,
        MutationView::LoosenArg { transition, emit, key } => if has_template(
            spec,
            transition as int,
            emit as int,
        ) {
            let v = spec.transitions[transition as int].emits[emit as int];
            with_template(
                spec,
                transition as int,
                emit as int,
                EffectTemplateView { args: assigned(v.args, key, "*"@), ..v },
            )
        } else {
            spec
        },
        MutationView::WidenPrincipal { name } => match lookup(spec.principals, name) {
            Some(p) => SpecView {
                principals: assigned(
                    spec.principals,
                    name,
                    PrincipalView { id_pattern: "*"@, ..p },
                ),
                ..spec
            },
            None => spec,
        },
        MutationView::RelaxRelation { name } => match lookup(spec.relations, name) {
            Some(r) => SpecView {
                relations: assigned(
                    spec.relations,
                    name,
                    RelationSchemaView { constraint: Seq::empty(), ..r },
                ),
                ..spec
            },
            None => spec,
        },
        MutationView::DropGuard { transition } => if transition < spec.transitions.len() {
            SpecView {
                transitions: spec.transitions.update(
                    transition as int,
                    TransitionView { guard: None, ..spec.transitions[transition as int] },
                ),
                ..spec
            }
        } else {
            spec
        },
    }
}

/// The specification with the first `n` mutations made, except for dropped obligations.
pub open spec fn relaxed_upto(spec: SpecView, ms: Seq<MutationView>, n: int) -> SpecView
    decreases n,
{
    if n <= 0 {
        spec
    } else {
        relaxed(relaxed_upto(spec, ms, n - 1), ms[n - 1])
    }
}

/// Whether one obligation comes before another: by transition, effect and position.
pub open spec fn place_before(a: (usize, usize, usize), b: (usize, usize, usize)) -> bool {
    a.0 < b.0 || (a.0 == b.0 && (a.1 < b.1 || (a.1 == b.1 && a.2 < b.2)))
}

/// The obligation put where it belongs, the later ones first.
pub open spec fn insert_drop(
    s: Seq<(usize, usize, usize)>,
    x: (usize, usize, usize),
) -> Seq<(usize, usize, usize)>
    decreases s.len(),
{
    if s.len() == 0 || !place_before(s.last(), x) {
        s.push(x)
    } else {
        insert_drop(s.drop_last(), x).push(s.last())
    }
}

/// The obligations that the first `n` mutations drop, the later ones first.
pub open spec fn drops_upto(ms: Seq<MutationView>, n: int) -> Seq<(usize, usize, usize)>
    decreases n,
{
    if n <= 0 {
        Seq::empty()
    } else {
        match ms[n - 1] {
            MutationView::DropObligation { transition, emit, obligation } => insert_drop(
                drops_upto(ms, n - 1),
                (transition, emit, obligation),
            ),
            _ => drops_upto(ms, n - 1),
        }
    }
}

/// The specification without one obligation, if it has it.
pub open spec fn without(spec: SpecView, x: (usize, usize, usize)) -> SpecView {
    if has_template(spec, x.0 as int, x.1 as int) {
        let v = spec.transitions[x.0 as int].emits[x.1 as int];
        if x.2 < v.requires_relation.len() {
            with_template(
                spec,
                x.0 as int,
                x.1 as int,
                EffectTemplateView {
                    requires_relation: v.requires_relation.remove(x.2 as int),
                    ..v
                },
            )
        } else {
            spec
        }
    } else {
        spec
    }
}

/// The specification without the first `n` of these obligations, dropped one after the other.
pub open spec fn without_upto(spec: SpecView, xs: Seq<(usize, usize, usize)>, n: int) -> SpecView
    decreases n,
{
    if n <= 0 {
        spec
    } else {
        without(without_upto(spec, xs, n - 1), xs[n - 1])
    }
}

/// The specification with all mutations made.
pub open spec fn applied(spec: SpecView, ms: Seq<MutationView>) -> SpecView {
    let drops = drops_upto(ms, ms.len() as int);
    without_upto(relaxed_upto(spec, ms, ms.len() as int), drops, drops.len() as int)
}

fn set_template(spec: Spec, t: usize, e: usize, v: EffectTemplate) -> (r: Spec)
    requires
        has_template(spec.deep_view(), t as int, e as int),
    ensures
        r.deep_view() == with_template(spec.deep_view(), t as int, e as int, v.deep_view()),
{
    let ghost sv = spec.deep_view();
    let ghost vv = v.deep_view();
    let mut spec = spec;
    let mut ts: Vec<Transition> = empty_vec();
    std::mem::swap(&mut ts, &mut spec.transitions);
    assert(ts.deep_view() == sv.transitions);
    assert(ts.len() == sv.transitions.len());
    let mut tr = ts.remove(t);
    let ghost rest = ts.deep_view();
    assert(tr.deep_view() == sv.transitions[t as int]);
    let ghost tv = tr.deep_view();
    let mut es: Vec<EffectTemplate> = empty_vec();
    std::mem::swap(&mut es, &mut tr.emits);
    assert(es.deep_view() == tv.emits);
    assert(es.len() == tv.emits.len());
    es.set(e, v);
    assert(es.deep_view() =~= tv.emits.update(e as int, vv));
    tr.emits = es;
    assert(tr.deep_view() == TransitionView { emits: tv.emits.update(e as int, vv), ..tv });
    let ghost nv = tr.deep_view();
    ts.insert(t, tr);
    assert(ts.deep_view() =~= sv.transitions.update(t as int, nv));
    spec.transitions = ts;
    spec
}

fn relax(spec: Spec, m: &Mutation) -> (r: Spec)
    ensures
        r.deep_view() == relaxed(spec.deep_view(), m.deep_view()),
{
    let ghost sv = spec.deep_view();
    assert(spec.transitions.len() == sv.transitions.len());
    match m {
        Mutation::DropObligation { transition, emit, obligation } => spec,
        Mutation::LoosenArg { transition, emit, key } => {
            if *transition >= spec.transitions.len() {
                return spec;
            }
            assert(sv.transitions[*transition as int]
                == spec.transitions[*transition as int].deep_view());
            assert(spec.transitions[*transition as int].emits.len()
                == sv.transitions[*transition as int].emits.len());
            if *emit >= spec.transitions[*transition].emits.len() {
                return spec;
            }
            let mut v = spec.transitions[*transition].emits[*emit].dup();
            let ghost vv = v.deep_view();
            let mut args: Table<String> = Table::new();
            std::mem::swap(&mut args, &mut v.args);
            args.insert(key.dup(), "*".to_string());
            v.args = args;
            set_template(spec, *transition, *emit, v)
        },
        Mutation::WidenPrincipal { name } => {
            let p = match spec.principals.get(name.as_str()) {
                Some(p) => Principal { class: p.class, id_pattern: "*".to_string() },
                None => {
                    return spec;
                },
            };
            let mut spec = spec;
            let mut table: Table<Principal> = Table::new();
            std::mem::swap(&mut table, &mut spec.principals);
            table.insert(name.dup(), p);
            spec.principals = table;
            spec
        },
        Mutation::RelaxRelation { name } => {
            let p = match spec.relations.get(name.as_str()) {
                Some(p) => RelationSchema {
                    from: p.from.dup(),
                    to: p.to.dup(),
                    constraint: String::new(),
                },
                None => {
                    return spec;
                },
            };
            let mut spec = spec;
            let mut table: Table<RelationSchema> = Table::new();
            std::mem::swap(&mut table, &mut spec.relations);
            table.insert(name.dup(), p);
            spec.relations = table;
            spec
        },
        Mutation::DropGuard { transition } => {
            if *transition >= spec.transitions.len() {
                return spec;
            }
            let mut spec = spec;
            let mut ts: Vec<Transition> = empty_vec();
            std::mem::swap(&mut ts, &mut spec.transitions);
            let mut tr = ts.remove(*transition);
            assert(tr.deep_view() == sv.transitions[*transition as int]);
            tr.guard = None;
            let ghost nv = tr.deep_view();
            ts.insert(*transition, tr);
            assert(ts.deep_view() =~= sv.transitions.update(*transition as int, nv));
            spec.transitions = ts;
            spec
        },
    }
}

fn drop_obligation(spec: Spec, x: (usize, usize, usize)) -> (r: Spec)
    ensures
        r.deep_view() == without(spec.deep_view(), x),
{
    let ghost sv = spec.deep_view();
    assert(spec.transitions.len() == sv.transitions.len());
    if x.0 >= spec.transitions.len() {
        return spec;
    }
    assert(sv.transitions[x.0 as int] == spec.transitions[x.0 as int].deep_view());
    assert(spec.transitions[x.0 as int].emits.len() == sv.transitions[x.0 as int].emits.len());
    if x.1 >= spec.transitions[x.0].emits.len() {
        return spec;
    }
    let mut v = spec.transitions[x.0].emits[x.1].dup();
    let ghost vv = v.deep_view();
    assert(v.requires_relation.len() == vv.requires_relation.len());
    if x.2 >= v.requires_relation.len() {
        return spec;
    }
    let mut os: Vec<RelationObligation> = empty_vec();
    std::mem::swap(&mut os, &mut v.requires_relation);
    let _ = os.remove(x.2);
    assert(os.deep_view() =~= vv.requires_relation.remove(x.2 as int));
    v.requires_relation = os;
    set_template(spec, x.0, x.1, v)
}

fn is_before(a: &(usize, usize, usize), b: &(usize, usize, usize)) -> (r: bool)
    ensures
        r == place_before(*a, *b),
{
    a.0 < b.0 || (a.0 == b.0 && (a.1 < b.1 || (a.1 == b.1 && a.2 < b.2)))
}

proof fn lemma_insert_drop_at(
    s: Seq<(usize, usize, usize)>,
    x: (usize, usize, usize),
    i: int,
)
    requires
        0 <= i <= s.len(),
        i == 0 || !place_before(s[i - 1], x),
        forall|j: int| i <= j < s.len() ==> place_before(#[trigger] s[j], x),
    ensures
        insert_drop(s, x) == s.insert(i, x),
    decreases s.len(),
{
    if i == s.len() {
        assert(s.insert(i, x) =~= s.push(x));
    } else {
        let d = s.drop_last();
        assert(place_before(s[s.len() - 1], x));
        lemma_insert_drop_at(d, x, i);
        assert(d.insert(i, x).push(s.last()) =~= s.insert(i, x));
    }
}

fn list_drops(ms: &Vec<&Mutation>) -> (r: Vec<(usize, usize, usize)>)
    ensures
        r@ == drops_upto(ms.deep_view(), ms.deep_view().len() as int),
{
    let ghost mv = ms.deep_view();
    let mut out: Vec<(usize, usize, usize)> = Vec::new();
    let mut i: usize = 0;
    while i < ms.len()
        invariant
            i <= ms.len(),
            mv == ms.deep_view(),
            out@ == drops_upto(mv, i as int),
        decreases ms.len() - i,
    {
        assert(mv[i as int] == ms[i as int].deep_view());
        match ms[i] {
            Mutation::DropObligation { transition, emit, obligation } => {
                let x = (*transition, *emit, *obligation);
                let ghost ov = out@;
                let mut j: usize = out.len();
                while j > 0 && is_before(&out[j - 1], &x)
                    invariant
                        j <= out.len(),
                        ov == out@,
                        forall|k: int| j <= k < ov.len() ==> place_before(#[trigger] ov[k], x),
                    decreases j,
                {
                    j = j - 1;
                }
                proof {
                    lemma_insert_drop_at(ov, x, j as int);
                }
                out.insert(j, x);
            },
            _ => {},
        }
        i = i + 1;
    }
    assert(ms.len() == mv.len());
    out
}

/// The specification with all mutations made. Obligations are dropped last, the later ones
/// first, so that no removal moves another.
pub fn apply(spec: &Spec, mutations: &Vec<&Mutation>) -> (r: Spec)
    ensures
        r.deep_view() == applied(spec.deep_view(), mutations.deep_view()),
{
    let ghost sv = spec.deep_view();
    let ghost mv = mutations.deep_view();
    let mut out = spec.dup();
    let mut i: usize = 0;
    while i < mutations.len()
        invariant
            i <= mutations.len(),
            sv == spec.deep_view(),
            mv == mutations.deep_view(),
            out.deep_view() == relaxed_upto(sv, mv, i as int),
        decreases mutations.len() - i,
    {
        assert(mv[i as int] == mutations[i as int].deep_view());
        out = relax(out, mutations[i]);
        i = i + 1;
    }
    assert(mv.len() == mutations.len());
    let ghost base = out.deep_view();
    let drops = list_drops(mutations);
    let mut k: usize = 0;
    while k < drops.len()
        invariant
            k <= drops.len(),
            out.deep_view() == without_upto(base, drops@, k as int),
        decreases drops.len() - k,
    {
        out = drop_obligation(out, drops[k]);
        k = k + 1;
    }
    out
}

// ---------------------------------------------------------------------------
// Laws
// ---------------------------------------------------------------------------
/// Whether two specifications have the same places, final places, declared properties, and
/// the same transitions up to guards and effects.
pub open spec fn same_frame(a: SpecView, b: SpecView) -> bool {
    &&& a.spec_version == b.spec_version
    &&& a.workflow == b.workflow
    &&& a.places == b.places
    &&& a.final_places == b.final_places
    &&& a.invariants == b.invariants
    &&& a.transitions.len() == b.transitions.len()
    &&& forall|t: int|
        0 <= t < a.transitions.len() ==> {
            let x = #[trigger] a.transitions[t];
            let y = b.transitions[t];
            &&& x.id == y.id
            &&& x.principal == y.principal
            &&& x.consumes == y.consumes
            &&& x.produces == y.produces
            &&& x.binds == y.binds
            &&& x.emits.len() == y.emits.len()
            &&& forall|e: int|
                0 <= e < x.emits.len() ==> (#[trigger] x.emits[e]).effect == y.emits[e].effect
        }
}

proof fn lemma_relaxed_frame(spec: SpecView, m: MutationView)
    ensures
        same_frame(relaxed(spec, m), spec),
{
    let r = relaxed(spec, m);
    assert forall|t: int| 0 <= t < r.transitions.len() implies {
        let x = #[trigger] r.transitions[t];
        let y = spec.transitions[t];
        &&& x.emits.len() == y.emits.len()
        &&& forall|e: int|
            0 <= e < x.emits.len() ==> (#[trigger] x.emits[e]).effect == y.emits[e].effect
    } by {
        let x = r.transitions[t];
        let y = spec.transitions[t];
        match m {
            MutationView::LoosenArg { transition, emit, key } => {
                if has_template(spec, transition as int, emit as int) && t == transition {
                    assert(x.emits.len() == y.emits.len());
                }
            },
            _ => {},
        }
    }
}

proof fn lemma_without_frame(spec: SpecView, x: (usize, usize, usize))
    ensures
        same_frame(without(spec, x), spec),
{
    let r = without(spec, x);
    assert forall|t: int| 0 <= t < r.transitions.len() implies {
        let a = #[trigger] r.transitions[t];
        let y = spec.transitions[t];
        &&& a.emits.len() == y.emits.len()
        &&& forall|e: int|
            0 <= e < a.emits.len() ==> (#[trigger] a.emits[e]).effect == y.emits[e].effect
    } by {
        let a = r.transitions[t];
        let y = spec.transitions[t];
        if has_template(spec, x.0 as int, x.1 as int) && t == x.0 {
            assert(a.emits.len() == y.emits.len());
        }
    }
}

proof fn lemma_frame_transitive(a: SpecView, b: SpecView, c: SpecView)
    requires
        same_frame(a, b),
        same_frame(b, c),
    ensures
        same_frame(a, c),
{
    assert forall|t: int| 0 <= t < a.transitions.len() implies {
        let x = #[trigger] a.transitions[t];
        let y = c.transitions[t];
        &&& x.id == y.id
        &&& x.principal == y.principal
        &&& x.consumes == y.consumes
        &&& x.produces == y.produces
        &&& x.binds == y.binds
        &&& x.emits.len() == y.emits.len()
        &&& forall|e: int|
            0 <= e < x.emits.len() ==> (#[trigger] x.emits[e]).effect == y.emits[e].effect
    } by {
        let x = a.transitions[t];
        let z = b.transitions[t];
        let y = c.transitions[t];
        assert forall|e: int| 0 <= e < x.emits.len() implies (#[trigger] x.emits[e]).effect
            == y.emits[e].effect by {
            assert(z.emits[e].effect == y.emits[e].effect);
        }
    }
}

proof fn lemma_relaxed_upto_frame(spec: SpecView, ms: Seq<MutationView>, n: int)
    ensures
        same_frame(relaxed_upto(spec, ms, n), spec),
    decreases n,
{
    if n > 0 {
        lemma_relaxed_upto_frame(spec, ms, n - 1);
        lemma_relaxed_frame(relaxed_upto(spec, ms, n - 1), ms[n - 1]);
        lemma_frame_transitive(
            relaxed_upto(spec, ms, n),
            relaxed_upto(spec, ms, n - 1),
            spec,
        );
    }
}

pub proof fn lemma_without_upto_frame(spec: SpecView, xs: Seq<(usize, usize, usize)>, n: int)
    ensures
        same_frame(without_upto(spec, xs, n), spec),
    decreases n,
{
    if n > 0 {
        lemma_without_upto_frame(spec, xs, n - 1);
        lemma_without_frame(without_upto(spec, xs, n - 1), xs[n - 1]);
        lemma_frame_transitive(
            without_upto(spec, xs, n),
            without_upto(spec, xs, n - 1),
            spec,
        );
    }
}

/// Mutations leave the flow alone: places, final places, declared properties, and what each
/// transition is called, who may fire it, what it consumes, produces and binds and which
/// effects it emits.
pub proof fn mutations_leave_the_flow_alone(spec: SpecView, ms: Seq<MutationView>)
    ensures
        same_frame(applied(spec, ms), spec),
{
    let n = ms.len() as int;
    let drops = drops_upto(ms, n);
    lemma_relaxed_upto_frame(spec, ms, n);
    lemma_without_upto_frame(relaxed_upto(spec, ms, n), drops, drops.len() as int);
    lemma_frame_transitive(applied(spec, ms), relaxed_upto(spec, ms, n), spec);
}

/// Those of the first `n` obligations whose position is not dropped.
pub open spec fn kept_obligations(
    os: Seq<RelationObligationView>,
    dropped: spec_fn(int) -> bool,
    n: int,
) -> Seq<RelationObligationView>
    decreases n,
{
    if n <= 0 {
        Seq::empty()
    } else if dropped(n - 1) {
        kept_obligations(os, dropped, n - 1)
    } else {
        kept_obligations(os, dropped, n - 1).push(os[n - 1])
    }
}

/// The positions of one effect's obligations that mutations drop.
pub open spec fn dropped_by(ms: Seq<MutationView>, t: int, e: int) -> spec_fn(int) -> bool {
    |o: int|
        exists|i: int|
            0 <= i < ms.len() && #[trigger] ms[i] == (MutationView::DropObligation {
                transition: t as usize,
                emit: e as usize,
                obligation: o as usize,
            })
}

/// The positions of one effect's obligations that are among the first `n` of a list.
spec fn dropped_in(xs: Seq<(usize, usize, usize)>, t: int, e: int, n: int) -> spec_fn(int) -> bool {
    |o: int| exists|i: int| 0 <= i < n && #[trigger] xs[i] == (t as usize, e as usize, o as usize)
}

pub proof fn lemma_kept_same(
    os: Seq<RelationObligationView>,
    f: spec_fn(int) -> bool,
    g: spec_fn(int) -> bool,
    n: int,
)
    requires
        forall|o: int| 0 <= o < n ==> #[trigger] f(o) == g(o),
    ensures
        kept_obligations(os, f, n) == kept_obligations(os, g, n),
    decreases n,
{
    if n > 0 {
        assert(f(n - 1) == g(n - 1));
        lemma_kept_same(os, f, g, n - 1);
    }
}

/// Where nothing up to a position was dropped, dropping that position removes its item.
proof fn lemma_kept_remove(
    os: Seq<RelationObligationView>,
    f: spec_fn(int) -> bool,
    g: spec_fn(int) -> bool,
    at: int,
    n: int,
)
    requires
        0 <= at < n <= os.len(),
        forall|o: int| 0 <= o <= at ==> !#[trigger] f(o),
        forall|o: int| 0 <= o < n ==> #[trigger] g(o) == (f(o) || o == at),
    ensures
        kept_obligations(os, f, n).len() > at,
        kept_obligations(os, g, n) == kept_obligations(os, f, n).remove(at),
    decreases n,
{
    if n == at + 1 {
        lemma_kept_all(os, f, at);
        lemma_kept_same(os, f, g, at);
        assert(g(at));
        assert(!f(at));
        assert(kept_obligations(os, f, n) == os.take(at).push(os[at]));
        assert(os.take(at).push(os[at]).remove(at) =~= os.take(at));
    } else {
        lemma_kept_remove(os, f, g, at, n - 1);
        assert(g(n - 1) == f(n - 1));
        if !f(n - 1) {
            let k = kept_obligations(os, f, n - 1);
            assert(k.push(os[n - 1]).remove(at) =~= k.remove(at).push(os[n - 1]));
        }
    }
}

proof fn lemma_kept_all(os: Seq<RelationObligationView>, f: spec_fn(int) -> bool, n: int)
    requires
        0 <= n <= os.len(),
        forall|o: int| 0 <= o < n ==> !#[trigger] f(o),
    ensures
        kept_obligations(os, f, n) == os.take(n),
    decreases n,
{
    if n > 0 {
        assert(!f(n - 1));
        lemma_kept_all(os, f, n - 1);
        assert(os.take(n - 1).push(os[n - 1]) =~= os.take(n));
    } else {
        assert(os.take(0) =~= Seq::<RelationObligationView>::empty());
    }
}

/// Whether the list runs from later obligations to earlier ones, none twice.
spec fn falling(xs: Seq<(usize, usize, usize)>) -> bool {
    forall|i: int, j: int| 0 <= i < j < xs.len() ==> place_before(#[trigger] xs[j], #[trigger] xs[i])
}

proof fn lemma_insert_falling(xs: Seq<(usize, usize, usize)>, x: (usize, usize, usize))
    requires
        falling(xs),
        !xs.contains(x),
    ensures
        falling(insert_drop(xs, x)),
        forall|y: (usize, usize, usize)| #[trigger]
            insert_drop(xs, x).contains(y) <==> xs.contains(y) || y == x,
    decreases xs.len(),
{
    let r = insert_drop(xs, x);
    if xs.len() == 0 || !place_before(xs.last(), x) {
        if xs.len() > 0 {
            assert(xs.contains(xs.last()));
        }
        assert forall|i: int, j: int| 0 <= i < j < r.len() implies place_before(
            #[trigger] r[j],
            #[trigger] r[i],
        ) by {
            if j == xs.len() {
                assert(place_before(x, xs.last()));
                if i < xs.len() - 1 {
                    assert(place_before(xs.last(), xs[i]));
                }
            }
        }
        assert forall|y: (usize, usize, usize)| #[trigger] r.contains(y) <==> xs.contains(y) || y
            == x by {
            crate::adapters::lemma_push_contains(xs, x, y);
        }
    } else {
        let d = xs.drop_last();
        let l = xs.last();
        assert(d.push(l) =~= xs);
        assert(!d.contains(x)) by {
            if d.contains(x) {
                assert(xs[d.index_of(x)] == x);
            }
        }
        lemma_insert_falling(d, x);
        let u = insert_drop(d, x);
        assert forall|i: int, j: int| 0 <= i < j < r.len() implies place_before(
            #[trigger] r[j],
            #[trigger] r[i],
        ) by {
            if j == u.len() {
                assert(u.contains(u[i]));
                if u[i] != x {
                    let k = d.index_of(u[i]);
                    assert(place_before(xs[xs.len() - 1], xs[k]));
                }
            } else {
                assert(r[j] == u[j] && r[i] == u[i]);
            }
        }
        assert forall|y: (usize, usize, usize)| #[trigger] r.contains(y) <==> xs.contains(y) || y
            == x by {
            crate::adapters::lemma_push_contains(u, l, y);
            crate::adapters::lemma_push_contains(d, l, y);
        }
    }
}

/// Whether no obligation is dropped twice.
pub open spec fn drops_once(ms: Seq<MutationView>) -> bool {
    forall|i: int, j: int|
        0 <= i < j < ms.len() && #[trigger] ms[i] is DropObligation ==> ms[i] != #[trigger] ms[j]
}

proof fn lemma_drops(ms: Seq<MutationView>, n: int)
    requires
        drops_once(ms),
        0 <= n <= ms.len(),
    ensures
        falling(drops_upto(ms, n)),
        forall|x: (usize, usize, usize)| #[trigger]
            drops_upto(ms, n).contains(x) <==> exists|i: int|
                0 <= i < n && #[trigger] ms[i] == (MutationView::DropObligation {
                    transition: x.0,
                    emit: x.1,
                    obligation: x.2,
                }),
    decreases n,
{
    if n > 0 {
        lemma_drops(ms, n - 1);
        let rest = drops_upto(ms, n - 1);
        match ms[n - 1] {
            MutationView::DropObligation { transition, emit, obligation } => {
                let x = (transition, emit, obligation);
                assert(!rest.contains(x)) by {
                    if rest.contains(x) {
                        let i = choose|i: int|
                            0 <= i < n - 1 && #[trigger] ms[i] == (MutationView::DropObligation {
                                transition: x.0,
                                emit: x.1,
                                obligation: x.2,
                            });
                        assert(ms[i] != ms[n - 1]);
                    }
                }
                lemma_insert_falling(rest, x);
                assert forall|y: (usize, usize, usize)| #[trigger]
                    drops_upto(ms, n).contains(y) <==> exists|i: int|
                        0 <= i < n && #[trigger] ms[i] == (MutationView::DropObligation {
                            transition: y.0,
                            emit: y.1,
                            obligation: y.2,
                        }) by {
                    if rest.contains(y) {
                        let i = choose|i: int|
                            0 <= i < n - 1 && #[trigger] ms[i] == (MutationView::DropObligation {
                                transition: y.0,
                                emit: y.1,
                                obligation: y.2,
                            });
                        assert(0 <= i < n && ms[i] == (MutationView::DropObligation {
                            transition: y.0,
                            emit: y.1,
                            obligation: y.2,
                        }));
                    }
                    if y == x {
                        assert(ms[n - 1] == (MutationView::DropObligation {
                            transition: y.0,
                            emit: y.1,
                            obligation: y.2,
                        }));
                    }
                }
            },
            _ => {
                assert forall|y: (usize, usize, usize)| #[trigger]
                    drops_upto(ms, n).contains(y) <==> exists|i: int|
                        0 <= i < n && #[trigger] ms[i] == (MutationView::DropObligation {
                            transition: y.0,
                            emit: y.1,
                            obligation: y.2,
                        }) by {
                    if rest.contains(y) {
                        let i = choose|i: int|
                            0 <= i < n - 1 && #[trigger] ms[i] == (MutationView::DropObligation {
                                transition: y.0,
                                emit: y.1,
                                obligation: y.2,
                            });
                        assert(0 <= i < n && ms[i] == (MutationView::DropObligation {
                            transition: y.0,
                            emit: y.1,
                            obligation: y.2,
                        }));
                    }
                }
            },
        }
    }
}

proof fn lemma_without_kept(
    spec: SpecView,
    xs: Seq<(usize, usize, usize)>,
    t: int,
    e: int,
    n: int,
)
    requires
        falling(xs),
        0 <= n <= xs.len(),
        has_template(spec, t, e),
        t <= usize::MAX,
        e <= usize::MAX,
        spec.transitions[t].emits[e].requires_relation.len() <= usize::MAX,
    ensures
        has_template(without_upto(spec, xs, n), t, e),
        ({
            let os = spec.transitions[t].emits[e].requires_relation;
            without_upto(spec, xs, n).transitions[t].emits[e].requires_relation
                == kept_obligations(os, dropped_in(xs, t, e, n), os.len() as int)
        }),
    decreases n,
{
    let os = spec.transitions[t].emits[e].requires_relation;
    let len = os.len() as int;
    let g = dropped_in(xs, t, e, n);
    if n == 0 {
        assert forall|o: int| 0 <= o < len implies !#[trigger] g(o) by {}
        lemma_kept_all(os, g, len);
        assert(os.take(len) =~= os);
    } else {
        lemma_without_kept(spec, xs, t, e, n - 1);
        let f = dropped_in(xs, t, e, n - 1);
        let mid = without_upto(spec, xs, n - 1);
        let x = xs[n - 1];
        lemma_without_frame(mid, x);
        assert(without(mid, x).transitions[t].emits.len() == mid.transitions[t].emits.len());
        let cur = mid.transitions[t].emits[e].requires_relation;
        if x.0 == t && x.1 == e {
            let at = x.2 as int;
            assert forall|o: int| 0 <= o <= at implies !#[trigger] f(o) by {
                if f(o) {
                    let i = choose|i: int|
                        0 <= i < n - 1 && #[trigger] xs[i] == (
                            t as usize,
                            e as usize,
                            o as usize,
                        );
                    assert(place_before(xs[n - 1], xs[i]));
                }
            }
            assert forall|o: int| 0 <= o < len implies #[trigger] g(o) == (f(o) || o == at) by {
                if f(o) {
                    let i = choose|i: int|
                        0 <= i < n - 1 && #[trigger] xs[i] == (
                            t as usize,
                            e as usize,
                            o as usize,
                        );
                    assert(0 <= i < n && xs[i] == (t as usize, e as usize, o as usize));
                }
                if o == at {
                    assert(xs[n - 1] == (t as usize, e as usize, o as usize));
                }
                if g(o) {
                    let i = choose|i: int|
                        0 <= i < n && #[trigger] xs[i] == (t as usize, e as usize, o as usize);
                    if i < n - 1 {
                        assert(0 <= i < n - 1 && xs[i] == (t as usize, e as usize, o as usize));
                    }
                }
            }
            if at < len {
                lemma_kept_remove(os, f, g, at, len);
            } else {
                lemma_kept_all(os, f, len);
                assert forall|o: int| 0 <= o < len implies #[trigger] f(o) == g(o) by {
                    assert(g(o) == (f(o) || o == at));
                }
                lemma_kept_same(os, f, g, len);
            }
        } else {
            assert forall|o: int| 0 <= o < len implies #[trigger] f(o) == g(o) by {
                if f(o) {
                    let i = choose|i: int|
                        0 <= i < n - 1 && #[trigger] xs[i] == (
                            t as usize,
                            e as usize,
                            o as usize,
                        );
                    assert(0 <= i < n && xs[i] == (t as usize, e as usize, o as usize));
                }
                if g(o) {
                    let i = choose|i: int|
                        0 <= i < n && #[trigger] xs[i] == (t as usize, e as usize, o as usize);
                    assert(i < n - 1);
                    assert(0 <= i < n - 1 && xs[i] == (t as usize, e as usize, o as usize));
                }
            }
            lemma_kept_same(os, f, g, len);
        }
    }
}

proof fn lemma_relaxed_obligations(spec: SpecView, ms: Seq<MutationView>, n: int, t: int, e: int)
    requires
        has_template(spec, t, e),
    ensures
        has_template(relaxed_upto(spec, ms, n), t, e),
        relaxed_upto(spec, ms, n).transitions[t].emits[e].requires_relation
            == spec.transitions[t].emits[e].requires_relation,
    decreases n,
{
    if n > 0 {
        lemma_relaxed_obligations(spec, ms, n - 1, t, e);
        lemma_relaxed_frame(relaxed_upto(spec, ms, n - 1), ms[n - 1]);
        assert(relaxed_upto(spec, ms, n).transitions[t].emits.len() == relaxed_upto(
            spec,
            ms,
            n - 1,
        ).transitions[t].emits.len());
    }
}

/// Of each effect's obligations, exactly those are dropped that a mutation names, by their
/// position in the specification as it was; whatever the order of the mutations, no removal
/// moves another. No obligation is named twice.
pub proof fn exactly_the_named_obligations_are_dropped(
    spec: SpecView,
    ms: Seq<MutationView>,
    t: int,
    e: int,
)
    requires
        drops_once(ms),
        has_template(spec, t, e),
        t <= usize::MAX,
        e <= usize::MAX,
        spec.transitions[t].emits[e].requires_relation.len() <= usize::MAX,
    ensures
        has_template(applied(spec, ms), t, e),
        ({
            let os = spec.transitions[t].emits[e].requires_relation;
            applied(spec, ms).transitions[t].emits[e].requires_relation == kept_obligations(
                os,
                dropped_by(ms, t, e),
                os.len() as int,
            )
        }),
{
    let n = ms.len() as int;
    let xs = drops_upto(ms, n);
    let os = spec.transitions[t].emits[e].requires_relation;
    lemma_drops(ms, n);
    lemma_relaxed_obligations(spec, ms, n, t, e);
    lemma_without_kept(relaxed_upto(spec, ms, n), xs, t, e, xs.len() as int);
    let f = dropped_in(xs, t, e, xs.len() as int);
    let g = dropped_by(ms, t, e);
    assert forall|o: int| 0 <= o < os.len() implies #[trigger] f(o) == g(o) by {
        let x = (t as usize, e as usize, o as usize);
        if f(o) {
            let i = choose|i: int| 0 <= i < xs.len() && #[trigger] xs[i] == x;
            assert(xs.contains(x));
        }
        if g(o) {
            assert(xs.contains(x));
            let i = xs.index_of(x);
            assert(0 <= i < xs.len() && xs[i] == x);
        }
    }
    lemma_kept_same(os, f, g, os.len() as int);
}

/// With no mutation nothing changes.
pub proof fn no_mutation_changes_nothing(spec: SpecView)
    ensures
        applied(spec, Seq::empty()) == spec,
{
}

} // verus!
