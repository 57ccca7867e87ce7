//! Mutations and the clauses that they relax.

use crate::index::{assigned, distinct_keys, lemma_assigned_old, lemma_lookup_at};
use crate::model::{
    classified, EffectTemplateView, PatternView, PrincipalView, RelationObligationView,
    RelationSchemaView, SpecView, TransitionView,
};
use crate::mutate::{
    all_mutants, applied, arg_mutants, drops_once, drops_upto, dropped_by, effect_mutants,
    exactly_the_named_obligations_are_dropped, guard_mutants, has_template, insert_drop,
    kept_obligations, lemma_kept_same, lemma_without_upto_frame, mutations_leave_the_flow_alone,
    obligation_mutants, principal_mutants, relation_mutants, relaxed, relaxed_upto, same_frame,
    transition_mutants, with_template, without, without_upto, MutationView,
};
use crate::text::Str;
use vstd::prelude::*;

verus! {

// ---------------------------------------------------------------------------
// Clauses
// ---------------------------------------------------------------------------
/// How many of the first `n` arguments do not take every value.
pub open spec fn bound_args(args: Seq<(Str, Str)>, n: int) -> nat
    decreases n,
{
    if n <= 0 {
        0
    } else {
        bound_args(args, n - 1) + if args[n - 1].1 == "*"@ {
            0nat
        } else {
            1nat
        }
    }
}

/// How many clauses an effect has: its obligations, and its arguments that do not take every
/// value.
pub open spec fn effect_clauses(v: EffectTemplateView) -> nat {
    v.requires_relation.len() + bound_args(v.args, v.args.len() as int)
}

/// How many clauses the first `n` effects have.
pub open spec fn clauses_of_effects(emits: Seq<EffectTemplateView>, n: int) -> nat
    decreases n,
{
    if n <= 0 {
        0
    } else {
        clauses_of_effects(emits, n - 1) + effect_clauses(emits[n - 1])
    }
}

/// How many clauses a transition has: those of its effects, and its guard.
pub open spec fn transition_clauses(t: TransitionView) -> nat {
    clauses_of_effects(t.emits, t.emits.len() as int) + if t.guard is Some {
        1nat
    } else {
        0nat
    }
}

/// How many clauses the first `n` transitions have.
pub open spec fn clauses_of_transitions(ts: Seq<TransitionView>, n: int) -> nat
    decreases n,
{
    if n <= 0 {
        0
    } else {
        clauses_of_transitions(ts, n - 1) + transition_clauses(ts[n - 1])
    }
}

/// How many of the first `n` principals are not anyone.
pub open spec fn bound_principals(ps: Seq<(Str, PrincipalView)>, n: int) -> nat
    decreases n,
{
    if n <= 0 {
        0
    } else {
        bound_principals(ps, n - 1) + if ps[n - 1].1.id_pattern == "*"@ {
            0nat
        } else {
            1nat
        }
    }
}

/// How many clauses a specification has: obligations, emitted arguments other than `*`,
/// guards, principals with a pattern other than `*`, and relations.
pub open spec fn clauses(spec: SpecView) -> nat {
    clauses_of_transitions(spec.transitions, spec.transitions.len() as int) + bound_principals(
        spec.principals,
        spec.principals.len() as int,
    ) + spec.relations.len()
}

/// Whether a mutation names a clause of the specification.
pub open spec fn names_clause(spec: SpecView, m: MutationView) -> bool {
    match m {
        MutationView::DropObligation { transition, emit, obligation } => has_template(
            spec,
            transition as int,
            emit as int,
        ) && obligation
            < spec.transitions[transition as int].emits[emit as int].requires_relation.len(),
        MutationView::LoosenArg { transition, emit, key } => has_template(
            spec,
            transition as int,
            emit as int,
        ) && binds_arg(spec.transitions[transition as int].emits[emit as int].args, key),
        MutationView::WidenPrincipal { name } => exists|i: int|
            0 <= i < spec.principals.len() && (#[trigger] spec.principals[i]).0 == name
                && spec.principals[i].1.id_pattern != "*"@,
        MutationView::RelaxRelation { name } => exists|i: int|
            0 <= i < spec.relations.len() && (#[trigger] spec.relations[i]).0 == name,
        MutationView::DropGuard { transition } => transition < spec.transitions.len()
            && spec.transitions[transition as int].guard is Some,
    }
}

/// Whether there is an argument with this key that does not take every value.
pub open spec fn binds_arg(args: Seq<(Str, Str)>, key: Str) -> bool {
    exists|k: int| 0 <= k < args.len() && (#[trigger] args[k]).0 == key && args[k].1 != "*"@
}

/// Whether no key of a table of the specification occurs twice.
pub open spec fn well_keyed(spec: SpecView) -> bool {
    &&& distinct_keys(spec.principals)
    &&& distinct_keys(spec.relations)
    &&& forall|t: int, e: int|
        has_template(spec, t, e) ==> distinct_keys(
            (#[trigger] spec.transitions[t].emits[e]).args,
        )
}

/// Whether positions in the specification fit a machine word.
pub open spec fn positions_fit(spec: SpecView) -> bool {
    &&& spec.transitions.len() <= usize::MAX
    &&& forall|t: int|
        0 <= t < spec.transitions.len() ==> (#[trigger] spec.transitions[t]).emits.len()
            <= usize::MAX
    &&& forall|t: int, e: int|
        has_template(spec, t, e) ==> (#[trigger] spec.transitions[t].emits[e]).requires_relation
            .len() <= usize::MAX
}

proof fn lemma_any_value(raw: Str)
    ensures
        classified(raw) == PatternView::Glob("*"@) <==> raw == "*"@,
{
    reveal_strlit("*");
    assert("*"@[0] == '*');
    assert("*"@.contains('*'));
}

proof fn lemma_obligation_mutants(
    t: TransitionView,
    ti: int,
    e: EffectTemplateView,
    ei: int,
    n: int,
)
    requires
        0 <= n,
    ensures
        obligation_mutants(t, ti, e, ei, n).len() == n,
        forall|j: int|
            0 <= j < n ==> (#[trigger] obligation_mutants(t, ti, e, ei, n)[j]).mutation == (
            MutationView::DropObligation {
                transition: ti as usize,
                emit: ei as usize,
                obligation: j as usize,
            }),
    decreases n,
{
    if n > 0 {
        lemma_obligation_mutants(t, ti, e, ei, n - 1);
    }
}

proof fn lemma_arg_mutants(t: TransitionView, ti: int, e: EffectTemplateView, ei: int, n: int)
    requires
        0 <= n <= e.args.len(),
    ensures
        arg_mutants(t, ti, e, ei, n).len() == bound_args(e.args, n),
        forall|j: int|
            0 <= j < arg_mutants(t, ti, e, ei, n).len() ==> {
                let m = (#[trigger] arg_mutants(t, ti, e, ei, n)[j]).mutation;
                &&& m matches MutationView::LoosenArg { transition, emit, key }
                &&& transition == ti as usize
                &&& emit == ei as usize
                &&& binds_arg(e.args, key)
            },
    decreases n,
{
    if n > 0 {
        lemma_arg_mutants(t, ti, e, ei, n - 1);
        lemma_any_value(e.args[n - 1].1);
        if e.args[n - 1].1 != "*"@ {
            assert(binds_arg(e.args, e.args[n - 1].0));
        }
    }
}

/// Whether a mutation names a clause of one of the first `n` effects of a transition.
spec fn names_effect_clause(t: TransitionView, ti: int, n: int, m: MutationView) -> bool {
    match m {
        MutationView::DropObligation { transition, emit, obligation } => transition == ti as usize
            && emit < n && obligation < t.emits[emit as int].requires_relation.len(),
        MutationView::LoosenArg { transition, emit, key } => transition == ti as usize && emit < n
            && binds_arg(t.emits[emit as int].args, key),
        _ => false,
    }
}

proof fn lemma_effect_mutants(t: TransitionView, ti: int, n: int)
    requires
        0 <= n <= t.emits.len(),
        n <= usize::MAX,
        forall|e: int|
            0 <= e < t.emits.len() ==> (#[trigger] t.emits[e]).requires_relation.len()
                <= usize::MAX,
    ensures
        effect_mutants(t, ti, n).len() == clauses_of_effects(t.emits, n),
        forall|j: int|
            0 <= j < effect_mutants(t, ti, n).len() ==> names_effect_clause(
                t,
                ti,
                n,
                (#[trigger] effect_mutants(t, ti, n)[j]).mutation,
            ),
    decreases n,
{
    if n > 0 {
        lemma_effect_mutants(t, ti, n - 1);
        let e = t.emits[n - 1];
        let a = effect_mutants(t, ti, n - 1);
        let b = obligation_mutants(t, ti, e, n - 1, e.requires_relation.len() as int);
        let c = arg_mutants(t, ti, e, n - 1, e.args.len() as int);
        lemma_obligation_mutants(t, ti, e, n - 1, e.requires_relation.len() as int);
        lemma_arg_mutants(t, ti, e, n - 1, e.args.len() as int);
        let all = effect_mutants(t, ti, n);
        assert(all == a + b + c);
        assert forall|j: int| 0 <= j < all.len() implies names_effect_clause(
            t,
            ti,
            n,
            (#[trigger] all[j]).mutation,
        ) by {
            if j < a.len() {
                assert(all[j] == a[j]);
            } else if j < a.len() + b.len() {
                assert(all[j] == b[j - a.len()]);
            } else {
                assert(all[j] == c[j - a.len() - b.len()]);
            }
        }
    }
}

proof fn lemma_transition_mutants(spec: SpecView, n: int)
    requires
        0 <= n <= spec.transitions.len(),
        positions_fit(spec),
    ensures
        transition_mutants(spec.transitions, n).len() == clauses_of_transitions(
            spec.transitions,
            n,
        ),
        forall|j: int|
            0 <= j < transition_mutants(spec.transitions, n).len() ==> names_clause(
                spec,
                (#[trigger] transition_mutants(spec.transitions, n)[j]).mutation,
            ),
    decreases n,
{
    if n > 0 {
        lemma_transition_mutants(spec, n - 1);
        let t = spec.transitions[n - 1];
        let a = transition_mutants(spec.transitions, n - 1);
        let b = effect_mutants(t, n - 1, t.emits.len() as int);
        let c = guard_mutants(t, n - 1);
        assert forall|e: int| 0 <= e < t.emits.len() implies (#[trigger]
        t.emits[e]).requires_relation.len() <= usize::MAX by {
            assert(has_template(spec, n - 1, e));
            assert(spec.transitions[n - 1].emits[e].requires_relation.len() <= usize::MAX);
        }
        lemma_effect_mutants(t, n - 1, t.emits.len() as int);
        let all = transition_mutants(spec.transitions, n);
        assert(all == a + b + c);
        assert forall|j: int| 0 <= j < all.len() implies names_clause(
            spec,
            (#[trigger] all[j]).mutation,
        ) by {
            if j < a.len() {
                assert(all[j] == a[j]);
            } else if j < a.len() + b.len() {
                assert(all[j] == b[j - a.len()]);
                assert(names_effect_clause(
                    t,
                    n - 1,
                    t.emits.len() as int,
                    b[j - a.len()].mutation,
                ));
            } else {
                assert(all[j] == c[j - a.len() - b.len()]);
            }
        }
    }
}

proof fn lemma_principal_mutants(spec: SpecView, n: int)
    requires
        0 <= n <= spec.principals.len(),
    ensures
        principal_mutants(spec.principals, n).len() == bound_principals(spec.principals, n),
        forall|j: int|
            0 <= j < principal_mutants(spec.principals, n).len() ==> names_clause(
                spec,
                (#[trigger] principal_mutants(spec.principals, n)[j]).mutation,
            ),
    decreases n,
{
    if n > 0 {
        lemma_principal_mutants(spec, n - 1);
        assert(spec.principals[n - 1].0 == spec.principals[n - 1].0);
    }
}

proof fn lemma_relation_mutants(spec: SpecView, n: int)
    requires
        0 <= n <= spec.relations.len(),
    ensures
        relation_mutants(spec.relations, n).len() == n,
        forall|j: int|
            0 <= j < relation_mutants(spec.relations, n).len() ==> names_clause(
                spec,
                (#[trigger] relation_mutants(spec.relations, n)[j]).mutation,
            ),
    decreases n,
{
    if n > 0 {
        lemma_relation_mutants(spec, n - 1);
        assert(spec.relations[n - 1].0 == spec.relations[n - 1].0);
    }
}

/// There is one mutant for each clause, and each names one.
pub proof fn one_mutant_for_each_clause(spec: SpecView)
    requires
        positions_fit(spec),
    ensures
        all_mutants(spec).len() == clauses(spec),
        forall|j: int|
            0 <= j < all_mutants(spec).len() ==> names_clause(
                spec,
                (#[trigger] all_mutants(spec)[j]).mutation,
            ),
{
    let a = transition_mutants(spec.transitions, spec.transitions.len() as int);
    let b = principal_mutants(spec.principals, spec.principals.len() as int);
    let c = relation_mutants(spec.relations, spec.relations.len() as int);
    lemma_transition_mutants(spec, spec.transitions.len() as int);
    lemma_principal_mutants(spec, spec.principals.len() as int);
    lemma_relation_mutants(spec, spec.relations.len() as int);
    let all = all_mutants(spec);
    assert(all == a + b + c);
    assert forall|j: int| 0 <= j < all.len() implies names_clause(
        spec,
        (#[trigger] all[j]).mutation,
    ) by {
        if j < a.len() {
            assert(all[j] == a[j]);
        } else if j < a.len() + b.len() {
            assert(all[j] == b[j - a.len()]);
        } else {
            assert(all[j] == c[j - a.len() - b.len()]);
        }
    }
}

// ---------------------------------------------------------------------------
// One mutation, one clause less
// ---------------------------------------------------------------------------
proof fn lemma_args_count(a: Seq<(Str, Str)>, b: Seq<(Str, Str)>, k: int, n: int)
    requires
        0 <= k < a.len(),
        n <= a.len(),
        b == a.update(k, (a[k].0, "*"@)),
        a[k].1 != "*"@,
    ensures
        bound_args(a, n) == bound_args(b, n) + if k < n {
            1nat
        } else {
            0nat
        },
    decreases n,
{
    if n > 0 {
        lemma_args_count(a, b, k, n - 1);
    }
}

proof fn lemma_effects_count(
    a: Seq<EffectTemplateView>,
    b: Seq<EffectTemplateView>,
    k: int,
    n: int,
)
    requires
        0 <= k < a.len(),
        n <= a.len(),
        b == a.update(k, b[k]),
        effect_clauses(a[k]) == effect_clauses(b[k]) + 1,
    ensures
        clauses_of_effects(a, n) == clauses_of_effects(b, n) + if k < n {
            1nat
        } else {
            0nat
        },
    decreases n,
{
    if n > 0 {
        lemma_effects_count(a, b, k, n - 1);
    }
}

proof fn lemma_transitions_count(
    a: Seq<TransitionView>,
    b: Seq<TransitionView>,
    k: int,
    n: int,
)
    requires
        0 <= k < a.len(),
        n <= a.len(),
        b == a.update(k, b[k]),
        transition_clauses(a[k]) == transition_clauses(b[k]) + 1,
    ensures
        clauses_of_transitions(a, n) == clauses_of_transitions(b, n) + if k < n {
            1nat
        } else {
            0nat
        },
    decreases n,
{
    if n > 0 {
        lemma_transitions_count(a, b, k, n - 1);
    }
}

proof fn lemma_principals_count(
    a: Seq<(Str, PrincipalView)>,
    b: Seq<(Str, PrincipalView)>,
    k: int,
    n: int,
)
    requires
        0 <= k < a.len(),
        n <= a.len(),
        b == a.update(k, b[k]),
        a[k].1.id_pattern != "*"@,
        b[k].1.id_pattern == "*"@,
    ensures
        bound_principals(a, n) == bound_principals(b, n) + if k < n {
            1nat
        } else {
            0nat
        },
    decreases n,
{
    if n > 0 {
        lemma_principals_count(a, b, k, n - 1);
    }
}

proof fn lemma_template_count(spec: SpecView, t: int, e: int, v: EffectTemplateView)
    requires
        has_template(spec, t, e),
        effect_clauses(spec.transitions[t].emits[e]) == effect_clauses(v) + 1,
    ensures
        clauses(with_template(spec, t, e, v)) + 1 == clauses(spec),
{
    let r = with_template(spec, t, e, v);
    let x = spec.transitions[t];
    let y = r.transitions[t];
    assert(y.emits == x.emits.update(e, y.emits[e]));
    lemma_effects_count(x.emits, y.emits, e, x.emits.len() as int);
    assert(r.transitions == spec.transitions.update(t, y));
    lemma_transitions_count(spec.transitions, r.transitions, t, spec.transitions.len() as int);
}

proof fn lemma_applied_one(spec: SpecView, m: MutationView)
    ensures
        applied(spec, seq![m]) == match m {
            MutationView::DropObligation { transition, emit, obligation } => without(
                spec,
                (transition, emit, obligation),
            ),
            _ => relaxed(spec, m),
        },
{
    let ms = seq![m];
    assert(relaxed_upto(spec, ms, 0) == spec);
    assert(relaxed_upto(spec, ms, 1) == relaxed(relaxed_upto(spec, ms, 0), ms[0]));
    assert(drops_upto(ms, 0) =~= Seq::empty());
    let drops = drops_upto(ms, 1);
    match m {
        MutationView::DropObligation { transition, emit, obligation } => {
            let x = (transition, emit, obligation);
            assert(drops == insert_drop(drops_upto(ms, 0), x));
            assert(drops =~= seq![x]);
            let base = relaxed_upto(spec, ms, 1);
            assert(without_upto(base, drops, 0) == base);
            assert(without_upto(base, drops, 1) == without(
                without_upto(base, drops, 0),
                drops[0],
            ));
        },
        _ => {
            assert(drops == drops_upto(ms, 0));
        },
    }
}

/// Making one mutation leaves one mutant less, except that a relation without its constraint
/// is still a relation.
pub proof fn each_mutation_uses_up_one_mutant(spec: SpecView, j: int)
    requires
        well_keyed(spec),
        positions_fit(spec),
        0 <= j < all_mutants(spec).len(),
    ensures
        ({
            let m = all_mutants(spec)[j].mutation;
            let left = all_mutants(applied(spec, seq![m])).len();
            if m is RelaxRelation {
                left == all_mutants(spec).len()
            } else {
                left + 1 == all_mutants(spec).len()
            }
        }),
{
    let m = all_mutants(spec)[j].mutation;
    let r = applied(spec, seq![m]);
    one_mutant_for_each_clause(spec);
    lemma_applied_one(spec, m);
    assert(names_clause(spec, m));
    match m {
        MutationView::DropObligation { transition, emit, obligation } => {
            let t = transition as int;
            let e = emit as int;
            let v = spec.transitions[t].emits[e];
            let w = EffectTemplateView {
                requires_relation: v.requires_relation.remove(obligation as int),
                ..v
            };
            assert(w.requires_relation.len() + 1 == v.requires_relation.len());
            lemma_template_count(spec, t, e, w);
        },
        MutationView::LoosenArg { transition, emit, key } => {
            let t = transition as int;
            let e = emit as int;
            let v = spec.transitions[t].emits[e];
            let w = EffectTemplateView { args: assigned(v.args, key, "*"@), ..v };
            let k = choose|k: int|
                0 <= k < v.args.len() && (#[trigger] v.args[k]).0 == key && v.args[k].1 != "*"@;
            assert(has_template(spec, t, e));
            assert(distinct_keys(spec.transitions[t].emits[e].args));
            lemma_assigned_old(v.args, k, "*"@);
            lemma_args_count(v.args, w.args, k, v.args.len() as int);
            lemma_template_count(spec, t, e, w);
        },
        MutationView::WidenPrincipal { name } => {
            let i = choose|i: int|
                0 <= i < spec.principals.len() && (#[trigger] spec.principals[i]).0 == name
                    && spec.principals[i].1.id_pattern != "*"@;
            let p = spec.principals[i].1;
            lemma_lookup_at(spec.principals, i);
            lemma_assigned_old(spec.principals, i, PrincipalView { id_pattern: "*"@, ..p });
            lemma_principals_count(
                spec.principals,
                r.principals,
                i,
                spec.principals.len() as int,
            );
        },
        MutationView::RelaxRelation { name } => {
            let i = choose|i: int|
                0 <= i < spec.relations.len() && (#[trigger] spec.relations[i]).0 == name;
            let s = spec.relations[i].1;
            lemma_lookup_at(spec.relations, i);
            lemma_assigned_old(
                spec.relations,
                i,
                RelationSchemaView { constraint: Seq::empty(), ..s },
            );
        },
        MutationView::DropGuard { transition } => {
            let t = transition as int;
            assert(r.transitions == spec.transitions.update(t, r.transitions[t]));
            lemma_transitions_count(
                spec.transitions,
                r.transitions,
                t,
                spec.transitions.len() as int,
            );
        },
    }
    assert(positions_fit(r)) by {
        mutations_leave_the_flow_alone(spec, seq![m]);
        lemma_still_fits(spec, m);
    }
    one_mutant_for_each_clause(r);
}

proof fn lemma_still_fits(spec: SpecView, m: MutationView)
    requires
        positions_fit(spec),
    ensures
        positions_fit(applied(spec, seq![m])),
{
    let r = applied(spec, seq![m]);
    lemma_applied_one(spec, m);
    mutations_leave_the_flow_alone(spec, seq![m]);
    assert forall|t: int| 0 <= t < r.transitions.len() implies (#[trigger]
    r.transitions[t]).emits.len() <= usize::MAX by {
        assert(spec.transitions[t].emits.len() <= usize::MAX);
    }
    assert forall|t: int, e: int| has_template(r, t, e) implies (#[trigger]
    r.transitions[t].emits[e]).requires_relation.len() <= usize::MAX by {
        assert(r.transitions[t].emits.len() == spec.transitions[t].emits.len());
        assert(has_template(spec, t, e));
        assert(spec.transitions[t].emits[e].requires_relation.len() <= usize::MAX);
    }
}

// ---------------------------------------------------------------------------
// Any number of mutations
// ---------------------------------------------------------------------------
/// The mutations of a list.
pub open spec fn listed(ms: Seq<MutationView>) -> Set<MutationView> {
    Set::new(|m: MutationView| ms.contains(m))
}

/// An effect with its named arguments loosened.
pub open spec fn loosened_effect(
    v: EffectTemplateView,
    s: Set<MutationView>,
    t: int,
    e: int,
) -> EffectTemplateView {
    EffectTemplateView {
        args: Seq::new(
            v.args.len(),
            |k: int|
                (
                    v.args[k].0,
                    if s.contains(
                        MutationView::LoosenArg {
                            transition: t as usize,
                            emit: e as usize,
                            key: v.args[k].0,
                        },
                    ) {
                        "*"@
                    } else {
                        v.args[k].1
                    },
                ),
        ),
        ..v
    }
}

/// A transition with its guard dropped and its arguments loosened where named.
pub open spec fn loosened_transition(
    x: TransitionView,
    s: Set<MutationView>,
    t: int,
) -> TransitionView {
    TransitionView {
        guard: if s.contains(MutationView::DropGuard { transition: t as usize }) {
            None
        } else {
            x.guard
        },
        emits: Seq::new(x.emits.len(), |e: int| loosened_effect(x.emits[e], s, t, e)),
        ..x
    }
}

/// The principals, those that are named being anyone.
pub open spec fn loosened_principals(
    ps: Seq<(Str, PrincipalView)>,
    s: Set<MutationView>,
) -> Seq<(Str, PrincipalView)> {
    Seq::new(
        ps.len(),
        |i: int|
            (
                ps[i].0,
                if s.contains(MutationView::WidenPrincipal { name: ps[i].0 }) {
                    PrincipalView { id_pattern: "*"@, ..ps[i].1 }
                } else {
                    ps[i].1
                },
            ),
    )
}

/// The relations, those that are named without their constraint.
pub open spec fn loosened_relations(
    rs: Seq<(Str, RelationSchemaView)>,
    s: Set<MutationView>,
) -> Seq<(Str, RelationSchemaView)> {
    Seq::new(
        rs.len(),
        |i: int|
            (
                rs[i].0,
                if s.contains(MutationView::RelaxRelation { name: rs[i].0 }) {
                    RelationSchemaView { constraint: Seq::empty(), ..rs[i].1 }
                } else {
                    rs[i].1
                },
            ),
    )
}

/// The specification with everything but obligations relaxed that a set of mutations names.
pub open spec fn loosened(spec: SpecView, s: Set<MutationView>) -> SpecView {
    SpecView {
        transitions: Seq::new(
            spec.transitions.len(),
            |t: int| loosened_transition(spec.transitions[t], s, t),
        ),
        principals: loosened_principals(spec.principals, s),
        relations: loosened_relations(spec.relations, s),
        ..spec
    }
}

/// The obligations of an effect that a set of mutations does not drop.
pub open spec fn undropped(
    v: EffectTemplateView,
    s: Set<MutationView>,
    t: int,
    e: int,
) -> Seq<RelationObligationView> {
    kept_obligations(
        v.requires_relation,
        |o: int|
            s.contains(
                MutationView::DropObligation {
                    transition: t as usize,
                    emit: e as usize,
                    obligation: o as usize,
                },
            ),
        v.requires_relation.len() as int,
    )
}

/// The specification in which each clause that a set of mutations names is relaxed, and each
/// other clause is as it was.
pub open spec fn mutated(spec: SpecView, s: Set<MutationView>) -> SpecView {
    let l = loosened(spec, s);
    SpecView {
        transitions: Seq::new(
            l.transitions.len(),
            |t: int|
                TransitionView {
                    emits: Seq::new(
                        l.transitions[t].emits.len(),
                        |e: int|
                            EffectTemplateView {
                                requires_relation: undropped(
                                    spec.transitions[t].emits[e],
                                    s,
                                    t,
                                    e,
                                ),
                                ..l.transitions[t].emits[e]
                            },
                    ),
                    ..l.transitions[t]
                },
        ),
        ..l
    }
}

proof fn lemma_loosened_none(spec: SpecView)
    ensures
        loosened(spec, Set::empty()) == spec,
{
    let s = Set::<MutationView>::empty();
    let l = loosened(spec, s);
    assert forall|t: int| 0 <= t < spec.transitions.len() implies #[trigger] l.transitions[t]
        == spec.transitions[t] by {
        let x = spec.transitions[t];
        let y = l.transitions[t];
        assert forall|e: int| 0 <= e < x.emits.len() implies #[trigger] y.emits[e] == x.emits[e] by {
            assert(y.emits[e].args =~= x.emits[e].args);
        }
        assert(y.emits =~= x.emits);
    }
    assert(l.transitions =~= spec.transitions);
    assert(l.principals =~= spec.principals);
    assert(l.relations =~= spec.relations);
}

/// One mutation more relaxes what it names.
proof fn lemma_loosened_more(spec: SpecView, s: Set<MutationView>, m: MutationView)
    requires
        well_keyed(spec),
        positions_fit(spec),
        names_clause(spec, m),
    ensures
        relaxed(loosened(spec, s), m) == loosened(spec, s.insert(m)),
{
    let a = loosened(spec, s);
    let b = loosened(spec, s.insert(m));
    let r = relaxed(a, m);
    match m {
        MutationView::WidenPrincipal { name } => {
            let i = choose|i: int|
                0 <= i < spec.principals.len() && (#[trigger] spec.principals[i]).0 == name
                    && spec.principals[i].1.id_pattern != "*"@;
            assert(a.principals[i].0 == name);
            assert(distinct_keys(a.principals)) by {
                assert forall|x: int, y: int| 0 <= x < y < a.principals.len() implies #[trigger]
                    a.principals[x].0 != #[trigger] a.principals[y].0 by {
                    assert(spec.principals[x].0 != spec.principals[y].0);
                }
            }
            lemma_lookup_at(a.principals, i);
            let p = a.principals[i].1;
            lemma_assigned_old(a.principals, i, PrincipalView { id_pattern: "*"@, ..p });
            assert forall|x: int| 0 <= x < r.principals.len() implies #[trigger] r.principals[x]
                == b.principals[x] by {
                if x != i {
                    if x < i {
                        assert(spec.principals[x].0 != spec.principals[i].0);
                    } else {
                        assert(spec.principals[i].0 != spec.principals[x].0);
                    }
                }
            }
            assert(r.principals =~= b.principals);
            lemma_alike(spec, s, m);
            assert(a.relations =~= b.relations);
        },
        MutationView::RelaxRelation { name } => {
            let i = choose|i: int|
                0 <= i < spec.relations.len() && (#[trigger] spec.relations[i]).0 == name;
            assert(a.relations[i].0 == name);
            assert(distinct_keys(a.relations)) by {
                assert forall|x: int, y: int| 0 <= x < y < a.relations.len() implies #[trigger]
                    a.relations[x].0 != #[trigger] a.relations[y].0 by {
                    assert(spec.relations[x].0 != spec.relations[y].0);
                }
            }
            lemma_lookup_at(a.relations, i);
            let p = a.relations[i].1;
            lemma_assigned_old(
                a.relations,
                i,
                RelationSchemaView { constraint: Seq::empty(), ..p },
            );
            assert forall|x: int| 0 <= x < r.relations.len() implies #[trigger] r.relations[x]
                == b.relations[x] by {
                if x != i {
                    if x < i {
                        assert(spec.relations[x].0 != spec.relations[i].0);
                    } else {
                        assert(spec.relations[i].0 != spec.relations[x].0);
                    }
                }
            }
            assert(r.relations =~= b.relations);
            lemma_alike(spec, s, m);
            assert(a.principals =~= b.principals);
        },
        MutationView::DropObligation { transition, emit, obligation } => {
            lemma_alike(spec, s, m);
            assert(a.principals =~= b.principals);
            assert(a.relations =~= b.relations);
        },
        MutationView::DropGuard { transition } => {
            assert(a.principals =~= b.principals);
            assert(a.relations =~= b.relations);
            assert forall|t: int| 0 <= t < r.transitions.len() implies #[trigger]
                r.transitions[t] == b.transitions[t] by {
                lemma_effects_alike(spec.transitions[t], s, m, t);
            }
            assert(r.transitions =~= b.transitions);
        },
        MutationView::LoosenArg { transition, emit, key } => {
            assert(a.principals =~= b.principals);
            assert(a.relations =~= b.relations);
            let t = transition as int;
            let e = emit as int;
            let v = spec.transitions[t].emits[e];
            let k = choose|k: int|
                0 <= k < v.args.len() && (#[trigger] v.args[k]).0 == key && v.args[k].1 != "*"@;
            let w = a.transitions[t].emits[e];
            assert(has_template(spec, t, e));
            assert(distinct_keys(spec.transitions[t].emits[e].args));
            assert(w == loosened_effect(v, s, t, e));
            assert(distinct_keys(w.args)) by {
                assert forall|x: int, y: int| 0 <= x < y < w.args.len() implies #[trigger]
                    w.args[x].0 != #[trigger] w.args[y].0 by {
                    assert(v.args[x].0 != v.args[y].0);
                }
            }
            assert(w.args[k].0 == key);
            lemma_assigned_old(w.args, k, "*"@);
            assert(has_template(a, t, e));
            assert(r.transitions[t].emits[e].args == w.args.update(k, (key, "*"@)));
            assert forall|x: int| 0 <= x < v.args.len() implies #[trigger] r.transitions[t].emits[
            e].args[x] == b.transitions[t].emits[e].args[x] by {
                if x < k {
                    assert(v.args[x].0 != v.args[k].0);
                } else if k < x {
                    assert(v.args[k].0 != v.args[x].0);
                }
            }
            assert(r.transitions[t].emits[e].args =~= b.transitions[t].emits[e].args);
            assert forall|u: int| 0 <= u < r.transitions.len() implies #[trigger]
                r.transitions[u] == b.transitions[u] by {
                if u != t {
                    assert(r.transitions[u] == a.transitions[u]);
                    lemma_effects_alike(spec.transitions[u], s, m, u);
                } else {
                    let x = r.transitions[t];
                    let y = b.transitions[t];
                    assert forall|d: int| 0 <= d < x.emits.len() implies #[trigger] x.emits[d]
                        == y.emits[d] by {
                        if d != e {
                            assert(x.emits[d] == a.transitions[t].emits[d]);
                            assert(d as usize != e as usize) by {
                                assert(spec.transitions[t].emits.len() <= usize::MAX);
                            }
                            lemma_args_alike(spec.transitions[t].emits[d], s, m, t, d);
                        }
                    }
                    assert(x.emits =~= y.emits);
                }
            }
            assert(r.transitions =~= b.transitions);
        },
    }
}

proof fn lemma_args_alike(
    v: EffectTemplateView,
    s: Set<MutationView>,
    m: MutationView,
    t: int,
    e: int,
)
    requires
        m matches MutationView::LoosenArg { transition, emit, .. } ==> transition != t as usize
            || emit != e as usize,
    ensures
        loosened_effect(v, s, t, e) == loosened_effect(v, s.insert(m), t, e),
{
    assert(loosened_effect(v, s, t, e).args =~= loosened_effect(v, s.insert(m), t, e).args);
}

proof fn lemma_effects_alike(x: TransitionView, s: Set<MutationView>, m: MutationView, t: int)
    requires
        m matches MutationView::LoosenArg { transition, .. } ==> transition != t as usize,
    ensures
        loosened_transition(x, s, t).emits == loosened_transition(x, s.insert(m), t).emits,
{
    let a = loosened_transition(x, s, t).emits;
    let b = loosened_transition(x, s.insert(m), t).emits;
    assert forall|e: int| 0 <= e < a.len() implies #[trigger] a[e] == b[e] by {
        lemma_args_alike(x.emits[e], s, m, t, e);
    }
    assert(a =~= b);
}

proof fn lemma_alike(spec: SpecView, s: Set<MutationView>, m: MutationView)
    requires
        !(m is LoosenArg),
        !(m is DropGuard),
    ensures
        loosened(spec, s).transitions == loosened(spec, s.insert(m)).transitions,
{
    let a = loosened(spec, s).transitions;
    let b = loosened(spec, s.insert(m)).transitions;
    assert forall|t: int| 0 <= t < a.len() implies #[trigger] a[t] == b[t] by {
        lemma_effects_alike(spec.transitions[t], s, m, t);
    }
    assert(a =~= b);
}

proof fn lemma_relaxed_is_loosened(spec: SpecView, ms: Seq<MutationView>, n: int)
    requires
        well_keyed(spec),
        positions_fit(spec),
        0 <= n <= ms.len(),
        forall|i: int| 0 <= i < ms.len() ==> names_clause(spec, #[trigger] ms[i]),
    ensures
        relaxed_upto(spec, ms, n) == loosened(spec, listed(ms.take(n))),
    decreases n,
{
    if n == 0 {
        assert(listed(ms.take(0)) =~= Set::empty());
        lemma_loosened_none(spec);
    } else {
        lemma_relaxed_is_loosened(spec, ms, n - 1);
        let s = listed(ms.take(n - 1));
        let m = ms[n - 1];
        lemma_loosened_more(spec, s, m);
        assert forall|x: MutationView| #[trigger] listed(ms.take(n)).contains(x) <==> s.insert(
            m,
        ).contains(x) by {
            if ms.take(n).contains(x) {
                let i = ms.take(n).index_of(x);
                if i < n - 1 {
                    assert(ms.take(n - 1)[i] == x);
                }
            }
            if ms.take(n - 1).contains(x) {
                assert(ms.take(n)[ms.take(n - 1).index_of(x)] == x);
            }
            if x == m {
                assert(ms.take(n)[n - 1] == x);
            }
        }
        assert(listed(ms.take(n)) =~= s.insert(m));
    }
}

/// Whether two specifications differ in obligations at most.
spec fn differ_in_obligations(a: SpecView, b: SpecView) -> bool {
    &&& same_frame(a, b)
    &&& a.principals == b.principals
    &&& a.relations == b.relations
    &&& forall|t: int|
        0 <= t < a.transitions.len() ==> (#[trigger] a.transitions[t]).guard
            == b.transitions[t].guard
    &&& forall|t: int, e: int|
        has_template(a, t, e) ==> (#[trigger] a.transitions[t].emits[e]).args
            == b.transitions[t].emits[e].args
}

proof fn lemma_without_rest(spec: SpecView, xs: Seq<(usize, usize, usize)>, n: int)
    ensures
        differ_in_obligations(without_upto(spec, xs, n), spec),
    decreases n,
{
    lemma_without_upto_frame(spec, xs, n);
    if n > 0 {
        lemma_without_rest(spec, xs, n - 1);
        let a = without_upto(spec, xs, n - 1);
        let x = xs[n - 1];
        let r = without_upto(spec, xs, n);
        assert(r == without(a, x));
        assert forall|t: int| 0 <= t < r.transitions.len() implies (#[trigger]
        r.transitions[t]).guard == spec.transitions[t].guard by {
            assert(a.transitions[t].guard == spec.transitions[t].guard);
        }
        assert forall|t: int, e: int| has_template(r, t, e) implies (#[trigger]
        r.transitions[t].emits[e]).args == spec.transitions[t].emits[e].args by {
            assert(has_template(a, t, e));
            assert(a.transitions[t].emits[e].args == spec.transitions[t].emits[e].args);
        }
    }
}

/// Mutations that each name a clause, no obligation twice, relax exactly the clauses that they
/// name: every other clause stays as it was.
pub proof fn exactly_the_named_clauses_are_relaxed(spec: SpecView, ms: Seq<MutationView>)
    requires
        well_keyed(spec),
        positions_fit(spec),
        drops_once(ms),
        forall|i: int| 0 <= i < ms.len() ==> names_clause(spec, #[trigger] ms[i]),
    ensures
        applied(spec, ms) == mutated(spec, listed(ms)),
{
    let n = ms.len() as int;
    let s = listed(ms);
    let drops = drops_upto(ms, n);
    let l = loosened(spec, s);
    let a = applied(spec, ms);
    let b = mutated(spec, s);
    assert(ms.take(n) =~= ms);
    lemma_relaxed_is_loosened(spec, ms, n);
    lemma_without_rest(l, drops, drops.len() as int);
    assert(differ_in_obligations(a, l));
    assert forall|t: int| 0 <= t < a.transitions.len() implies #[trigger] a.transitions[t]
        == b.transitions[t] by {
        let x = a.transitions[t];
        let y = b.transitions[t];
        assert(x.emits.len() == l.transitions[t].emits.len());
        assert forall|e: int| 0 <= e < x.emits.len() implies #[trigger] x.emits[e]
            == y.emits[e] by {
            assert(has_template(a, t, e) && has_template(spec, t, e));
            let v = spec.transitions[t].emits[e];
            assert(v.requires_relation.len() <= usize::MAX);
            assert(spec.transitions[t].emits.len() <= usize::MAX);
            exactly_the_named_obligations_are_dropped(spec, ms, t, e);
            let f = dropped_by(ms, t, e);
            let g = |o: int|
                s.contains(
                    MutationView::DropObligation {
                        transition: t as usize,
                        emit: e as usize,
                        obligation: o as usize,
                    },
                );
            assert forall|o: int| 0 <= o < v.requires_relation.len() implies #[trigger] f(o) == g(
                o,
            ) by {
                let m = MutationView::DropObligation {
                    transition: t as usize,
                    emit: e as usize,
                    obligation: o as usize,
                };
                if ms.contains(m) {
                    let i = ms.index_of(m);
                    assert(ms[i] == m);
                }
                if f(o) {
                    let i = choose|i: int| 0 <= i < ms.len() && #[trigger] ms[i] == m;
                    assert(ms.contains(m));
                }
            }
            lemma_kept_same(v.requires_relation, f, g, v.requires_relation.len() as int);
            assert(a.transitions[t].emits[e].args == l.transitions[t].emits[e].args);
            assert(x.emits[e].effect == l.transitions[t].emits[e].effect);
        }
        assert(x.emits =~= y.emits);
    }
    assert(a.transitions =~= b.transitions);
}

/// The order of mutations makes no difference, as long as each names a clause and no
/// obligation is named twice.
pub proof fn the_order_of_mutations_does_not_matter(
    spec: SpecView,
    ms: Seq<MutationView>,
    ns: Seq<MutationView>,
)
    requires
        well_keyed(spec),
        positions_fit(spec),
        drops_once(ms),
        drops_once(ns),
        forall|i: int| 0 <= i < ms.len() ==> names_clause(spec, #[trigger] ms[i]),
        forall|m: MutationView| #[trigger] ms.contains(m) <==> ns.contains(m),
    ensures
        applied(spec, ms) == applied(spec, ns),
{
    assert forall|i: int| 0 <= i < ns.len() implies names_clause(spec, #[trigger] ns[i]) by {
        assert(ns.contains(ns[i]));
        assert(ms.contains(ns[i]));
        let j = ms.index_of(ns[i]);
        assert(names_clause(spec, ms[j]));
    }
    exactly_the_named_clauses_are_relaxed(spec, ms);
    exactly_the_named_clauses_are_relaxed(spec, ns);
    assert(listed(ms) =~= listed(ns));
}

} // verus!
