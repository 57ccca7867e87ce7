//! What the checks of a specification report.
use crate::lint::{
    always_known, available_within, binds_var, bound_somewhere, fed, known_within,
    choice_faults, choices_with, copier_from, coverable, covered_within, dead_upto,
    effect_obligations, emitted_kinds, emitted_upto, flow_faults, guaranteed, invariant_fault,
    invariant_faults, kinds_of, linted, live, marked_places, marked_upto, name_faults,
    not_free_choice, obligation_error, obligation_faults, obligations_upto, place_faults,
    place_faults_upto, place_ids, reference_faults, references_upto, relation_fault,
    relation_faults, repeats, repeats_upto, transition_ids, unbound_vars, unknown_finals,
    unknown_places, unreachable_finals, variable_faults, DiagnosticView, Severity,
};
use crate::model::{
    classified, obligation_vars, template_vars, var_names, vars_of, EffectTemplateView,
    InvariantKindView, InvariantView, PlaceView, RelationObligationView, RelationSchemaView,
    SpecView, TransitionView,
};
use crate::ordered::{keys_of, lemma_put_items_contains, lookup, values_of};
use crate::search::{lemma_concat_contains, lemma_push_contains};
use crate::text::Str;
use vstd::prelude::*;

verus! {

/// Whether a diagnostic is an error with this code and this message.
pub open spec fn errs(d: DiagnosticView, code: Str, message: Str) -> bool {
    d.severity == Severity::Error && d.code == code && d.message == message
}

/// Whether a diagnostic is a warning with this code and this message.
pub open spec fn warns(d: DiagnosticView, code: Str, message: Str) -> bool {
    d.severity == Severity::Warning && d.code == code && d.message == message
}

/// Whether a specification declares a place of this name.
pub open spec fn declares_place(spec: SpecView, p: Str) -> bool {
    exists|i: int| 0 <= i < spec.places.len() && (#[trigger] spec.places[i]).id == p
}

/// Whether a place of this name holds a token from the start.
pub open spec fn starts_marked(spec: SpecView, p: Str) -> bool {
    exists|i: int|
        0 <= i < spec.places.len() && (#[trigger] spec.places[i]).id == p
            && spec.places[i].tokens.len() > 0
}

/// Whether some transition emits effects of this kind.
pub open spec fn emits_kind(spec: SpecView, kind: Str) -> bool {
    exists|t: int, e: int|
        #![trigger spec.transitions[t].emits[e]]
        0 <= t < spec.transitions.len() && 0 <= e < spec.transitions[t].emits.len()
            && spec.transitions[t].emits[e].effect == kind
}

proof fn lemma_place_ids(spec: SpecView, p: Str)
    ensures
        place_ids(spec).contains(p) <==> declares_place(spec, p),
{
    if declares_place(spec, p) {
        let i = choose|i: int| 0 <= i < spec.places.len() && (#[trigger] spec.places[i]).id == p;
        assert(place_ids(spec)[i] == p);
    }
}

proof fn lemma_marked(ps: Seq<PlaceView>, n: int, p: Str)
    requires
        0 <= n <= ps.len(),
    ensures
        marked_upto(ps, n).contains(p) <==> exists|i: int|
            0 <= i < n && (#[trigger] ps[i]).id == p && ps[i].tokens.len() > 0,
    decreases n,
{
    if n > 0 {
        lemma_marked(ps, n - 1, p);
        lemma_push_contains(marked_upto(ps, n - 1), ps[n - 1].id, p);
    }
}

proof fn lemma_marked_places(spec: SpecView, p: Str)
    ensures
        marked_places(spec).contains(p) <==> starts_marked(spec, p),
{
    lemma_marked(spec.places, spec.places.len() as int, p);
}

proof fn lemma_kinds(es: Seq<EffectTemplateView>, n: int, kind: Str)
    requires
        0 <= n <= es.len(),
    ensures
        kinds_of(es, n).contains(kind) <==> exists|e: int|
            0 <= e < n && (#[trigger] es[e]).effect == kind,
    decreases n,
{
    if n > 0 {
        lemma_kinds(es, n - 1, kind);
        lemma_push_contains(kinds_of(es, n - 1), es[n - 1].effect, kind);
    }
}

proof fn lemma_emitted(ts: Seq<TransitionView>, n: int, kind: Str)
    requires
        0 <= n <= ts.len(),
    ensures
        emitted_upto(ts, n).contains(kind) <==> exists|t: int, e: int|
            #![trigger ts[t].emits[e]]
            0 <= t < n && 0 <= e < ts[t].emits.len() && ts[t].emits[e].effect == kind,
    decreases n,
{
    if n > 0 {
        lemma_emitted(ts, n - 1, kind);
        let es = ts[n - 1].emits;
        lemma_kinds(es, es.len() as int, kind);
        lemma_concat_contains(emitted_upto(ts, n - 1), kinds_of(es, es.len() as int), kind);
        if kinds_of(es, es.len() as int).contains(kind) {
            let e = choose|e: int| 0 <= e < es.len() && (#[trigger] es[e]).effect == kind;
            assert(ts[n - 1].emits[e].effect == kind);
        }
    }
}

proof fn lemma_emitted_kinds(spec: SpecView, kind: Str)
    ensures
        emitted_kinds(spec).contains(kind) <==> emits_kind(spec, kind),
{
    lemma_emitted(spec.transitions, spec.transitions.len() as int, kind);
}

// ---------------------------------------------------------------------------
// Names
// ---------------------------------------------------------------------------
proof fn lemma_repeats(ids: Seq<Str>, code: Str, what: Str, n: int, d: DiagnosticView)
    requires
        0 <= n <= ids.len(),
    ensures
        repeats_upto(ids, code, what, n).contains(d) <==> exists|i: int, j: int|
            0 <= i < j < n && #[trigger] ids[i] == #[trigger] ids[j] && errs(
                d,
                code,
                what + ids[j] + "`"@,
            ),
    decreases n,
{
    if n > 0 {
        lemma_repeats(ids, code, what, n - 1, d);
        let told = DiagnosticView {
            severity: Severity::Error,
            code,
            message: what + ids[n - 1] + "`"@,
        };
        lemma_push_contains(repeats_upto(ids, code, what, n - 1), told, d);
        if repeats(ids, n - 1) {
            let i = ids.take(n - 1).index_of(ids[n - 1]);
            assert(ids.take(n - 1)[i] == ids[i]);
            assert(ids[i] == ids[n - 1]);
        }
        if exists|i: int, j: int|
            0 <= i < j < n && #[trigger] ids[i] == #[trigger] ids[j] && errs(
                d,
                code,
                what + ids[j] + "`"@,
            ) {
            let (i, j) = choose|i: int, j: int|
                0 <= i < j < n && #[trigger] ids[i] == #[trigger] ids[j] && errs(
                    d,
                    code,
                    what + ids[j] + "`"@,
                );
            if j == n - 1 {
                assert(ids.take(n - 1)[i] == ids[n - 1]);
                assert(d == told);
            }
        }
    }
}

proof fn lemma_unknown_places(
    id: Str,
    names: Seq<Str>,
    known: Seq<Str>,
    n: int,
    d: DiagnosticView,
)
    requires
        0 <= n <= names.len(),
    ensures
        unknown_places(id, names, known, n).contains(d) <==> exists|i: int|
            0 <= i < n && !known.contains(#[trigger] names[i]) && errs(
                d,
                "W003"@,
                "transition `"@ + id + "` references unknown place `"@ + names[i] + "`"@,
            ),
    decreases n,
{
    if n > 0 {
        lemma_unknown_places(id, names, known, n - 1, d);
        let told = DiagnosticView {
            severity: Severity::Error,
            code: "W003"@,
            message: "transition `"@ + id + "` references unknown place `"@ + names[n - 1] + "`"@,
        };
        lemma_push_contains(unknown_places(id, names, known, n - 1), told, d);
        assert(errs(d, "W003"@, told.message) ==> d == told);
    }
}

/// Whether a diagnostic tells what is wrong with the names that a transition uses: it takes
/// tokens from, or puts tokens into, a place that is not declared; its principal is not declared;
/// or it does neither take nor put any.
pub open spec fn tells_of_references(spec: SpecView, t: TransitionView, d: DiagnosticView) -> bool {
    ||| exists|c: int|
        0 <= c < t.consumes.len() && !declares_place(spec, #[trigger] t.consumes[c]) && errs(
            d,
            "W003"@,
            "transition `"@ + t.id + "` references unknown place `"@ + t.consumes[c] + "`"@,
        )
    ||| exists|c: int|
        0 <= c < t.produces.len() && !declares_place(spec, #[trigger] t.produces[c]) && errs(
            d,
            "W003"@,
            "transition `"@ + t.id + "` references unknown place `"@ + t.produces[c] + "`"@,
        )
    ||| lookup(spec.principals, t.principal) is None && errs(
        d,
        "W004"@,
        "transition `"@ + t.id + "` references unknown principal `"@ + t.principal + "`"@,
    )
    ||| t.consumes.len() == 0 && t.produces.len() == 0 && errs(
        d,
        "W005"@,
        "transition `"@ + t.id + "` is vacuous"@,
    )
}

proof fn lemma_single(e: DiagnosticView, d: DiagnosticView)
    ensures
        seq![e].contains(d) <==> d == e,
{
    assert(seq![e][0] == e);
}

proof fn lemma_reference_faults(spec: SpecView, t: TransitionView, d: DiagnosticView)
    ensures
        reference_faults(spec, t).contains(d) <==> tells_of_references(spec, t, d),
{
    let known = place_ids(spec);
    let taken = unknown_places(t.id, t.consumes, known, t.consumes.len() as int);
    let put = unknown_places(t.id, t.produces, known, t.produces.len() as int);
    let who = DiagnosticView {
        severity: Severity::Error,
        code: "W004"@,
        message: "transition `"@ + t.id + "` references unknown principal `"@ + t.principal + "`"@,
    };
    let idle = DiagnosticView {
        severity: Severity::Error,
        code: "W005"@,
        message: "transition `"@ + t.id + "` is vacuous"@,
    };
    let principal: Seq<DiagnosticView> = if lookup(spec.principals, t.principal) is None {
        seq![who]
    } else {
        Seq::empty()
    };
    let vacuous: Seq<DiagnosticView> = if t.consumes.len() == 0 && t.produces.len() == 0 {
        seq![idle]
    } else {
        Seq::empty()
    };
    lemma_unknown_places(t.id, t.consumes, known, t.consumes.len() as int, d);
    lemma_unknown_places(t.id, t.produces, known, t.produces.len() as int, d);
    assert forall|p: Str| known.contains(p) == #[trigger] declares_place(spec, p) by {
        lemma_place_ids(spec, p);
    }
    lemma_single(who, d);
    lemma_single(idle, d);
    lemma_concat_contains(taken, put, d);
    lemma_concat_contains(taken + put, principal, d);
    lemma_concat_contains(taken + put + principal, vacuous, d);
    assert(reference_faults(spec, t) == taken + put + principal + vacuous);
    assert(taken.contains(d) <==> exists|c: int|
        0 <= c < t.consumes.len() && !declares_place(spec, #[trigger] t.consumes[c]) && errs(
            d,
            "W003"@,
            "transition `"@ + t.id + "` references unknown place `"@ + t.consumes[c] + "`"@,
        ));
    assert(put.contains(d) <==> exists|c: int|
        0 <= c < t.produces.len() && !declares_place(spec, #[trigger] t.produces[c]) && errs(
            d,
            "W003"@,
            "transition `"@ + t.id + "` references unknown place `"@ + t.produces[c] + "`"@,
        ));
}

proof fn lemma_references(spec: SpecView, n: int, d: DiagnosticView)
    requires
        0 <= n <= spec.transitions.len(),
    ensures
        references_upto(spec, n).contains(d) <==> exists|t: int|
            0 <= t < n && tells_of_references(spec, #[trigger] spec.transitions[t], d),
    decreases n,
{
    if n > 0 {
        lemma_references(spec, n - 1, d);
        lemma_reference_faults(spec, spec.transitions[n - 1], d);
        lemma_concat_contains(
            references_upto(spec, n - 1),
            reference_faults(spec, spec.transitions[n - 1]),
            d,
        );
    }
}

proof fn lemma_unknown_finals(spec: SpecView, n: int, d: DiagnosticView)
    requires
        0 <= n <= spec.final_places.len(),
    ensures
        unknown_finals(spec, n).contains(d) <==> exists|f: int|
            0 <= f < n && !declares_place(spec, #[trigger] spec.final_places[f]) && errs(
                d,
                "W007"@,
                "unknown final place `"@ + spec.final_places[f] + "`"@,
            ),
    decreases n,
{
    if n > 0 {
        lemma_unknown_finals(spec, n - 1, d);
        lemma_place_ids(spec, spec.final_places[n - 1]);
        let told = DiagnosticView {
            severity: Severity::Error,
            code: "W007"@,
            message: "unknown final place `"@ + spec.final_places[n - 1] + "`"@,
        };
        lemma_push_contains(unknown_finals(spec, n - 1), told, d);
        assert(errs(d, "W007"@, told.message) ==> d == told);
    }
}

/// Whether a diagnostic tells what is wrong with the names of a specification.
pub open spec fn tells_of_names(spec: SpecView, d: DiagnosticView) -> bool {
    ||| exists|i: int, j: int|
        0 <= i < j < spec.places.len() && (#[trigger] spec.places[i]).id == (
        #[trigger] spec.places[j]).id && errs(
            d,
            "W001"@,
            "duplicate place id `"@ + spec.places[j].id + "`"@,
        )
    ||| exists|i: int, j: int|
        0 <= i < j < spec.transitions.len() && (#[trigger] spec.transitions[i]).id == (
        #[trigger] spec.transitions[j]).id && errs(
            d,
            "W002"@,
            "duplicate transition id `"@ + spec.transitions[j].id + "`"@,
        )
    ||| exists|t: int|
        0 <= t < spec.transitions.len() && tells_of_references(
            spec,
            #[trigger] spec.transitions[t],
            d,
        )
    ||| spec.final_places.len() == 0 && errs(
        d,
        "W006"@,
        "specification declares no final places"@,
    )
    ||| exists|f: int|
        0 <= f < spec.final_places.len() && !declares_place(spec, #[trigger] spec.final_places[f])
            && errs(d, "W007"@, "unknown final place `"@ + spec.final_places[f] + "`"@)
    ||| (forall|p: Str| !(#[trigger] starts_marked(spec, p))) && errs(
        d,
        "W008"@,
        "initial marking is empty"@,
    )
}

/// What is reported of names is what is wrong with them, and no more: a name that is declared
/// twice, a transition that takes from or puts into a place that nobody declared, a principal
/// or a final place that nobody declared, a transition that does nothing, and a specification
/// without a final place or without a token.
pub proof fn what_is_reported_of_names(spec: SpecView, d: DiagnosticView)
    ensures
        name_faults(spec).contains(d) <==> tells_of_names(spec, d),
{
    let places = place_ids(spec);
    let transitions = transition_ids(spec);
    let a = repeats_upto(places, "W001"@, "duplicate place id `"@, spec.places.len() as int);
    let b = repeats_upto(
        transitions,
        "W002"@,
        "duplicate transition id `"@,
        spec.transitions.len() as int,
    );
    let c = references_upto(spec, spec.transitions.len() as int);
    let none = DiagnosticView {
        severity: Severity::Error,
        code: "W006"@,
        message: "specification declares no final places"@,
    };
    let empty = DiagnosticView {
        severity: Severity::Error,
        code: "W008"@,
        message: "initial marking is empty"@,
    };
    let e: Seq<DiagnosticView> = if spec.final_places.len() == 0 {
        seq![none]
    } else {
        Seq::empty()
    };
    let f = unknown_finals(spec, spec.final_places.len() as int);
    let g: Seq<DiagnosticView> = if marked_places(spec).len() == 0 {
        seq![empty]
    } else {
        Seq::empty()
    };
    lemma_repeats(places, "W001"@, "duplicate place id `"@, spec.places.len() as int, d);
    lemma_repeats(
        transitions,
        "W002"@,
        "duplicate transition id `"@,
        spec.transitions.len() as int,
        d,
    );
    assert(a.contains(d) <==> exists|i: int, j: int|
        0 <= i < j < spec.places.len() && (#[trigger] spec.places[i]).id == (
        #[trigger] spec.places[j]).id && errs(
            d,
            "W001"@,
            "duplicate place id `"@ + spec.places[j].id + "`"@,
        )) by {
        assert forall|i: int| 0 <= i < spec.places.len() implies places[i] == (
        #[trigger] spec.places[i]).id by {}
        if a.contains(d) {
            let (i, j) = choose|i: int, j: int|
                0 <= i < j < spec.places.len() && #[trigger] places[i] == #[trigger] places[j]
                    && errs(d, "W001"@, "duplicate place id `"@ + places[j] + "`"@);
            assert(spec.places[i].id == spec.places[j].id);
        }
    }
    assert(b.contains(d) <==> exists|i: int, j: int|
        0 <= i < j < spec.transitions.len() && (#[trigger] spec.transitions[i]).id == (
        #[trigger] spec.transitions[j]).id && errs(
            d,
            "W002"@,
            "duplicate transition id `"@ + spec.transitions[j].id + "`"@,
        )) by {
        assert forall|i: int| 0 <= i < spec.transitions.len() implies transitions[i] == (
        #[trigger] spec.transitions[i]).id by {}
        if b.contains(d) {
            let (i, j) = choose|i: int, j: int|
                0 <= i < j < spec.transitions.len() && #[trigger] transitions[i]
                    == #[trigger] transitions[j] && errs(
                    d,
                    "W002"@,
                    "duplicate transition id `"@ + transitions[j] + "`"@,
                );
            assert(spec.transitions[i].id == spec.transitions[j].id);
        }
    }
    lemma_references(spec, spec.transitions.len() as int, d);
    lemma_unknown_finals(spec, spec.final_places.len() as int, d);
    lemma_single(none, d);
    lemma_single(empty, d);
    assert((marked_places(spec).len() == 0) == (forall|p: Str| !(#[trigger] starts_marked(spec, p))))
        by {
        assert forall|p: Str| marked_places(spec).contains(p) == #[trigger] starts_marked(
            spec,
            p,
        ) by {
            lemma_marked_places(spec, p);
        }
        if marked_places(spec).len() > 0 {
            assert(marked_places(spec).contains(marked_places(spec)[0]));
            assert(starts_marked(spec, marked_places(spec)[0]));
        }
    }
    lemma_concat_contains(a, b, d);
    lemma_concat_contains(a + b, c, d);
    lemma_concat_contains(a + b + c, e, d);
    lemma_concat_contains(a + b + c + e, f, d);
    lemma_concat_contains(a + b + c + e + f, g, d);
    assert(name_faults(spec) == a + b + c + e + f + g);
}

// ---------------------------------------------------------------------------
// Flow
// ---------------------------------------------------------------------------
/// A place can be covered where it is marked from the start, and where a transition puts into it
/// whose every input can be covered.
pub proof fn tokens_flow_along_transitions(spec: SpecView, p: Str, t: int)
    ensures
        starts_marked(spec, p) ==> coverable(spec, p),
        0 <= t < spec.transitions.len() && spec.transitions[t].produces.contains(p) && (forall|
            c: int,
        |
            0 <= c < spec.transitions[t].consumes.len() ==> coverable(
                spec,
                #[trigger] spec.transitions[t].consumes[c],
            )) ==> coverable(spec, p),
{
    lemma_marked_places(spec, p);
    if starts_marked(spec, p) {
        assert(covered_within(spec, 0, p));
    }
    if 0 <= t < spec.transitions.len() && spec.transitions[t].produces.contains(p) && (forall|
        c: int,
    |
        0 <= c < spec.transitions[t].consumes.len() ==> coverable(
            spec,
            #[trigger] spec.transitions[t].consumes[c],
        )) {
        let k = lemma_rounds(spec, spec.transitions[t].consumes);
        assert(covered_within(spec, k + 1, p)) by {
            assert(((k + 1) - 1) as nat == k);
            assert(spec.transitions[t].produces.contains(p));
        }
    }
}

proof fn lemma_covered_on(spec: SpecView, k: nat, l: nat, p: Str)
    requires
        covered_within(spec, k, p),
        k <= l,
    ensures
        covered_within(spec, l, p),
    decreases l,
{
    if k < l {
        lemma_covered_on(spec, k, (l - 1) as nat, p);
    }
}

proof fn lemma_rounds(spec: SpecView, ps: Seq<Str>) -> (k: nat)
    requires
        forall|c: int| 0 <= c < ps.len() ==> coverable(spec, #[trigger] ps[c]),
    ensures
        forall|c: int| 0 <= c < ps.len() ==> covered_within(spec, k, #[trigger] ps[c]),
    decreases ps.len(),
{
    if ps.len() == 0 {
        0
    } else {
        let head = ps.drop_last();
        assert forall|c: int| 0 <= c < head.len() implies coverable(spec, #[trigger] head[c]) by {
            assert(head[c] == ps[c]);
        }
        let a = lemma_rounds(spec, head);
        assert(coverable(spec, ps[ps.len() - 1]));
        let b = choose|b: nat| #[trigger] covered_within(spec, b, ps[ps.len() - 1]);
        let k = if a < b {
            b
        } else {
            a
        };
        assert forall|c: int| 0 <= c < ps.len() implies covered_within(
            spec,
            k,
            #[trigger] ps[c],
        ) by {
            if c < head.len() {
                assert(head[c] == ps[c]);
                lemma_covered_on(spec, a, k, ps[c]);
            } else {
                lemma_covered_on(spec, b, k, ps[c]);
            }
        }
        k
    }
}

/// Nothing else can be covered: every set of places that holds those marked from the start, and
/// what a transition puts into wherever it holds its inputs, holds all that can be covered.
pub proof fn tokens_flow_no_other_way(spec: SpecView, reached: spec_fn(Str) -> bool, p: Str)
    requires
        forall|q: Str| #[trigger] starts_marked(spec, q) ==> reached(q),
        forall|t: int, q: Str|
            0 <= t < spec.transitions.len() && #[trigger] spec.transitions[t].produces.contains(q)
                && (forall|c: int|
                0 <= c < spec.transitions[t].consumes.len() ==> reached(
                    #[trigger] spec.transitions[t].consumes[c],
                )) ==> reached(q),
        coverable(spec, p),
    ensures
        reached(p),
{
    let k = choose|k: nat| #[trigger] covered_within(spec, k, p);
    lemma_reached(spec, reached, k, p);
}

proof fn lemma_reached(spec: SpecView, reached: spec_fn(Str) -> bool, k: nat, p: Str)
    requires
        forall|q: Str| #[trigger] starts_marked(spec, q) ==> reached(q),
        forall|t: int, q: Str|
            0 <= t < spec.transitions.len() && #[trigger] spec.transitions[t].produces.contains(q)
                && (forall|c: int|
                0 <= c < spec.transitions[t].consumes.len() ==> reached(
                    #[trigger] spec.transitions[t].consumes[c],
                )) ==> reached(q),
        covered_within(spec, k, p),
    ensures
        reached(p),
    decreases k,
{
    if k == 0 {
        lemma_marked_places(spec, p);
        assert(starts_marked(spec, p));
    } else if covered_within(spec, (k - 1) as nat, p) {
        lemma_reached(spec, reached, (k - 1) as nat, p);
    } else {
        let t = choose|t: int|
            0 <= t < spec.transitions.len() && (#[trigger] spec.transitions[t]).produces.contains(p)
                && forall|c: int|
                0 <= c < spec.transitions[t].consumes.len() ==> covered_within(
                    spec,
                    (k - 1) as nat,
                    #[trigger] spec.transitions[t].consumes[c],
                );
        assert forall|c: int| 0 <= c < spec.transitions[t].consumes.len() implies reached(
            #[trigger] spec.transitions[t].consumes[c],
        ) by {
            lemma_reached(spec, reached, (k - 1) as nat, spec.transitions[t].consumes[c]);
        }
        assert(spec.transitions[t].produces.contains(p));
    }
}

/// Whether a transition of this name has inputs that can all be covered.
pub open spec fn can_start(spec: SpecView, id: Str) -> bool {
    exists|t: int|
        0 <= t < spec.transitions.len() && (#[trigger] spec.transitions[t]).id == id && forall|
            c: int,
        |
            0 <= c < spec.transitions[t].consumes.len() ==> coverable(
                spec,
                #[trigger] spec.transitions[t].consumes[c],
            )
}

proof fn lemma_live(spec: SpecView, id: Str)
    ensures
        live(spec, id) <==> can_start(spec, id),
{
    if live(spec, id) {
        let t = choose|t: int|
            0 <= t < spec.transitions.len() && (#[trigger] spec.transitions[t]).id == id
                && crate::lint::enabled(spec, spec.transitions[t]);
        assert(spec.transitions[t].id == id);
    }
    if can_start(spec, id) {
        let t = choose|t: int|
            0 <= t < spec.transitions.len() && (#[trigger] spec.transitions[t]).id == id && forall|
                c: int,
            |
                0 <= c < spec.transitions[t].consumes.len() ==> coverable(
                    spec,
                    #[trigger] spec.transitions[t].consumes[c],
                );
        assert(crate::lint::enabled(spec, spec.transitions[t]));
    }
}

proof fn lemma_dead(spec: SpecView, n: int, d: DiagnosticView)
    requires
        0 <= n <= spec.transitions.len(),
    ensures
        dead_upto(spec, n).contains(d) <==> exists|t: int|
            0 <= t < n && !can_start(spec, (#[trigger] spec.transitions[t]).id) && errs(
                d,
                "W009"@,
                "transition `"@ + spec.transitions[t].id
                    + "` is dead: never structurally enabled"@,
            ),
    decreases n,
{
    if n > 0 {
        lemma_dead(spec, n - 1, d);
        lemma_live(spec, spec.transitions[n - 1].id);
        let told = DiagnosticView {
            severity: Severity::Error,
            code: "W009"@,
            message: "transition `"@ + spec.transitions[n - 1].id
                + "` is dead: never structurally enabled"@,
        };
        lemma_push_contains(dead_upto(spec, n - 1), told, d);
        assert(errs(d, "W009"@, told.message) ==> d == told);
    }
}

proof fn lemma_unreachable(spec: SpecView, n: int, d: DiagnosticView)
    requires
        0 <= n <= spec.final_places.len(),
    ensures
        unreachable_finals(spec, n).contains(d) <==> exists|f: int|
            0 <= f < n && !coverable(spec, #[trigger] spec.final_places[f]) && errs(
                d,
                "W010"@,
                "improper completion: final place `"@ + spec.final_places[f]
                    + "` is unreachable"@,
            ),
    decreases n,
{
    if n > 0 {
        lemma_unreachable(spec, n - 1, d);
        let told = DiagnosticView {
            severity: Severity::Error,
            code: "W010"@,
            message: "improper completion: final place `"@ + spec.final_places[n - 1]
                + "` is unreachable"@,
        };
        lemma_push_contains(unreachable_finals(spec, n - 1), told, d);
        assert(errs(d, "W010"@, told.message) ==> d == told);
    }
}

/// Whether some transition puts into a place.
pub open spec fn is_put_into(spec: SpecView, p: Str) -> bool {
    exists|t: int|
        0 <= t < spec.transitions.len() && (#[trigger] spec.transitions[t]).produces.contains(p)
}

/// Whether some transition takes from a place.
pub open spec fn is_taken_from(spec: SpecView, p: Str) -> bool {
    exists|t: int|
        0 <= t < spec.transitions.len() && (#[trigger] spec.transitions[t]).consumes.contains(p)
}

/// Whether a diagnostic tells what is wrong with a place.
pub open spec fn tells_of_place(spec: SpecView, p: Str, d: DiagnosticView) -> bool {
    ||| !is_put_into(spec, p) && !is_taken_from(spec, p) && warns(
        d,
        "W011"@,
        "place `"@ + p + "` is isolated"@,
    )
    ||| !is_put_into(spec, p) && !starts_marked(spec, p) && errs(
        d,
        "W012"@,
        "place `"@ + p + "` is never marked and never produced"@,
    )
}

proof fn lemma_place_faults(spec: SpecView, n: int, d: DiagnosticView)
    requires
        0 <= n <= spec.places.len(),
    ensures
        place_faults_upto(spec, n).contains(d) <==> exists|i: int|
            0 <= i < n && tells_of_place(spec, (#[trigger] spec.places[i]).id, d),
    decreases n,
{
    if n > 0 {
        lemma_place_faults(spec, n - 1, d);
        let p = spec.places[n - 1].id;
        lemma_marked_places(spec, p);
        let alone = DiagnosticView {
            severity: Severity::Warning,
            code: "W011"@,
            message: "place `"@ + p + "` is isolated"@,
        };
        let never = DiagnosticView {
            severity: Severity::Error,
            code: "W012"@,
            message: "place `"@ + p + "` is never marked and never produced"@,
        };
        let a: Seq<DiagnosticView> = if !is_put_into(spec, p) && !is_taken_from(spec, p) {
            seq![alone]
        } else {
            Seq::empty()
        };
        let b: Seq<DiagnosticView> = if !is_put_into(spec, p) && !starts_marked(spec, p) {
            seq![never]
        } else {
            Seq::empty()
        };
        lemma_single(alone, d);
        lemma_single(never, d);
        lemma_concat_contains(a, b, d);
        assert(place_faults(spec, p) == a + b);
        lemma_concat_contains(place_faults_upto(spec, n - 1), place_faults(spec, p), d);
        assert((a + b).contains(d) == tells_of_place(spec, p, d));
    }
}

/// Whether a diagnostic tells of a part of the net that no token can get to.
pub open spec fn tells_of_flow(spec: SpecView, d: DiagnosticView) -> bool {
    ||| exists|t: int|
        0 <= t < spec.transitions.len() && !can_start(spec, (#[trigger] spec.transitions[t]).id)
            && errs(
            d,
            "W009"@,
            "transition `"@ + spec.transitions[t].id + "` is dead: never structurally enabled"@,
        )
    ||| exists|f: int|
        0 <= f < spec.final_places.len() && !coverable(spec, #[trigger] spec.final_places[f])
            && errs(
            d,
            "W010"@,
            "improper completion: final place `"@ + spec.final_places[f] + "` is unreachable"@,
        )
    ||| exists|i: int|
        0 <= i < spec.places.len() && tells_of_place(spec, (#[trigger] spec.places[i]).id, d)
}

/// What is reported of the flow of tokens is what no token can get to, and no more.
pub proof fn what_is_reported_of_flow(spec: SpecView, d: DiagnosticView)
    ensures
        flow_faults(spec).contains(d) <==> tells_of_flow(spec, d),
{
    let a = dead_upto(spec, spec.transitions.len() as int);
    let b = unreachable_finals(spec, spec.final_places.len() as int);
    let c = place_faults_upto(spec, spec.places.len() as int);
    lemma_dead(spec, spec.transitions.len() as int, d);
    lemma_unreachable(spec, spec.final_places.len() as int, d);
    lemma_place_faults(spec, spec.places.len() as int, d);
    lemma_concat_contains(a, b, d);
    lemma_concat_contains(a + b, c, d);
}

// ---------------------------------------------------------------------------
// Choices
// ---------------------------------------------------------------------------
/// Whether two transitions share an input without having the same inputs.
pub open spec fn chooses_unfreely(a: TransitionView, b: TransitionView) -> bool {
    &&& exists|p: Str| #[trigger] a.consumes.contains(p) && b.consumes.contains(p)
    &&& exists|p: Str| #[trigger] a.consumes.contains(p) != b.consumes.contains(p)
}

proof fn lemma_unfree(a: TransitionView, b: TransitionView)
    ensures
        not_free_choice(a, b) <==> chooses_unfreely(a, b),
{
    if not_free_choice(a, b) {
        let i = choose|i: int|
            0 <= i < a.consumes.len() && b.consumes.contains(#[trigger] a.consumes[i]);
        assert(a.consumes.contains(a.consumes[i]));
        if !crate::lint::lies_in(a.consumes, b.consumes) {
            let j = choose|j: int|
                0 <= j < a.consumes.len() && !b.consumes.contains(#[trigger] a.consumes[j]);
            assert(a.consumes.contains(a.consumes[j]));
        } else {
            let j = choose|j: int|
                0 <= j < b.consumes.len() && !a.consumes.contains(#[trigger] b.consumes[j]);
            assert(b.consumes.contains(b.consumes[j]));
            assert(a.consumes.contains(b.consumes[j]) != b.consumes.contains(b.consumes[j]));
        }
    }
    if chooses_unfreely(a, b) {
        let p = choose|p: Str| #[trigger] a.consumes.contains(p) && b.consumes.contains(p);
        let i = a.consumes.index_of(p);
        assert(b.consumes.contains(a.consumes[i]));
        let q = choose|q: Str| #[trigger] a.consumes.contains(q) != b.consumes.contains(q);
        if a.consumes.contains(q) {
            let j = a.consumes.index_of(q);
            assert(!b.consumes.contains(a.consumes[j]));
        } else {
            let j = b.consumes.index_of(q);
            assert(!a.consumes.contains(b.consumes[j]));
        }
    }
}

/// Whether a diagnostic warns of a choice between two transitions that is not free.
pub open spec fn warns_of_choice(
    a: TransitionView,
    b: TransitionView,
    d: DiagnosticView,
) -> bool {
    chooses_unfreely(a, b) && warns(
        d,
        "W013"@,
        "not free-choice: `"@ + a.id + "` and `"@ + b.id
            + "` share an input place with different preconditions; the general bounded procedure is used instead of the polynomial free-choice one"@,
    )
}

proof fn lemma_choices_with(ts: Seq<TransitionView>, a: int, n: int, d: DiagnosticView)
    requires
        0 <= a < ts.len(),
        n <= ts.len(),
    ensures
        choices_with(ts, a, n).contains(d) <==> exists|b: int|
            a < b < n && warns_of_choice(ts[a], #[trigger] ts[b], d),
    decreases n - a,
{
    if n > a + 1 {
        lemma_choices_with(ts, a, n - 1, d);
        lemma_unfree(ts[a], ts[n - 1]);
        lemma_push_contains(
            choices_with(ts, a, n - 1),
            crate::lint::choice_warning(ts[a], ts[n - 1]),
            d,
        );
        assert(warns_of_choice(ts[a], ts[n - 1], d) ==> d == crate::lint::choice_warning(
            ts[a],
            ts[n - 1],
        ));
    }
}

/// A pair of transitions is warned of exactly where the two share an input place but not all of
/// them.
pub proof fn what_is_warned_of_choices(ts: Seq<TransitionView>, n: int, d: DiagnosticView)
    requires
        0 <= n <= ts.len(),
    ensures
        choice_faults(ts, n).contains(d) <==> exists|a: int, b: int|
            0 <= a < n && a < b < ts.len() && warns_of_choice(
                #[trigger] ts[a],
                #[trigger] ts[b],
                d,
            ),
    decreases n,
{
    if n > 0 {
        what_is_warned_of_choices(ts, n - 1, d);
        lemma_choices_with(ts, n - 1, ts.len() as int, d);
        lemma_concat_contains(
            choice_faults(ts, n - 1),
            choices_with(ts, n - 1, ts.len() as int),
            d,
        );
        if choice_faults(ts, n).contains(d) && !choice_faults(ts, n - 1).contains(d) {
            let b = choose|b: int|
                n - 1 < b < ts.len() && warns_of_choice(ts[n - 1], #[trigger] ts[b], d);
            assert(warns_of_choice(ts[n - 1], ts[b], d));
        }
    }
}

// ---------------------------------------------------------------------------
// Relations and obligations
// ---------------------------------------------------------------------------
/// Whether a diagnostic tells that a relation joins a kind of effect that is never emitted.
pub open spec fn tells_of_relation(
    spec: SpecView,
    name: Str,
    rel: RelationSchemaView,
    d: DiagnosticView,
) -> bool {
    ||| !emits_kind(spec, rel.from) && errs(
        d,
        "W014"@,
        "relation `"@ + name + "` sources effect `"@ + rel.from + "` which no transition emits"@,
    )
    ||| !emits_kind(spec, rel.to) && errs(
        d,
        "W015"@,
        "relation `"@ + name + "` targets effect `"@ + rel.to + "` which no transition emits"@,
    )
}

/// A relation is reported exactly where no transition emits what it starts from, or what it
/// leads to.
pub proof fn what_is_reported_of_relations(spec: SpecView, n: int, d: DiagnosticView)
    requires
        0 <= n <= spec.relations.len(),
    ensures
        relation_faults(spec, n).contains(d) <==> exists|i: int|
            0 <= i < n && tells_of_relation(
                spec,
                (#[trigger] spec.relations[i]).0,
                spec.relations[i].1,
                d,
            ),
    decreases n,
{
    if n > 0 {
        what_is_reported_of_relations(spec, n - 1, d);
        let name = spec.relations[n - 1].0;
        let rel = spec.relations[n - 1].1;
        lemma_emitted_kinds(spec, rel.from);
        lemma_emitted_kinds(spec, rel.to);
        let from = DiagnosticView {
            severity: Severity::Error,
            code: "W014"@,
            message: "relation `"@ + name + "` sources effect `"@ + rel.from
                + "` which no transition emits"@,
        };
        let to = DiagnosticView {
            severity: Severity::Error,
            code: "W015"@,
            message: "relation `"@ + name + "` targets effect `"@ + rel.to
                + "` which no transition emits"@,
        };
        let a: Seq<DiagnosticView> = if emits_kind(spec, rel.from) {
            Seq::empty()
        } else {
            seq![from]
        };
        let b: Seq<DiagnosticView> = if emits_kind(spec, rel.to) {
            Seq::empty()
        } else {
            seq![to]
        };
        lemma_single(from, d);
        lemma_single(to, d);
        lemma_concat_contains(a, b, d);
        assert(relation_fault(name, rel, emitted_kinds(spec)) == a + b);
        lemma_concat_contains(relation_faults(spec, n - 1), a + b, d);
        assert((a + b).contains(d) == tells_of_relation(spec, name, rel, d));
    }
}

/// Whether a diagnostic tells what is wrong with an obligation: its relation is not declared, or
/// is declared between other kinds of effects.
pub open spec fn tells_of_obligation(
    spec: SpecView,
    id: Str,
    effect: Str,
    o: RelationObligationView,
    d: DiagnosticView,
) -> bool {
    match lookup(spec.relations, o.ty) {
        None => errs(
            d,
            "W016"@,
            "transition `"@ + id + "` requires undeclared relation `"@ + o.ty + "`"@,
        ),
        Some(rel) => (rel.from != effect || rel.to != o.target) && errs(
            d,
            "W017"@,
            ("obligation on `"@ + id + "` is ill-typed: relation `"@ + o.ty + "` is "@ + rel.from
                + " -> "@ + rel.to) + " but the obligation is "@ + effect + " -> "@ + o.target,
        ),
    }
}

proof fn lemma_obligations(
    spec: SpecView,
    id: Str,
    e: EffectTemplateView,
    n: int,
    d: DiagnosticView,
)
    requires
        0 <= n <= e.requires_relation.len(),
    ensures
        obligations_upto(spec, id, e, n).contains(d) <==> exists|j: int|
            0 <= j < n && tells_of_obligation(
                spec,
                id,
                e.effect,
                #[trigger] e.requires_relation[j],
                d,
            ),
    decreases n,
{
    if n > 0 {
        lemma_obligations(spec, id, e, n - 1, d);
        let o = e.requires_relation[n - 1];
        match obligation_error(spec, id, e.effect, o) {
            Some(told) => {
                lemma_push_contains(obligations_upto(spec, id, e, n - 1), told, d);
                assert(tells_of_obligation(spec, id, e.effect, o, d) == (d == told));
            },
            None => {
                assert(!tells_of_obligation(spec, id, e.effect, o, d));
            },
        }
    }
}

proof fn lemma_effect_obligations(
    spec: SpecView,
    id: Str,
    es: Seq<EffectTemplateView>,
    n: int,
    d: DiagnosticView,
)
    requires
        0 <= n <= es.len(),
    ensures
        effect_obligations(spec, id, es, n).contains(d) <==> exists|e: int, j: int|
            #![trigger es[e].requires_relation[j]]
            0 <= e < n && 0 <= j < es[e].requires_relation.len() && tells_of_obligation(
                spec,
                id,
                es[e].effect,
                es[e].requires_relation[j],
                d,
            ),
    decreases n,
{
    if n > 0 {
        lemma_effect_obligations(spec, id, es, n - 1, d);
        let e = es[n - 1];
        let k = e.requires_relation.len() as int;
        lemma_obligations(spec, id, e, k, d);
        lemma_concat_contains(
            effect_obligations(spec, id, es, n - 1),
            obligations_upto(spec, id, e, k),
            d,
        );
        if obligations_upto(spec, id, e, k).contains(d) {
            let j = choose|j: int|
                0 <= j < k && tells_of_obligation(
                    spec,
                    id,
                    e.effect,
                    #[trigger] e.requires_relation[j],
                    d,
                );
            assert(tells_of_obligation(
                spec,
                id,
                es[n - 1].effect,
                es[n - 1].requires_relation[j],
                d,
            ));
        }
    }
}

/// Whether a diagnostic tells what is wrong with an obligation of a transition.
pub open spec fn tells_of_obligations(spec: SpecView, t: TransitionView, d: DiagnosticView) -> bool {
    exists|e: int, j: int|
        #![trigger t.emits[e].requires_relation[j]]
        0 <= e < t.emits.len() && 0 <= j < t.emits[e].requires_relation.len()
            && tells_of_obligation(
            spec,
            t.id,
            t.emits[e].effect,
            t.emits[e].requires_relation[j],
            d,
        )
}

/// An obligation is reported exactly where its relation is not declared, or is declared between
/// other kinds than those of the effect that has it and of its target.
pub proof fn what_is_reported_of_obligations(spec: SpecView, n: int, d: DiagnosticView)
    requires
        0 <= n <= spec.transitions.len(),
    ensures
        obligation_faults(spec, n).contains(d) <==> exists|t: int|
            0 <= t < n && tells_of_obligations(spec, #[trigger] spec.transitions[t], d),
    decreases n,
{
    if n > 0 {
        what_is_reported_of_obligations(spec, n - 1, d);
        let t = spec.transitions[n - 1];
        lemma_effect_obligations(spec, t.id, t.emits, t.emits.len() as int, d);
        lemma_concat_contains(
            obligation_faults(spec, n - 1),
            effect_obligations(spec, t.id, t.emits, t.emits.len() as int),
            d,
        );
    }
}

// ---------------------------------------------------------------------------
// Variables
// ---------------------------------------------------------------------------
proof fn lemma_var_names(args: Seq<(Str, Str)>, n: int, v: Str)
    requires
        0 <= n <= args.len(),
    ensures
        var_names(values_of(args), n).contains(v) <==> exists|i: int|
            0 <= i < n && (#[trigger] args[i]).1 == seq!['$'] + v,
    decreases n,
{
    if n > 0 {
        lemma_var_names(args, n - 1, v);
        let raw = args[n - 1].1;
        assert(values_of(args)[n - 1] == raw);
        if raw.len() > 0 && raw[0] == '$' {
            lemma_push_contains(var_names(values_of(args), n - 1), raw.skip(1), v);
            assert(raw =~= seq!['$'] + raw.skip(1));
            if raw == seq!['$'] + v {
                assert(raw.skip(1) =~= v);
            }
        } else {
            assert(raw != seq!['$'] + v) by {
                assert((seq!['$'] + v)[0] == '$');
            }
        }
    }
}

proof fn lemma_obligation_vars(os: Seq<RelationObligationView>, n: int, v: Str)
    requires
        0 <= n <= os.len(),
    ensures
        obligation_vars(os, n).contains(v) <==> exists|j: int, i: int|
            #![trigger os[j].bind[i]]
            0 <= j < n && 0 <= i < os[j].bind.len() && os[j].bind[i].1 == seq!['$'] + v,
    decreases n,
{
    if n > 0 {
        lemma_obligation_vars(os, n - 1, v);
        let bind = os[n - 1].bind;
        lemma_var_names(bind, bind.len() as int, v);
        lemma_concat_contains(
            obligation_vars(os, n - 1),
            var_names(values_of(bind), bind.len() as int),
            v,
        );
        if var_names(values_of(bind), bind.len() as int).contains(v) {
            let i = choose|i: int| 0 <= i < bind.len() && (#[trigger] bind[i]).1 == seq!['$'] + v;
            assert(os[n - 1].bind[i].1 == seq!['$'] + v);
        }
    }
}

/// Whether a template names a variable, in an argument or in a binding of an obligation.
pub open spec fn template_names(e: EffectTemplateView, v: Str) -> bool {
    ||| exists|i: int| 0 <= i < e.args.len() && (#[trigger] e.args[i]).1 == seq!['$'] + v
    ||| exists|j: int, i: int|
        #![trigger e.requires_relation[j].bind[i]]
        0 <= j < e.requires_relation.len() && 0 <= i < e.requires_relation[j].bind.len()
            && e.requires_relation[j].bind[i].1 == seq!['$'] + v
}

proof fn lemma_template_vars(es: Seq<EffectTemplateView>, n: int, v: Str)
    requires
        0 <= n <= es.len(),
    ensures
        template_vars(es, n).contains(v) <==> exists|e: int|
            0 <= e < n && template_names(#[trigger] es[e], v),
    decreases n,
{
    if n > 0 {
        lemma_template_vars(es, n - 1, v);
        let e = es[n - 1];
        let a = template_vars(es, n - 1);
        let b = var_names(values_of(e.args), e.args.len() as int);
        let c = obligation_vars(e.requires_relation, e.requires_relation.len() as int);
        lemma_var_names(e.args, e.args.len() as int, v);
        lemma_obligation_vars(e.requires_relation, e.requires_relation.len() as int, v);
        lemma_concat_contains(a, b, v);
        lemma_concat_contains(a + b, c, v);
    }
}

/// The variables of a transition are those that one of its templates names.
pub proof fn the_variables_of_a_transition(t: TransitionView, v: Str)
    ensures
        vars_of(t).contains(v) <==> exists|e: int|
            0 <= e < t.emits.len() && template_names(#[trigger] t.emits[e], v),
{
    lemma_template_vars(t.emits, t.emits.len() as int, v);
    lemma_put_items_contains(Seq::empty(), template_vars(t.emits, t.emits.len() as int), v);
}

/// Whether a diagnostic tells of a variable that a transition names and that nothing gives a
/// value on every path.
pub open spec fn tells_of_variable(spec: SpecView, t: TransitionView, d: DiagnosticView) -> bool {
    exists|v: Str| #[trigger]
        guaranteed(spec, t, v) == false && (exists|e: int|
            0 <= e < t.emits.len() && template_names(#[trigger] t.emits[e], v)) && errs(
            d,
            "W018"@,
            "transition `"@ + t.id + "` references `$"@ + v
                + "` which no consumed token guarantees"@,
        )
}

proof fn lemma_unbound_vars(
    spec: SpecView,
    t: TransitionView,
    vars: Seq<Str>,
    n: int,
    d: DiagnosticView,
)
    requires
        0 <= n <= vars.len(),
    ensures
        unbound_vars(spec, t, vars, n).contains(d) <==> exists|i: int|
            0 <= i < n && !guaranteed(spec, t, #[trigger] vars[i]) && errs(
                d,
                "W018"@,
                "transition `"@ + t.id + "` references `$"@ + vars[i]
                    + "` which no consumed token guarantees"@,
            ),
    decreases n,
{
    if n > 0 {
        lemma_unbound_vars(spec, t, vars, n - 1, d);
        let told = DiagnosticView {
            severity: Severity::Error,
            code: "W018"@,
            message: "transition `"@ + t.id + "` references `$"@ + vars[n - 1]
                + "` which no consumed token guarantees"@,
        };
        lemma_push_contains(unbound_vars(spec, t, vars, n - 1), told, d);
        assert(errs(d, "W018"@, told.message) ==> d == told);
    }
}

/// A variable is reported exactly where a transition names it and nothing gives it a value on
/// every path.
pub proof fn what_is_reported_of_variables(spec: SpecView, n: int, d: DiagnosticView)
    requires
        0 <= n <= spec.transitions.len(),
    ensures
        variable_faults(spec, n).contains(d) <==> exists|t: int|
            0 <= t < n && tells_of_variable(spec, #[trigger] spec.transitions[t], d),
    decreases n,
{
    if n > 0 {
        what_is_reported_of_variables(spec, n - 1, d);
        let t = spec.transitions[n - 1];
        let vars = vars_of(t);
        lemma_unbound_vars(spec, t, vars, vars.len() as int, d);
        lemma_concat_contains(
            variable_faults(spec, n - 1),
            unbound_vars(spec, t, vars, vars.len() as int),
            d,
        );
        if unbound_vars(spec, t, vars, vars.len() as int).contains(d) {
            let i = choose|i: int|
                0 <= i < vars.len() && !guaranteed(spec, t, #[trigger] vars[i]) && errs(
                    d,
                    "W018"@,
                    "transition `"@ + t.id + "` references `$"@ + vars[i]
                        + "` which no consumed token guarantees"@,
                );
            assert(vars.contains(vars[i]));
            the_variables_of_a_transition(t, vars[i]);
            assert(guaranteed(spec, t, vars[i]) == false);
            assert(tells_of_variable(spec, t, d));
        }
        if tells_of_variable(spec, t, d) {
            let v = choose|v: Str| #[trigger]
                guaranteed(spec, t, v) == false && (exists|e: int|
                    0 <= e < t.emits.len() && template_names(#[trigger] t.emits[e], v)) && errs(
                    d,
                    "W018"@,
                    "transition `"@ + t.id + "` references `$"@ + v
                        + "` which no consumed token guarantees"@,
                );
            the_variables_of_a_transition(t, v);
            let i = vars.index_of(v);
            assert(vars[i] == v);
        }
    }
}

// ---------------------------------------------------------------------------
// Invariants
// ---------------------------------------------------------------------------
proof fn lemma_copier(ts: Seq<TransitionView>, p: Str, i: int)
    requires
        0 <= i,
    ensures
        copier_from(ts, p, i) is None <==> forall|t: int|
            i <= t < ts.len() ==> !((#[trigger] ts[t]).consumes.contains(p)
                && ts[t].produces.contains(p)),
        copier_from(ts, p, i) matches Some(id) ==> exists|t: int|
            i <= t < ts.len() && (#[trigger] ts[t]).id == id && copies_first(ts, p, i, t),
    decreases ts.len() - i,
{
    if i < ts.len() {
        if ts[i].consumes.contains(p) && ts[i].produces.contains(p) {
            assert(copies_first(ts, p, i, i));
        } else {
            lemma_copier(ts, p, i + 1);
            if copier_from(ts, p, i) is Some {
                let id = copier_from(ts, p, i)->0;
                let t = choose|t: int|
                    i + 1 <= t < ts.len() && (#[trigger] ts[t]).id == id && copies_first(
                        ts,
                        p,
                        i + 1,
                        t,
                    );
                assert(copies_first(ts, p, i, t));
            }
        }
    }
}

/// Whether the first transition from position `i` on that puts back what it takes from a place
/// stands at position `t`.
pub open spec fn copies_first(ts: Seq<TransitionView>, p: Str, i: int, t: int) -> bool {
    &&& ts[t].consumes.contains(p)
    &&& ts[t].produces.contains(p)
    &&& forall|s: int|
        i <= s < t ==> !((#[trigger] ts[s]).consumes.contains(p) && ts[s].produces.contains(p))
}

/// Whether a diagnostic tells why an invariant cannot hold.
pub open spec fn tells_of_invariant(spec: SpecView, inv: InvariantView, d: DiagnosticView) -> bool {
    match inv.kind {
        InvariantKindView::EffectHasProducingTransition { effect, .. } => !emits_kind(spec, effect)
            && errs(
            d,
            "W019"@,
            "invariant `"@ + inv.id + "` names effect `"@ + effect
                + "` which no transition emits"@,
        ),
        InvariantKindView::TokenConsumedNotCopied { place } => {
            ||| !declares_place(spec, place) && errs(
                d,
                "W020"@,
                "invariant `"@ + inv.id + "` names unknown place `"@ + place + "`"@,
            )
            ||| exists|t: int|
                0 <= t < spec.transitions.len() && #[trigger] copies_first(
                    spec.transitions,
                    place,
                    0,
                    t,
                ) && errs(
                    d,
                    "W021"@,
                    "invariant `"@ + inv.id + "` fails statically: transition `"@
                        + spec.transitions[t].id + "` returns the `"@ + place
                        + "` token it consumes"@,
                )
        },
    }
}

proof fn lemma_copied_once(spec: SpecView, place: Str, t: int, s: int)
    requires
        0 <= t < spec.transitions.len(),
        0 <= s < spec.transitions.len(),
        copies_first(spec.transitions, place, 0, t),
        copies_first(spec.transitions, place, 0, s),
    ensures
        t == s,
{
    if t < s {
        assert(!(spec.transitions[t].consumes.contains(place)
            && spec.transitions[t].produces.contains(place)));
    } else if s < t {
        assert(!(spec.transitions[s].consumes.contains(place)
            && spec.transitions[s].produces.contains(place)));
    }
}

proof fn lemma_invariant_fault(spec: SpecView, inv: InvariantView, d: DiagnosticView)
    ensures
        invariant_fault(spec, inv).contains(d) <==> tells_of_invariant(spec, inv, d),
{
    match inv.kind {
        InvariantKindView::EffectHasProducingTransition { effect, scope } => {
            lemma_emitted_kinds(spec, effect);
            let told = DiagnosticView {
                severity: Severity::Error,
                code: "W019"@,
                message: "invariant `"@ + inv.id + "` names effect `"@ + effect
                    + "` which no transition emits"@,
            };
            lemma_single(told, d);
            if !emits_kind(spec, effect) {
                assert(invariant_fault(spec, inv) == seq![told]);
            }
        },
        InvariantKindView::TokenConsumedNotCopied { place } => {
            lemma_place_ids(spec, place);
            lemma_copier(spec.transitions, place, 0);
            let missing = DiagnosticView {
                severity: Severity::Error,
                code: "W020"@,
                message: "invariant `"@ + inv.id + "` names unknown place `"@ + place + "`"@,
            };
            let a: Seq<DiagnosticView> = if declares_place(spec, place) {
                Seq::empty()
            } else {
                seq![missing]
            };
            lemma_single(missing, d);
            match copier_from(spec.transitions, place, 0) {
                Some(id) => {
                    let told = DiagnosticView {
                        severity: Severity::Error,
                        code: "W021"@,
                        message: "invariant `"@ + inv.id + "` fails statically: transition `"@ + id
                            + "` returns the `"@ + place + "` token it consumes"@,
                    };
                    lemma_single(told, d);
                    lemma_concat_contains(a, seq![told], d);
                    assert(invariant_fault(spec, inv) == a + seq![told]);
                    let t = choose|t: int|
                        0 <= t < spec.transitions.len() && (#[trigger] spec.transitions[t]).id == id
                            && copies_first(spec.transitions, place, 0, t);
                    assert(copies_first(spec.transitions, place, 0, t));
                    assert forall|s: int|
                        0 <= s < spec.transitions.len() && #[trigger] copies_first(
                            spec.transitions,
                            place,
                            0,
                            s,
                        ) implies s == t by {
                        lemma_copied_once(spec, place, t, s);
                    }
                },
                None => {
                    assert(invariant_fault(spec, inv) =~= a);
                },
            }
        },
    }
}

/// An invariant is reported exactly where no transition emits the effect that it names, where
/// its place is not declared, and where a transition puts back the token that it takes from
/// that place.
pub proof fn what_is_reported_of_invariants(spec: SpecView, n: int, d: DiagnosticView)
    requires
        0 <= n <= spec.invariants.len(),
    ensures
        invariant_faults(spec, n).contains(d) <==> exists|i: int|
            0 <= i < n && tells_of_invariant(spec, #[trigger] spec.invariants[i], d),
    decreases n,
{
    if n > 0 {
        what_is_reported_of_invariants(spec, n - 1, d);
        lemma_invariant_fault(spec, spec.invariants[n - 1], d);
        lemma_concat_contains(
            invariant_faults(spec, n - 1),
            invariant_fault(spec, spec.invariants[n - 1]),
            d,
        );
    }
}

// ---------------------------------------------------------------------------
// All of it
// ---------------------------------------------------------------------------
/// The checks of a specification report what is wrong with its names, its flow, its choices, its
/// relations, its obligations, its variables and its invariants, and nothing else.
pub proof fn what_the_checks_report(spec: SpecView, d: DiagnosticView)
    ensures
        linted(spec).diagnostics.contains(d) <==> {
            ||| tells_of_names(spec, d)
            ||| tells_of_flow(spec, d)
            ||| exists|a: int, b: int|
                0 <= a < b < spec.transitions.len() && warns_of_choice(
                    #[trigger] spec.transitions[a],
                    #[trigger] spec.transitions[b],
                    d,
                )
            ||| exists|i: int|
                0 <= i < spec.relations.len() && tells_of_relation(
                    spec,
                    (#[trigger] spec.relations[i]).0,
                    spec.relations[i].1,
                    d,
                )
            ||| exists|t: int|
                0 <= t < spec.transitions.len() && (tells_of_obligations(
                    spec,
                    #[trigger] spec.transitions[t],
                    d,
                ) || tells_of_variable(spec, spec.transitions[t], d))
            ||| exists|i: int|
                0 <= i < spec.invariants.len() && tells_of_invariant(
                    spec,
                    #[trigger] spec.invariants[i],
                    d,
                )
        },
{
    let n = spec.transitions.len() as int;
    let a = name_faults(spec);
    let b = flow_faults(spec);
    let c = choice_faults(spec.transitions, n);
    let r = relation_faults(spec, spec.relations.len() as int);
    let o = obligation_faults(spec, n);
    let v = variable_faults(spec, n);
    let i = invariant_faults(spec, spec.invariants.len() as int);
    what_is_reported_of_names(spec, d);
    what_is_reported_of_flow(spec, d);
    what_is_warned_of_choices(spec.transitions, n, d);
    what_is_reported_of_relations(spec, spec.relations.len() as int, d);
    what_is_reported_of_obligations(spec, n, d);
    what_is_reported_of_variables(spec, n, d);
    what_is_reported_of_invariants(spec, spec.invariants.len() as int, d);
    lemma_concat_contains(a, b, d);
    lemma_concat_contains(a + b, c, d);
    lemma_concat_contains(a + b + c, r, d);
    lemma_concat_contains(a + b + c + r, o, d);
    lemma_concat_contains(a + b + c + r + o, v, d);
    lemma_concat_contains(a + b + c + r + o + v, i, d);
    assert(linted(spec).diagnostics == a + b + c + r + o + v + i);
}

/// A specification without an error speaks of declared places and principals alone.
pub proof fn sound_specifications_name_what_they_declare(spec: SpecView, t: int, c: int)
    requires
        forall|d: DiagnosticView| #[trigger]
            linted(spec).diagnostics.contains(d) ==> d.severity != Severity::Error,
        0 <= t < spec.transitions.len(),
    ensures
        0 <= c < spec.transitions[t].consumes.len() ==> declares_place(
            spec,
            spec.transitions[t].consumes[c],
        ),
        0 <= c < spec.transitions[t].produces.len() ==> declares_place(
            spec,
            spec.transitions[t].produces[c],
        ),
        lookup(spec.principals, spec.transitions[t].principal) is Some,
        0 <= c < spec.final_places.len() ==> declares_place(spec, spec.final_places[c]),
{
    let tv = spec.transitions[t];
    if 0 <= c < tv.consumes.len() && !declares_place(spec, tv.consumes[c]) {
        let d = DiagnosticView {
            severity: Severity::Error,
            code: "W003"@,
            message: "transition `"@ + tv.id + "` references unknown place `"@ + tv.consumes[c]
                + "`"@,
        };
        assert(errs(d, "W003"@, d.message));
        assert(tells_of_references(spec, spec.transitions[t], d));
        what_the_checks_report(spec, d);
    }
    if 0 <= c < tv.produces.len() && !declares_place(spec, tv.produces[c]) {
        let d = DiagnosticView {
            severity: Severity::Error,
            code: "W003"@,
            message: "transition `"@ + tv.id + "` references unknown place `"@ + tv.produces[c]
                + "`"@,
        };
        assert(errs(d, "W003"@, d.message));
        assert(tells_of_references(spec, spec.transitions[t], d));
        what_the_checks_report(spec, d);
    }
    if lookup(spec.principals, tv.principal) is None {
        let d = DiagnosticView {
            severity: Severity::Error,
            code: "W004"@,
            message: "transition `"@ + tv.id + "` references unknown principal `"@ + tv.principal
                + "`"@,
        };
        assert(tells_of_references(spec, spec.transitions[t], d));
        what_the_checks_report(spec, d);
    }
    if 0 <= c < spec.final_places.len() && !declares_place(spec, spec.final_places[c]) {
        let d = DiagnosticView {
            severity: Severity::Error,
            code: "W007"@,
            message: "unknown final place `"@ + spec.final_places[c] + "`"@,
        };
        assert(errs(d, "W007"@, d.message));
        assert(tells_of_names(spec, d));
        what_the_checks_report(spec, d);
    }
}

// ---------------------------------------------------------------------------
// What a token is sure to hold
// ---------------------------------------------------------------------------
/// Whether a transition gives a variable a value of its own.
pub open spec fn gives(t: TransitionView, v: Str) -> bool {
    exists|i: int| 0 <= i < t.binds.len() && (#[trigger] t.binds[i]).0 == v
}

proof fn lemma_gives(t: TransitionView, v: Str)
    ensures
        binds_var(t, v) <==> gives(t, v),
{
    let keys = keys_of(t.binds);
    if binds_var(t, v) {
        let i = keys.index_of(v);
        assert(t.binds[i].0 == v);
    }
    if gives(t, v) {
        let i = choose|i: int| 0 <= i < t.binds.len() && (#[trigger] t.binds[i]).0 == v;
        assert(keys[i] == v);
    }
}

/// Whether a place is declared, holds no token from the start, and some transition puts into it.
pub open spec fn gets_its_tokens(spec: SpecView, p: Str) -> bool {
    declares_place(spec, p) && !starts_marked(spec, p) && is_put_into(spec, p)
}

proof fn lemma_fed(spec: SpecView, p: Str)
    ensures
        fed(spec, p) <==> gets_its_tokens(spec, p),
{
    lemma_place_ids(spec, p);
    lemma_marked_places(spec, p);
}

/// A variable of a transition is sure to have a value where the transition gives it one, or
/// where the tokens of one of its inputs are sure to hold it.
pub proof fn a_variable_is_sure_where_it_is_given_or_held(
    spec: SpecView,
    t: TransitionView,
    v: Str,
)
    ensures
        guaranteed(spec, t, v) <==> gives(t, v) || exists|c: int|
            0 <= c < t.consumes.len() && always_known(spec, #[trigger] t.consumes[c], v),
{
    lemma_gives(t, v);
}

proof fn lemma_known_less(spec: SpecView, k: nat, p: Str, v: Str)
    requires
        known_within(spec, k + 1, p, v),
    ensures
        known_within(spec, k, p, v),
    decreases k,
{
    assert(((k + 1) - 1) as nat == k);
    if k == 0 {
        let t = choose|t: int|
            0 <= t < spec.transitions.len() && (#[trigger] spec.transitions[t]).produces.contains(
                p,
            );
        assert(available_within(spec, 0, spec.transitions[t], v));
        if !binds_var(spec.transitions[t], v) {
            let c = choose|c: int|
                0 <= c < spec.transitions[t].consumes.len() && known_within(
                    spec,
                    0,
                    #[trigger] spec.transitions[t].consumes[c],
                    v,
                );
            assert(bound_somewhere(spec, v));
        } else {
            assert(bound_somewhere(spec, v));
        }
    } else {
        assert forall|t: int|
            0 <= t < spec.transitions.len() && (#[trigger] spec.transitions[t]).produces.contains(
                p,
            ) implies available_within(spec, (k - 1) as nat, spec.transitions[t], v) by {
            let tv = spec.transitions[t];
            assert(available_within(spec, k, tv, v));
            if !binds_var(tv, v) {
                let c = choose|c: int|
                    0 <= c < tv.consumes.len() && known_within(
                        spec,
                        k,
                        #[trigger] tv.consumes[c],
                        v,
                    );
                assert(((k - 1) as nat) + 1 == k);
                lemma_known_less(spec, (k - 1) as nat, tv.consumes[c], v);
                assert(known_within(spec, (k - 1) as nat, tv.consumes[c], v));
            }
        }
    }
}

proof fn lemma_known_down(spec: SpecView, k: nat, l: nat, p: Str, v: Str)
    requires
        known_within(spec, l, p, v),
        k <= l,
    ensures
        known_within(spec, k, p, v),
    decreases l,
{
    if k < l {
        assert(((l - 1) as nat) + 1 == l);
        lemma_known_less(spec, (l - 1) as nat, p, v);
        lemma_known_down(spec, k, (l - 1) as nat, p, v);
    }
}

proof fn lemma_one_input_stays(spec: SpecView, ps: Seq<Str>, v: Str, n: int) -> (k: nat)
    requires
        0 <= n <= ps.len(),
        forall|c: int| 0 <= c < n ==> !always_known(spec, #[trigger] ps[c], v),
    ensures
        forall|c: int| 0 <= c < n ==> !known_within(spec, k, #[trigger] ps[c], v),
    decreases n,
{
    if n == 0 {
        0
    } else {
        let a = lemma_one_input_stays(spec, ps, v, n - 1);
        assert(!always_known(spec, ps[n - 1], v));
        let b = choose|b: nat| !(#[trigger] known_within(spec, b, ps[n - 1], v));
        let k = if a < b {
            b
        } else {
            a
        };
        assert forall|c: int| 0 <= c < n implies !known_within(spec, k, #[trigger] ps[c], v) by {
            if known_within(spec, k, ps[c], v) {
                if c < n - 1 {
                    lemma_known_down(spec, a, k, ps[c], v);
                } else {
                    lemma_known_down(spec, b, k, ps[c], v);
                }
            }
        }
        k
    }
}

/// The tokens of a place are sure to hold a variable only where all of them come from
/// transitions, and each of those gives it a value or takes a token that is sure to hold it.
pub proof fn what_is_sure_comes_from_every_side(spec: SpecView, p: Str, v: Str, t: int)
    requires
        always_known(spec, p, v),
    ensures
        gets_its_tokens(spec, p),
        0 <= t < spec.transitions.len() && spec.transitions[t].produces.contains(p) ==> gives(
            spec.transitions[t],
            v,
        ) || exists|c: int|
            0 <= c < spec.transitions[t].consumes.len() && always_known(
                spec,
                #[trigger] spec.transitions[t].consumes[c],
                v,
            ),
{
    assert(known_within(spec, 0, p, v));
    lemma_fed(spec, p);
    if 0 <= t < spec.transitions.len() && spec.transitions[t].produces.contains(p) {
        let tv = spec.transitions[t];
        lemma_gives(tv, v);
        if !gives(tv, v) && !(exists|c: int|
            0 <= c < tv.consumes.len() && always_known(spec, #[trigger] tv.consumes[c], v)) {
            let k = lemma_one_input_stays(spec, tv.consumes, v, tv.consumes.len() as int);
            assert(known_within(spec, k + 1, p, v));
            assert(((k + 1) - 1) as nat == k);
            assert(available_within(spec, k, spec.transitions[t], v));
        }
    }
}

/// And wherever that is so, the tokens are sure to hold it: a set of places, each of which gets
/// its tokens from transitions alone that give a variable a value or take from a place of the
/// set, is one of places whose tokens are sure to hold it, if any transition gives it a value.
pub proof fn what_comes_from_every_side_is_sure(
    spec: SpecView,
    sure: spec_fn(Str) -> bool,
    p: Str,
    v: Str,
)
    requires
        exists|t: int| 0 <= t < spec.transitions.len() && gives(#[trigger] spec.transitions[t], v),
        forall|q: Str| #[trigger] sure(q) ==> gets_its_tokens(spec, q),
        forall|q: Str, t: int|
            #![trigger sure(q), spec.transitions[t]]
            sure(q) && 0 <= t < spec.transitions.len() && spec.transitions[t].produces.contains(q)
                ==> gives(spec.transitions[t], v) || exists|c: int|
                0 <= c < spec.transitions[t].consumes.len() && sure(
                    #[trigger] spec.transitions[t].consumes[c],
                ),
        sure(p),
    ensures
        always_known(spec, p, v),
{
    let t = choose|t: int|
        0 <= t < spec.transitions.len() && gives(#[trigger] spec.transitions[t], v);
    lemma_gives(spec.transitions[t], v);
    assert(bound_somewhere(spec, v));
    assert forall|k: nat| #[trigger] known_within(spec, k, p, v) by {
        lemma_sure(spec, sure, k, p, v);
    }
}

proof fn lemma_sure(spec: SpecView, sure: spec_fn(Str) -> bool, k: nat, p: Str, v: Str)
    requires
        bound_somewhere(spec, v),
        forall|q: Str| #[trigger] sure(q) ==> gets_its_tokens(spec, q),
        forall|q: Str, t: int|
            #![trigger sure(q), spec.transitions[t]]
            sure(q) && 0 <= t < spec.transitions.len() && spec.transitions[t].produces.contains(q)
                ==> gives(spec.transitions[t], v) || exists|c: int|
                0 <= c < spec.transitions[t].consumes.len() && sure(
                    #[trigger] spec.transitions[t].consumes[c],
                ),
        sure(p),
    ensures
        known_within(spec, k, p, v),
    decreases k,
{
    lemma_fed(spec, p);
    if k > 0 {
        assert forall|t: int|
            0 <= t < spec.transitions.len() && (#[trigger] spec.transitions[t]).produces.contains(
                p,
            ) implies available_within(spec, (k - 1) as nat, spec.transitions[t], v) by {
            let tv = spec.transitions[t];
            lemma_gives(tv, v);
            if !gives(tv, v) {
                let c = choose|c: int|
                    0 <= c < tv.consumes.len() && sure(#[trigger] tv.consumes[c]);
                lemma_sure(spec, sure, (k - 1) as nat, tv.consumes[c], v);
                assert(known_within(spec, (k - 1) as nat, tv.consumes[c], v));
            }
        }
    }
}

} // verus!
