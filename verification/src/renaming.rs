//! Renaming values. What a firing does with the values at hand is the same under other names, as
//! long as the values that it is held against keep theirs; only a guard may tell the difference.

use crate::expand::{aim_effects, linked_values, relevant};
use crate::guess::{
    args_upto, renamed, renamed_env, renamed_marking, renamed_tokens, renamed_values,
};
use crate::matching::{
    bears_on, binding_fault, clause_literals, clause_parts, edge_fault, expected_value,
    guard_clause_holds, guard_holds, guard_literals, guard_side, literals_upto, matched_args,
    matched_effect, obligation_fault, side_literals, some_edge, target_fault, unmet_from,
};
use crate::model::{classified, EffectTemplateView, PatternView, RelationObligationView};
use crate::net::{
    fired, joined_token, joined_tokens, left_marking, left_tokens, made_token, transition_ok,
    with_tokens, within, CompiledTransitionView, FailureView, NetView,
};
use crate::observation::{
    all_effects, effect_named, lemma_effect_from, EffectInstanceView, ObservationView,
};
use crate::ordered::{lookup, put, values_of};
use crate::search::{
    aim_ok, bound_for, env_for, guard_ok, ids_of, lemma_concat_contains, lemma_minted_used,
    matched_effects, minted, unattested_from, unmet_effect_from, unmet_for, AimView,
};
use crate::text::{pieces, stripped, trimmed, Str};
use vstd::prelude::*;

verus! {

// ---------------------------------------------------------------------------
// Values that keep their names
// ---------------------------------------------------------------------------
/// Whether each of these values keeps its name.
pub open spec fn fixes(r: Map<Str, Str>, vs: Seq<Str>) -> bool {
    forall|v: Str| #[trigger] vs.contains(v) ==> renamed(r, v) == v
}

/// Whether every value of an environment or token is among these.
pub open spec fn all_in(vs: Set<Str>, e: Seq<(Str, Str)>) -> bool {
    forall|i: int| 0 <= i < e.len() ==> vs.contains((#[trigger] e[i]).1)
}

/// Whether every item of a list is among these.
pub open spec fn list_in(vs: Set<Str>, l: Seq<Str>) -> bool {
    forall|v: Str| #[trigger] l.contains(v) ==> vs.contains(v)
}

pub proof fn lemma_renamed_lookup(r: Map<Str, Str>, e: Seq<(Str, Str)>, k: Str)
    ensures
        lookup(renamed_env(r, e), k) == (match lookup(e, k) {
            Some(v) => Some(renamed(r, v)),
            None => None,
        }),
    decreases e.len(),
{
    if e.len() > 0 {
        lemma_renamed_lookup(r, e.drop_first(), k);
        assert(renamed_env(r, e).drop_first() =~= renamed_env(r, e.drop_first()));
    }
}

pub proof fn lemma_renamed_put(r: Map<Str, Str>, e: Seq<(Str, Str)>, k: Str, v: Str)
    ensures
        renamed_env(r, put(e, k, v)) == put(renamed_env(r, e), k, renamed(r, v)),
    decreases e.len(),
{
    let l = renamed_env(r, put(e, k, v));
    let f = renamed_env(r, e);
    if e.len() > 0 {
        lemma_renamed_put(r, e.drop_first(), k, v);
        assert(f.drop_first() =~= renamed_env(r, e.drop_first()));
        assert(l =~= put(f, k, renamed(r, v)));
    } else {
        assert(l =~= put(f, k, renamed(r, v)));
    }
}

/// What a lookup finds is one of the values.
pub proof fn lemma_lookup_value(e: Seq<(Str, Str)>, k: Str)
    ensures
        lookup(e, k) matches Some(v) ==> values_of(e).contains(v),
    decreases e.len(),
{
    if e.len() > 0 {
        let d = e.drop_first();
        lemma_lookup_value(d, k);
        if e[0].0 == k {
            assert(values_of(e)[0] == e[0].1);
        } else {
            match lookup(d, k) {
                Some(v) => {
                    let i = values_of(d).index_of(v);
                    assert(values_of(e)[i + 1] == v);
                },
                None => {},
            }
        }
    }
}

pub proof fn lemma_in_lookup(vs: Set<Str>, e: Seq<(Str, Str)>, k: Str)
    requires
        all_in(vs, e),
    ensures
        lookup(e, k) matches Some(v) ==> vs.contains(v),
{
    lemma_lookup_value(e, k);
    match lookup(e, k) {
        Some(v) => {
            let i = values_of(e).index_of(v);
            assert(e[i].1 == v);
        },
        None => {},
    }
}

pub proof fn lemma_in_put(vs: Set<Str>, e: Seq<(Str, Str)>, k: Str, v: Str)
    requires
        all_in(vs, e),
        vs.contains(v),
    ensures
        all_in(vs, put(e, k, v)),
    decreases e.len(),
{
    let p = put(e, k, v);
    if e.len() > 0 {
        let d = e.drop_first();
        assert forall|i: int| 0 <= i < d.len() implies vs.contains((#[trigger] d[i]).1) by {
            assert(d[i] == e[i + 1]);
        }
        lemma_in_put(vs, d, k, v);
        assert forall|i: int| 0 <= i < p.len() implies vs.contains((#[trigger] p[i]).1) by {
            if i > 0 {
                if e[0].0 == k {
                    assert(p[i] == d[i - 1]);
                } else if crate::text::before(k, e[0].0) {
                    assert(p[i] == e[i - 1]);
                } else {
                    assert(p[i] == put(d, k, v)[i - 1]);
                }
            } else {
                assert(vs.contains(e[0].1));
            }
        }
    }
}

/// Renamings that agree on the values of an environment do the same to it.
pub proof fn lemma_renamed_same(r: Map<Str, Str>, s: Map<Str, Str>, e: Seq<(Str, Str)>)
    requires
        forall|i: int|
            0 <= i < e.len() ==> renamed(r, (#[trigger] e[i]).1) == renamed(s, e[i].1),
    ensures
        renamed_env(r, e) == renamed_env(s, e),
{
    assert(renamed_env(r, e) =~= renamed_env(s, e));
}

// ---------------------------------------------------------------------------
// Tokens
// ---------------------------------------------------------------------------
proof fn lemma_joined_token(
    r: Map<Str, Str>,
    env: Seq<(Str, Str)>,
    token: Seq<(Str, Str)>,
    n: int,
)
    requires
        0 <= n <= token.len(),
    ensures
        joined_token(env, token, n) matches Some(e) ==> joined_token(
            renamed_env(r, env),
            renamed_env(r, token),
            n,
        ) == Some(renamed_env(r, e)),
    decreases n,
{
    if n > 0 {
        lemma_joined_token(r, env, token, n - 1);
        let k = token[n - 1].0;
        let v = token[n - 1].1;
        assert(renamed_env(r, token)[n - 1] == (k, renamed(r, v)));
        match joined_token(env, token, n - 1) {
            None => {},
            Some(e) => {
                lemma_renamed_lookup(r, e, k);
                lemma_renamed_put(r, e, k, v);
            },
        }
    }
}

/// Joining tokens that another marking holds under other names.
pub proof fn lemma_joined_tokens(
    r: Map<Str, Str>,
    m: Seq<Seq<Seq<(Str, Str)>>>,
    m2: Seq<Seq<Seq<(Str, Str)>>>,
    consumes: Seq<usize>,
    choice: Seq<usize>,
    choice2: Seq<usize>,
    n: int,
)
    requires
        0 <= n <= consumes.len(),
        consumes.len() == choice.len(),
        forall|s: int|
            0 <= s < consumes.len() ==> m2[(#[trigger] consumes[s]) as int][choice2[s] as int]
                == renamed_env(r, m[consumes[s] as int][choice[s] as int]),
    ensures
        joined_tokens(m, consumes, choice, n) matches Some(e) ==> joined_tokens(
            m2,
            consumes,
            choice2,
            n,
        ) == Some(renamed_env(r, e)),
    decreases n,
{
    if n > 0 {
        lemma_joined_tokens(r, m, m2, consumes, choice, choice2, n - 1);
        let token = m[consumes[n - 1] as int][choice[n - 1] as int];
        assert(m2[consumes[n - 1] as int][choice2[n - 1] as int] == renamed_env(r, token));
        match joined_tokens(m, consumes, choice, n - 1) {
            Some(e) => {
                lemma_joined_token(r, e, token, token.len() as int);
            },
            None => {},
        }
    } else {
        assert(renamed_env(r, Seq::empty()) =~= Seq::<(Str, Str)>::empty());
    }
}

proof fn lemma_in_joined_token(vs: Set<Str>, env: Seq<(Str, Str)>, token: Seq<(Str, Str)>, n: int)
    requires
        0 <= n <= token.len(),
        all_in(vs, env),
        all_in(vs, token),
    ensures
        joined_token(env, token, n) matches Some(e) ==> all_in(vs, e),
    decreases n,
{
    if n > 0 {
        lemma_in_joined_token(vs, env, token, n - 1);
        match joined_token(env, token, n - 1) {
            Some(e) => {
                assert(vs.contains(token[n - 1].1));
                lemma_in_put(vs, e, token[n - 1].0, token[n - 1].1);
            },
            None => {},
        }
    }
}

/// Joining tokens brings in no other values.
pub proof fn lemma_in_joined(
    vs: Set<Str>,
    m: Seq<Seq<Seq<(Str, Str)>>>,
    consumes: Seq<usize>,
    choice: Seq<usize>,
    n: int,
)
    requires
        0 <= n <= consumes.len(),
        consumes.len() == choice.len(),
        forall|s: int|
            0 <= s < consumes.len() ==> all_in(
                vs,
                m[(#[trigger] consumes[s]) as int][choice[s] as int],
            ),
    ensures
        joined_tokens(m, consumes, choice, n) matches Some(e) ==> all_in(vs, e),
    decreases n,
{
    if n > 0 {
        lemma_in_joined(vs, m, consumes, choice, n - 1);
        let token = m[consumes[n - 1] as int][choice[n - 1] as int];
        match joined_tokens(m, consumes, choice, n - 1) {
            Some(e) => {
                assert(all_in(vs, m[consumes[n - 1] as int][choice[n - 1] as int]));
                lemma_in_joined_token(vs, e, token, token.len() as int);
            },
            None => {},
        }
    }
}

// ---------------------------------------------------------------------------
// Effects
// ---------------------------------------------------------------------------
proof fn lemma_matched_args(
    r: Map<Str, Str>,
    vs: Set<Str>,
    args: Seq<(Str, Str)>,
    observed: EffectInstanceView,
    env: Seq<(Str, Str)>,
    step: Str,
    i: int,
)
    requires
        fixes(r, values_of(observed.args)),
        list_in(vs, values_of(observed.args)),
        all_in(vs, env),
        0 <= i <= args.len(),
    ensures
        matched_args(args, observed, env, step, i) matches Ok(e) ==> all_in(vs, e)
            && matched_args(args, observed, renamed_env(r, env), step, i) == Ok::<
            Seq<(Str, Str)>,
            FailureView,
        >(renamed_env(r, e)),
    decreases args.len() - i,
{
    if i < args.len() {
        let key = args[i].0;
        lemma_lookup_value(observed.args, key);
        match lookup(observed.args, key) {
            None => {},
            Some(value) => {
                assert(values_of(observed.args).contains(value));
                match classified(args[i].1) {
                    PatternView::Var(name) => {
                        lemma_renamed_lookup(r, env, name);
                        lemma_renamed_put(r, env, name, value);
                        lemma_in_put(vs, env, name, value);
                        lemma_matched_args(
                            r,
                            vs,
                            args,
                            observed,
                            put(env, name, value),
                            step,
                            i + 1,
                        );
                    },
                    _ => {
                        lemma_matched_args(r, vs, args, observed, env, step, i + 1);
                    },
                }
            },
        }
    }
}

proof fn lemma_matched_effects(
    r: Map<Str, Str>,
    vs: Set<Str>,
    emits: Seq<EffectTemplateView>,
    effects: Seq<EffectInstanceView>,
    env: Seq<(Str, Str)>,
    step: Str,
    i: int,
)
    requires
        all_in(vs, env),
        emits.len() == effects.len(),
        fixes(r, args_upto(effects, effects.len() as int)),
        list_in(vs, args_upto(effects, effects.len() as int)),
        0 <= i <= emits.len(),
    ensures
        matched_effects(emits, effects, env, step, i) matches Ok(e) ==> all_in(vs, e)
            && matched_effects(emits, effects, renamed_env(r, env), step, i) == Ok::<
            Seq<(Str, Str)>,
            FailureView,
        >(renamed_env(r, e)),
    decreases emits.len() - i,
{
    if i < emits.len() {
        lemma_args_upto(effects, effects.len() as int, i);
        lemma_matched_args(r, vs, emits[i].args, effects[i], env, step, 0);
        match matched_effect(emits[i], effects[i], env, step) {
            Ok(next) => {
                lemma_matched_effects(r, vs, emits, effects, next, step, i + 1);
            },
            Err(_) => {},
        }
    }
}

/// The arguments of each effect are among those of all.
pub proof fn lemma_args_upto(es: Seq<EffectInstanceView>, n: int, i: int)
    requires
        0 <= i < n <= es.len(),
    ensures
        forall|v: Str| #[trigger]
            values_of(es[i].args).contains(v) ==> args_upto(es, n).contains(v),
    decreases n,
{
    let a = args_upto(es, n - 1);
    let b = values_of(es[n - 1].args);
    assert forall|v: Str| #[trigger] values_of(es[i].args).contains(v) implies args_upto(
        es,
        n,
    ).contains(v) by {
        if i < n - 1 {
            lemma_args_upto(es, n - 1, i);
        }
        lemma_concat_contains(a, b, v);
    }
}

/// The arguments of all effects are those of one of them.
pub proof fn lemma_args_of(es: Seq<EffectInstanceView>, n: int, v: Str) -> (i: int)
    requires
        0 <= n <= es.len(),
        args_upto(es, n).contains(v),
    ensures
        0 <= i < n,
        values_of(es[i].args).contains(v),
    decreases n,
{
    lemma_concat_contains(args_upto(es, n - 1), values_of(es[n - 1].args), v);
    if args_upto(es, n - 1).contains(v) {
        lemma_args_of(es, n - 1, v)
    } else {
        n - 1
    }
}

// ---------------------------------------------------------------------------
// Evidence and minted names
// ---------------------------------------------------------------------------
proof fn lemma_unattested(
    r: Map<Str, Str>,
    names: Seq<Str>,
    env: Seq<(Str, Str)>,
    evidence: Seq<Str>,
    i: int,
)
    requires
        names.len() > 0 ==> fixes(r, evidence),
        0 <= i <= names.len(),
    ensures
        unattested_from(names, env, evidence, i) is None ==> unattested_from(
            names,
            renamed_env(r, env),
            evidence,
            i,
        ) is None,
    decreases names.len() - i,
{
    if i < names.len() {
        lemma_renamed_lookup(r, env, names[i]);
        match lookup(env, names[i]) {
            None => {},
            Some(v) => {
                if evidence.contains(v) {
                    lemma_unattested(r, names, env, evidence, i + 1);
                }
            },
        }
    }
}

proof fn lemma_minted(
    r: Map<Str, Str>,
    vs: Set<Str>,
    env: Seq<(Str, Str)>,
    binds: Seq<Str>,
    names: Seq<Str>,
    n: int,
)
    requires
        all_in(vs, env),
        list_in(vs, names.take(minted(env, binds, names, n).1 as int)),
        0 <= n <= binds.len(),
        names.len() == binds.len(),
    ensures
        minted(renamed_env(r, env), binds, renamed_values(r, names), n) == (
            renamed_env(r, minted(env, binds, names, n).0),
            minted(env, binds, names, n).1,
        ),
        all_in(vs, minted(env, binds, names, n).0),
    decreases n,
{
    if n > 0 {
        let (e, used) = minted(env, binds, names, n - 1);
        lemma_minted_used(env, binds, names, n - 1);
        let now = minted(env, binds, names, n).1;
        assert forall|v: Str| #[trigger] names.take(used as int).contains(v) implies vs.contains(
            v,
        ) by {
            let i = names.take(used as int).index_of(v);
            assert(names.take(now as int)[i] == v);
            assert(names.take(now as int).contains(v));
        }
        lemma_minted(r, vs, env, binds, names, n - 1);
        lemma_renamed_lookup(r, e, binds[n - 1]);
        if lookup(e, binds[n - 1]) is None {
            let v = names[used as int];
            assert(names.take(now as int)[used as int] == v);
            assert(names.take(now as int).contains(v));
            lemma_renamed_put(r, e, binds[n - 1], v);
            lemma_in_put(vs, e, binds[n - 1], v);
            assert(renamed_values(r, names)[used as int] == renamed(r, v));
        }
    }
}

// ---------------------------------------------------------------------------
// Obligations
// ---------------------------------------------------------------------------
proof fn lemma_binding(
    r: Map<Str, Str>,
    bind: Seq<(Str, Str)>,
    env: Seq<(Str, Str)>,
    target: EffectInstanceView,
    i: int,
)
    requires
        fixes(r, values_of(target.args)),
        0 <= i <= bind.len(),
        binding_fault(bind, env, target, i) is None,
    ensures
        binding_fault(bind, renamed_env(r, env), target, i) is None,
    decreases bind.len() - i,
{
    if i < bind.len() {
        match classified(bind[i].1) {
            PatternView::Var(name) => {
                lemma_renamed_lookup(r, env, name);
            },
            _ => {},
        }
        lemma_lookup_value(target.args, bind[i].0);
        let expected = expected_value(bind[i].1, env)->Some_0;
        let actual = lookup(target.args, bind[i].0)->Some_0;
        assert(actual == expected);
        assert(values_of(target.args).contains(actual));
        lemma_binding(r, bind, env, target, i + 1);
    }
}

/// The arguments of an effect that an edge leads to are among the linked values.
pub proof fn lemma_linked(obs: ObservationView, ids: Seq<Str>, n: int, i: int)
    requires
        0 <= i < n <= obs.edges.len(),
        ids.contains(obs.edges[i].from),
    ensures
        effect_named(obs.records, obs.edges[i].to) matches Some(e) ==> forall|v: Str| #[trigger]
            values_of(e.args).contains(v) ==> linked_values(obs, ids, n).contains(v),
    decreases n,
{
    match effect_named(obs.records, obs.edges[i].to) {
        Some(e) => {
            assert forall|v: Str| #[trigger] values_of(e.args).contains(v) implies linked_values(
                obs,
                ids,
                n,
            ).contains(v) by {
                let rest = linked_values(obs, ids, n - 1);
                if i < n - 1 {
                    lemma_linked(obs, ids, n - 1, i);
                }
                match effect_named(obs.records, obs.edges[n - 1].to) {
                    Some(f) => {
                        lemma_concat_contains(rest, values_of(f.args), v);
                    },
                    None => {},
                }
            }
        },
        None => {},
    }
}

proof fn lemma_edges(
    r: Map<Str, Str>,
    obs: ObservationView,
    ids: Seq<Str>,
    o: RelationObligationView,
    effect: Str,
    env: Seq<(Str, Str)>,
    matched: Seq<Str>,
    d1: Str,
    d2: Str,
    i: int,
)
    requires
        ids.contains(effect),
        fixes(r, linked_values(obs, ids, obs.edges.len() as int)),
        0 <= i <= obs.edges.len(),
        edge_fault(obs, o, effect, env, matched, d1, i) is None,
    ensures
        edge_fault(obs, o, effect, renamed_env(r, env), matched, d2, i) is None,
    decreases obs.edges.len() - i,
{
    if i < obs.edges.len() {
        if bears_on(obs.edges[i], o, effect) {
            match effect_named(obs.records, obs.edges[i].to) {
                None => {
                    lemma_edges(r, obs, ids, o, effect, env, matched, d1, d2, i + 1);
                },
                Some(target) => {
                    lemma_linked(obs, ids, obs.edges.len() as int, i);
                    let e2 = renamed_env(r, env);
                    match target_fault(o, env, target, matched) {
                        None => {
                            lemma_binding(r, o.bind, env, target, 0);
                        },
                        Some(fault) => {
                            match target_fault(o, e2, target, matched) {
                                None => {},
                                Some(f2) => {
                                    lemma_edges(
                                        r,
                                        obs,
                                        ids,
                                        o,
                                        effect,
                                        env,
                                        matched,
                                        fault,
                                        f2,
                                        i + 1,
                                    );
                                },
                            }
                        },
                    }
                },
            }
        } else {
            lemma_edges(r, obs, ids, o, effect, env, matched, d1, d2, i + 1);
        }
    }
}

proof fn lemma_unmet(
    r: Map<Str, Str>,
    ids: Seq<Str>,
    os: Seq<RelationObligationView>,
    transition: Str,
    effect: Str,
    env: Seq<(Str, Str)>,
    obs: ObservationView,
    matched: Seq<Str>,
    i: int,
)
    requires
        ids.contains(effect),
        fixes(r, linked_values(obs, ids, obs.edges.len() as int)),
        0 <= i <= os.len(),
        unmet_from(os, transition, effect, env, obs, matched, i) is None,
    ensures
        unmet_from(os, transition, effect, renamed_env(r, env), obs, matched, i) is None,
    decreases os.len() - i,
{
    if i < os.len() {
        assert(obligation_fault(obs, os[i], effect, env, matched) is None);
        assert(some_edge(obs, os[i], effect));
        lemma_edges(r, obs, ids, os[i], effect, env, matched, Seq::empty(), Seq::empty(), 0);
        lemma_unmet(r, ids, os, transition, effect, env, obs, matched, i + 1);
    }
}

proof fn lemma_unmet_effects(
    r: Map<Str, Str>,
    emits: Seq<EffectTemplateView>,
    effects: Seq<EffectInstanceView>,
    transition: Str,
    env: Seq<(Str, Str)>,
    obs: ObservationView,
    matched: Seq<Str>,
    i: int,
)
    requires
        emits.len() == effects.len(),
        fixes(r, linked_values(obs, ids_of(effects), obs.edges.len() as int)),
        0 <= i <= emits.len(),
        unmet_effect_from(emits, effects, transition, env, obs, matched, i) is None,
    ensures
        unmet_effect_from(emits, effects, transition, renamed_env(r, env), obs, matched, i) is None,
    decreases emits.len() - i,
{
    if i < emits.len() {
        let ids = ids_of(effects);
        assert(ids[i] == effects[i].id);
        lemma_unmet(
            r,
            ids,
            emits[i].requires_relation,
            transition,
            effects[i].id,
            env,
            obs,
            matched,
            0,
        );
        lemma_unmet_effects(r, emits, effects, transition, env, obs, matched, i + 1);
    }
}

// ---------------------------------------------------------------------------
// Firing
// ---------------------------------------------------------------------------
/// What is relevant of each kind.
pub proof fn lemma_relevant(net: NetView, obs: ObservationView, t: CompiledTransitionView, aim: AimView, v: Str)
    ensures
        relevant(net, obs, t, aim).contains(v) <==> {
            let es = aim_effects(obs, aim);
            ||| args_upto(es, es.len() as int).contains(v)
            ||| linked_values(obs, ids_of(es), obs.edges.len() as int).contains(v)
            ||| t.attested.len() > 0 && net.evidence.contains(v)
            ||| guard_literals(t.guard).contains(v)
        },
{
    let es = aim_effects(obs, aim);
    let a = args_upto(es, es.len() as int);
    let b = linked_values(obs, ids_of(es), obs.edges.len() as int);
    let c = if t.attested.len() == 0 {
        Seq::empty()
    } else {
        net.evidence
    };
    let d = guard_literals(t.guard);
    lemma_concat_contains(a, b, v);
    lemma_concat_contains(a + b, c, v);
    lemma_concat_contains(a + b + c, d, v);
}

proof fn lemma_bound_for(
    r: Map<Str, Str>,
    vs: Set<Str>,
    net: NetView,
    obs: ObservationView,
    t: CompiledTransitionView,
    aim: AimView,
    base: Seq<(Str, Str)>,
)
    requires
        aim_ok(obs, t, aim),
        fixes(r, relevant(net, obs, t, aim)),
        list_in(vs, relevant(net, obs, t, aim)),
        all_in(vs, base),
    ensures
        bound_for(obs, t, aim, base) matches Ok(e) ==> all_in(vs, e) && bound_for(
            obs,
            t,
            aim,
            renamed_env(r, base),
        ) == Ok::<Seq<(Str, Str)>, Option<FailureView>>(renamed_env(r, e)),
{
    let es = aim_effects(obs, aim);
    let a = args_upto(es, es.len() as int);
    assert(fixes(r, a) && list_in(vs, a)) by {
        assert forall|v: Str| #[trigger] a.contains(v) implies renamed(r, v) == v && vs.contains(
            v,
        ) by {
            lemma_relevant(net, obs, t, aim, v);
        }
    }
    match aim {
        AimView::Record(ix) => {
            lemma_matched_effects(
                r,
                vs,
                t.emits,
                es,
                base,
                obs.records[ix].step->Some_0,
                0,
            );
        },
        AimView::Target(Some(id)) => {
            match effect_named(obs.records, id) {
                Some(e) => {
                    lemma_args_upto(es, 1, 0);
                    lemma_matched_args(r, vs, t.emits[0].args, e, base, t.id, 0);
                },
                None => {},
            }
        },
        AimView::Target(None) => {},
    }
}

proof fn lemma_unmet_for(
    r: Map<Str, Str>,
    net: NetView,
    obs: ObservationView,
    t: CompiledTransitionView,
    aim: AimView,
    env: Seq<(Str, Str)>,
    matched: Seq<Str>,
)
    requires
        aim_ok(obs, t, aim),
        fixes(r, relevant(net, obs, t, aim)),
        aim matches AimView::Target(Some(id)) ==> effect_named(obs.records, id) is Some,
        unmet_for(obs, t, aim, env, matched) is None,
    ensures
        unmet_for(obs, t, aim, renamed_env(r, env), matched) is None,
{
    let es = aim_effects(obs, aim);
    let b = linked_values(obs, ids_of(es), obs.edges.len() as int);
    assert(fixes(r, b)) by {
        assert forall|v: Str| #[trigger] b.contains(v) implies renamed(r, v) == v by {
            lemma_relevant(net, obs, t, aim, v);
        }
    }
    match aim {
        AimView::Record(ix) => {
            lemma_unmet_effects(r, t.emits, es, t.id, env, obs, matched, 0);
        },
        AimView::Target(Some(id)) => {
            lemma_effect_from(all_effects(obs.records), id, 0);
            assert(ids_of(es)[0] == id);
            lemma_unmet(
                r,
                ids_of(es),
                t.emits[0].requires_relation,
                t.id,
                id,
                env,
                obs,
                matched,
                0,
            );
        },
        AimView::Target(None) => {},
    }
}

/// A firing with other names for its values: it has the same outcome under those names, unless
/// its guard tells the difference. It brings in no other values.
pub proof fn lemma_env_for(
    r: Map<Str, Str>,
    vs: Set<Str>,
    net: NetView,
    obs: ObservationView,
    t: CompiledTransitionView,
    aim: AimView,
    matched: Seq<Str>,
    base: Seq<(Str, Str)>,
    names: Seq<Str>,
)
    requires
        aim_ok(obs, t, aim),
        names.len() == t.binds.len(),
        fixes(r, relevant(net, obs, t, aim)),
        list_in(vs, relevant(net, obs, t, aim)),
        all_in(vs, base),
        env_for(net, obs, t, aim, matched, base, names) matches Ok(p) && list_in(
            vs,
            names.take(p.1 as int),
        ),
    ensures
        ({
            let p = env_for(net, obs, t, aim, matched, base, names)->Ok_0;
            let q = env_for(
                net,
                obs,
                t,
                aim,
                matched,
                renamed_env(r, base),
                renamed_values(r, names),
            );
            &&& all_in(vs, p.0)
            &&& guard_ok(t, renamed_env(r, p.0)) ==> q == Ok::<
                (Seq<(Str, Str)>, nat),
                Option<FailureView>,
            >((renamed_env(r, p.0), p.1))
            &&& q is Ok ==> guard_ok(t, renamed_env(r, p.0))
        }),
{
    let bound = bound_for(obs, t, aim, base)->Ok_0;
    lemma_bound_for(r, vs, net, obs, t, aim, base);
    assert(t.attested.len() > 0 ==> fixes(r, net.evidence)) by {
        if t.attested.len() > 0 {
            assert forall|v: Str| #[trigger] net.evidence.contains(v) implies renamed(r, v)
                == v by {
                lemma_relevant(net, obs, t, aim, v);
            }
        }
    }
    lemma_unattested(r, t.attested, bound, net.evidence, 0);
    let n = t.binds.len() as int;
    lemma_minted(r, vs, bound, t.binds, names, n);
    let env = minted(bound, t.binds, names, n).0;
    lemma_unmet_for(r, net, obs, t, aim, env, matched);
}

// ---------------------------------------------------------------------------
// Guards
// ---------------------------------------------------------------------------
proof fn lemma_guard_side(r: Map<Str, Str>, env: Seq<(Str, Str)>, side: Str)
    requires
        fixes(r, side_literals(side)),
    ensures
        guard_side(side, renamed_env(r, env)) == (match guard_side(side, env) {
            Some(v) => Some(renamed(r, v)),
            None => None,
        }),
        guard_side(side, env) matches Some(v) ==> values_of(env).contains(v) || side_literals(
            side,
        ).contains(v),
{
    match classified(trimmed(side)) {
        PatternView::Var(name) => {
            lemma_renamed_lookup(r, env, name);
            lemma_lookup_value(env, name);
        },
        PatternView::Lit(v) => {
            assert(side_literals(side)[0] == stripped(v, '"'));
            assert(side_literals(side).contains(stripped(v, '"')));
        },
        PatternView::Glob(v) => {
            assert(side_literals(side)[0] == v);
            assert(side_literals(side).contains(v));
        },
    }
}

proof fn lemma_literals(clauses: Seq<Str>, n: int, i: int, v: Str)
    requires
        0 <= i < n <= clauses.len(),
        clause_literals(trimmed(clauses[i])).contains(v),
    ensures
        literals_upto(clauses, n).contains(v),
    decreases n,
{
    if i < n - 1 {
        lemma_literals(clauses, n - 1, i, v);
    }
    lemma_concat_contains(
        literals_upto(clauses, n - 1),
        clause_literals(trimmed(clauses[n - 1])),
        v,
    );
}

/// The literals of a clause are among those of the guard.
proof fn lemma_sides(guard: Str, i: int)
    requires
        0 <= i < pieces(guard, "&&"@).len(),
    ensures
        clause_parts(trimmed(pieces(guard, "&&"@)[i])) matches Some(p) ==> (forall|v: Str|
            #[trigger] side_literals(p.0).contains(v) ==> guard_literals(Some(guard)).contains(v))
            && (forall|v: Str|
            #[trigger] side_literals(p.2).contains(v) ==> guard_literals(Some(guard)).contains(v)),
{
    let ps = pieces(guard, "&&"@);
    match clause_parts(trimmed(ps[i])) {
        Some(p) => {
            assert forall|v: Str| #[trigger] side_literals(p.0).contains(v) implies guard_literals(
                Some(guard),
            ).contains(v) by {
                lemma_concat_contains(side_literals(p.0), side_literals(p.2), v);
                lemma_literals(ps, ps.len() as int, i, v);
            }
            assert forall|v: Str| #[trigger] side_literals(p.2).contains(v) implies guard_literals(
                Some(guard),
            ).contains(v) by {
                lemma_concat_contains(side_literals(p.0), side_literals(p.2), v);
                lemma_literals(ps, ps.len() as int, i, v);
            }
        },
        None => {},
    }
}

/// A guard holds under names that tell its values apart.
pub proof fn lemma_guard_apart(
    r: Map<Str, Str>,
    vs: Set<Str>,
    env: Seq<(Str, Str)>,
    guard: Str,
)
    requires
        all_in(vs, env),
        list_in(vs, guard_literals(Some(guard))),
        fixes(r, guard_literals(Some(guard))),
        forall|x: Str, y: Str|
            vs.contains(x) && vs.contains(y) && #[trigger] renamed(r, x) == #[trigger] renamed(r, y)
                ==> x == y,
        guard_holds(guard, env),
    ensures
        guard_holds(guard, renamed_env(r, env)),
{
    let ps = pieces(guard, "&&"@);
    let e2 = renamed_env(r, env);
    assert forall|i: int| 0 <= i < ps.len() implies guard_clause_holds(
        trimmed(#[trigger] ps[i]),
        e2,
    ) by {
        let clause = trimmed(ps[i]);
        assert(guard_clause_holds(clause, env));
        lemma_sides(guard, i);
        match clause_parts(clause) {
            Some(p) => {
                assert(fixes(r, side_literals(p.0)) && fixes(r, side_literals(p.2)));
                lemma_guard_side(r, env, p.0);
                lemma_guard_side(r, env, p.2);
                match (guard_side(p.0, env), guard_side(p.2, env)) {
                    (Some(x), Some(y)) => {
                        lemma_side_in(vs, env, guard, p.0, x);
                        lemma_side_in(vs, env, guard, p.2, y);
                        assert(renamed(r, x) == renamed(r, y) ==> x == y);
                    },
                    _ => {},
                }
            },
            None => {},
        }
    }
}

proof fn lemma_side_in(vs: Set<Str>, env: Seq<(Str, Str)>, guard: Str, side: Str, x: Str)
    requires
        all_in(vs, env),
        list_in(vs, guard_literals(Some(guard))),
        forall|v: Str| #[trigger]
            side_literals(side).contains(v) ==> guard_literals(Some(guard)).contains(v),
        values_of(env).contains(x) || side_literals(side).contains(x),
    ensures
        vs.contains(x),
{
    if values_of(env).contains(x) {
        let i = values_of(env).index_of(x);
        assert(env[i].1 == x);
    } else {
        assert(guard_literals(Some(guard)).contains(x));
    }
}

/// A guard that holds before and after a renaming holds after any part of it.
pub proof fn lemma_guard_between(
    a: Map<Str, Str>,
    b: Map<Str, Str>,
    env: Seq<(Str, Str)>,
    guard: Str,
)
    requires
        fixes(a, guard_literals(Some(guard))),
        fixes(b, guard_literals(Some(guard))),
        forall|i: int|
            0 <= i < env.len() ==> renamed(b, renamed(a, (#[trigger] env[i]).1)) == renamed(
                b,
                env[i].1,
            ),
        guard_holds(guard, env),
        guard_holds(guard, renamed_env(b, env)),
    ensures
        guard_holds(guard, renamed_env(a, env)),
{
    let ps = pieces(guard, "&&"@);
    assert forall|i: int| 0 <= i < ps.len() implies guard_clause_holds(
        trimmed(#[trigger] ps[i]),
        renamed_env(a, env),
    ) by {
        let clause = trimmed(ps[i]);
        assert(guard_clause_holds(clause, env));
        assert(guard_clause_holds(clause, renamed_env(b, env)));
        lemma_sides(guard, i);
        match clause_parts(clause) {
            Some(p) => {
                assert(fixes(a, side_literals(p.0)) && fixes(a, side_literals(p.2)));
                assert(fixes(b, side_literals(p.0)) && fixes(b, side_literals(p.2)));
                lemma_guard_side(a, env, p.0);
                lemma_guard_side(a, env, p.2);
                lemma_guard_side(b, env, p.0);
                lemma_guard_side(b, env, p.2);
                match (guard_side(p.0, env), guard_side(p.2, env)) {
                    (Some(x), Some(y)) => {
                        lemma_side_between(a, b, env, p.0, x);
                        lemma_side_between(a, b, env, p.2, y);
                    },
                    _ => {},
                }
            },
            None => {},
        }
    }
}

proof fn lemma_side_between(
    a: Map<Str, Str>,
    b: Map<Str, Str>,
    env: Seq<(Str, Str)>,
    side: Str,
    x: Str,
)
    requires
        fixes(a, side_literals(side)),
        fixes(b, side_literals(side)),
        forall|i: int|
            0 <= i < env.len() ==> renamed(b, renamed(a, (#[trigger] env[i]).1)) == renamed(
                b,
                env[i].1,
            ),
        values_of(env).contains(x) || side_literals(side).contains(x),
    ensures
        renamed(b, renamed(a, x)) == renamed(b, x),
{
    if values_of(env).contains(x) {
        let i = values_of(env).index_of(x);
        assert(env[i].1 == x);
    }
}

// ---------------------------------------------------------------------------
// Markings
// ---------------------------------------------------------------------------
/// Making a token.
pub proof fn lemma_made_token(r: Map<Str, Str>, carries: Seq<Str>, env: Seq<(Str, Str)>, n: int)
    requires
        0 <= n <= carries.len(),
    ensures
        made_token(carries, renamed_env(r, env), n) == renamed_env(
            r,
            made_token(carries, env, n),
        ),
    decreases n,
{
    if n > 0 {
        lemma_made_token(r, carries, env, n - 1);
        lemma_renamed_lookup(r, env, carries[n - 1]);
        let made = made_token(carries, env, n - 1);
        match lookup(env, carries[n - 1]) {
            Some(v) => {
                lemma_renamed_put(r, made, carries[n - 1], v);
            },
            None => {},
        }
    } else {
        assert(renamed_env(r, Seq::empty()) =~= Seq::<(Str, Str)>::empty());
    }
}

proof fn lemma_in_made(vs: Set<Str>, carries: Seq<Str>, env: Seq<(Str, Str)>, n: int)
    requires
        all_in(vs, env),
        0 <= n <= carries.len(),
    ensures
        all_in(vs, made_token(carries, env, n)),
    decreases n,
{
    if n > 0 {
        lemma_in_made(vs, carries, env, n - 1);
        lemma_in_lookup(vs, env, carries[n - 1]);
        match lookup(env, carries[n - 1]) {
            Some(v) => {
                lemma_in_put(vs, made_token(carries, env, n - 1), carries[n - 1], v);
            },
            None => {},
        }
    }
}

proof fn lemma_left_renamed(
    r: Map<Str, Str>,
    ts: Seq<Seq<(Str, Str)>>,
    consumes: Seq<usize>,
    choice: Seq<usize>,
    p: int,
    n: int,
)
    requires
        0 <= n <= ts.len(),
    ensures
        left_tokens(renamed_tokens(r, ts), consumes, choice, p, n) == renamed_tokens(
            r,
            left_tokens(ts, consumes, choice, p, n),
        ),
    decreases n,
{
    if n > 0 {
        lemma_left_renamed(r, ts, consumes, choice, p, n - 1);
        let left = left_tokens(ts, consumes, choice, p, n - 1);
        assert(renamed_tokens(r, left.push(ts[n - 1])) =~= renamed_tokens(r, left).push(
            renamed_env(r, ts[n - 1]),
        ));
    } else {
        assert(renamed_tokens(r, Seq::empty()) =~= Seq::<Seq<(Str, Str)>>::empty());
    }
}

proof fn lemma_with_renamed(
    r: Map<Str, Str>,
    m: Seq<Seq<Seq<(Str, Str)>>>,
    carries: Seq<Seq<Str>>,
    produces: Seq<usize>,
    env: Seq<(Str, Str)>,
    n: int,
)
    requires
        0 <= n <= produces.len(),
        within(produces, m.len() as int),
    ensures
        with_tokens(m, carries, produces, env, n).len() == m.len(),
        with_tokens(renamed_marking(r, m), carries, produces, renamed_env(r, env), n)
            == renamed_marking(r, with_tokens(m, carries, produces, env, n)),
    decreases n,
{
    if n > 0 {
        lemma_with_renamed(r, m, carries, produces, env, n - 1);
        let prior = with_tokens(m, carries, produces, env, n - 1);
        let p = produces[n - 1] as int;
        let token = made_token(carries[p], env, carries[p].len() as int);
        lemma_made_token(r, carries[p], env, carries[p].len() as int);
        let next = prior.update(p, prior[p].push(token));
        assert(renamed_tokens(r, prior[p].push(token)) =~= renamed_tokens(r, prior[p]).push(
            renamed_env(r, token),
        ));
        assert(renamed_marking(r, next) =~= renamed_marking(r, prior).update(
            p,
            renamed_marking(r, prior)[p].push(renamed_env(r, token)),
        ));
    }
}

/// Firing does not depend on names.
pub proof fn lemma_fired_renamed(
    r: Map<Str, Str>,
    net: NetView,
    m: Seq<Seq<Seq<(Str, Str)>>>,
    t: CompiledTransitionView,
    choice: Seq<usize>,
    env: Seq<(Str, Str)>,
)
    requires
        transition_ok(t, m.len() as int),
    ensures
        fired(net, renamed_marking(r, m), t, choice, renamed_env(r, env)) == renamed_marking(
            r,
            fired(net, m, t, choice, env),
        ),
{
    let left = left_marking(m, t.consumes, choice);
    assert forall|p: int| 0 <= p < m.len() implies left_tokens(
        renamed_tokens(r, m[p]),
        t.consumes,
        choice,
        p,
        m[p].len() as int,
    ) == renamed_tokens(r, #[trigger] left[p]) by {
        lemma_left_renamed(r, m[p], t.consumes, choice, p, m[p].len() as int);
    }
    assert(left_marking(renamed_marking(r, m), t.consumes, choice) =~= renamed_marking(r, left));
    lemma_with_renamed(
        r,
        left,
        net.place_carries,
        t.produces,
        env,
        t.produces.len() as int,
    );
}

/// Whether every value in a marking is among these.
pub open spec fn marking_in(vs: Set<Str>, m: Seq<Seq<Seq<(Str, Str)>>>) -> bool {
    forall|p: int, i: int|
        0 <= p < m.len() && 0 <= i < m[p].len() ==> all_in(vs, #[trigger] m[p][i])
}

proof fn lemma_in_left(
    vs: Set<Str>,
    ts: Seq<Seq<(Str, Str)>>,
    consumes: Seq<usize>,
    choice: Seq<usize>,
    p: int,
    n: int,
)
    requires
        0 <= n <= ts.len(),
        forall|i: int| 0 <= i < ts.len() ==> all_in(vs, #[trigger] ts[i]),
    ensures
        forall|i: int|
            0 <= i < left_tokens(ts, consumes, choice, p, n).len() ==> all_in(
                vs,
                #[trigger] left_tokens(ts, consumes, choice, p, n)[i],
            ),
    decreases n,
{
    if n > 0 {
        lemma_in_left(vs, ts, consumes, choice, p, n - 1);
        assert(all_in(vs, ts[n - 1]));
        let rest = left_tokens(ts, consumes, choice, p, n - 1);
        let all = left_tokens(ts, consumes, choice, p, n);
        assert forall|i: int| 0 <= i < all.len() implies all_in(vs, #[trigger] all[i]) by {
            if i < rest.len() {
                assert(all[i] == rest[i]);
            }
        }
    }
}

proof fn lemma_in_with(
    vs: Set<Str>,
    m: Seq<Seq<Seq<(Str, Str)>>>,
    carries: Seq<Seq<Str>>,
    produces: Seq<usize>,
    env: Seq<(Str, Str)>,
    n: int,
)
    requires
        0 <= n <= produces.len(),
        within(produces, m.len() as int),
        marking_in(vs, m),
        all_in(vs, env),
    ensures
        with_tokens(m, carries, produces, env, n).len() == m.len(),
        marking_in(vs, with_tokens(m, carries, produces, env, n)),
    decreases n,
{
    if n > 0 {
        lemma_in_with(vs, m, carries, produces, env, n - 1);
        let prior = with_tokens(m, carries, produces, env, n - 1);
        let p = produces[n - 1] as int;
        let token = made_token(carries[p], env, carries[p].len() as int);
        lemma_in_made(vs, carries[p], env, carries[p].len() as int);
        let next = prior.update(p, prior[p].push(token));
        assert forall|q: int, i: int| 0 <= q < next.len() && 0 <= i < next[q].len() implies all_in(
            vs,
            #[trigger] next[q][i],
        ) by {
            if q == p && i == prior[p].len() {
                assert(next[q][i] == token);
            } else {
                assert(next[q][i] == prior[q][i]);
            }
        }
    }
}

/// Firing brings in no other values.
pub proof fn lemma_in_fired(
    vs: Set<Str>,
    net: NetView,
    m: Seq<Seq<Seq<(Str, Str)>>>,
    t: CompiledTransitionView,
    choice: Seq<usize>,
    env: Seq<(Str, Str)>,
)
    requires
        transition_ok(t, m.len() as int),
        marking_in(vs, m),
        all_in(vs, env),
    ensures
        marking_in(vs, fired(net, m, t, choice, env)),
{
    let left = left_marking(m, t.consumes, choice);
    assert(marking_in(vs, left)) by {
        assert forall|p: int, i: int|
            0 <= p < left.len() && 0 <= i < left[p].len() implies all_in(
            vs,
            #[trigger] left[p][i],
        ) by {
            assert forall|i: int| 0 <= i < m[p].len() implies all_in(vs, #[trigger] m[p][i]) by {}
            lemma_in_left(vs, m[p], t.consumes, choice, p, m[p].len() as int);
        }
    }
    lemma_in_with(vs, left, net.place_carries, t.produces, env, t.produces.len() as int);
}

} // verus!
