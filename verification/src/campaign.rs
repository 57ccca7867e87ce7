//! Mutation testing of a rejection: which clauses, alone or in pairs, it rests on.

use crate::index::assigned;
use crate::judge::plain_options;
use crate::lint::{lint, linted, sound};
use crate::model::{EffectTemplateView, Spec, SpecView, TransitionView};
use crate::mutate::{
    all_mutants, applied, apply, arg_mutants, drops_upto, effect_mutants, guard_mutants,
    has_template, mutants, obligation_mutants, principal_mutants, relation_mutants, relaxed,
    relaxed_upto, transition_mutants, without, without_upto, Mutant, MutantView, Mutation,
    MutationView,
};
use crate::net::{compiled, Net};
use crate::observation::{Observation, ObservationView};
use crate::ordered::{empty_vec, keys_of, push_to, Dup};
use crate::search::{arg_count, growth, max_growth};
use crate::text::Str;
use crate::verify::{fits, roomy_bound, verified, verify, Verdict, VerifyOptions};
use vstd::prelude::*;

verus! {

/// What became of a mutated specification: it is not sound, or it accepts the run, or rejects
/// it.
#[derive(Debug, Clone, Copy, PartialEq, Eq, Structural)]
pub enum Trial {
    Unsound,
    Accept,
    Reject,
}

impl DeepView for Trial {
    type V = Trial;

    open spec fn deep_view(&self) -> Trial {
        *self
    }
}

impl Dup for Trial {
    fn dup(&self) -> (r: Self) {
        *self
    }
}

/// What mutation testing found.
#[derive(Debug)]
pub struct Campaign {
    /// The verdict on the specification as it is.
    pub baseline: Verdict,
    /// What became of each mutant, where the run is rejected.
    pub singles: Vec<Trial>,
    /// The pairs of mutants that accept the run, where no single one does.
    pub pairs: Vec<(usize, usize)>,
}

/// The mutations of the mutants at these positions.
pub open spec fn mutations_at(ms: Seq<MutantView>, at: Seq<int>) -> Seq<MutationView> {
    Seq::new(at.len(), |i: int| ms[at[i]].mutation)
}

/// What becomes of a specification with these mutations.
pub open spec fn trial(
    spec: SpecView,
    ms: Seq<MutationView>,
    obs: ObservationView,
    slack: usize,
) -> Trial {
    let m = applied(spec, ms);
    if !sound(linted(m).diagnostics) {
        Trial::Unsound
    } else if verified(compiled(m), obs, plain_options(obs, slack)).verdict == Verdict::Accept {
        Trial::Accept
    } else {
        Trial::Reject
    }
}

/// What becomes of the first `n` mutants.
pub open spec fn singles_upto(
    spec: SpecView,
    obs: ObservationView,
    slack: usize,
    n: int,
) -> Seq<Trial> {
    Seq::new(
        n as nat,
        |i: int| trial(spec, mutations_at(all_mutants(spec), seq![i]), obs, slack),
    )
}

/// The mutants between the `a`th and the `n`th that, with the `a`th, accept the run.
pub open spec fn partners_upto(
    spec: SpecView,
    obs: ObservationView,
    slack: usize,
    a: int,
    n: int,
) -> Seq<(usize, usize)>
    decreases n - a,
{
    if n <= a + 1 {
        Seq::empty()
    } else {
        let rest = partners_upto(spec, obs, slack, a, n - 1);
        if trial(spec, mutations_at(all_mutants(spec), seq![a, n - 1]), obs, slack)
            == Trial::Accept {
            rest.push((a as usize, (n - 1) as usize))
        } else {
            rest
        }
    }
}

/// The pairs of mutants, the first among the first `n`, that accept the run.
pub open spec fn pairs_upto(
    spec: SpecView,
    obs: ObservationView,
    slack: usize,
    n: int,
) -> Seq<(usize, usize)>
    decreases n,
{
    if n <= 0 {
        Seq::empty()
    } else {
        pairs_upto(spec, obs, slack, n - 1) + partners_upto(
            spec,
            obs,
            slack,
            n - 1,
            all_mutants(spec).len() as int,
        )
    }
}

// ---------------------------------------------------------------------------
// Mutated nets are no larger
// ---------------------------------------------------------------------------
/// Whether two specifications bind the same variables and name the same arguments.
spec fn same_names(a: SpecView, b: SpecView) -> bool {
    &&& a.transitions.len() == b.transitions.len()
    &&& forall|t: int|
        0 <= t < a.transitions.len() ==> same_names_at(
            #[trigger] a.transitions[t],
            b.transitions[t],
        )
}

spec fn same_names_at(x: TransitionView, y: TransitionView) -> bool {
    &&& x.binds == y.binds
    &&& x.emits.len() == y.emits.len()
    &&& forall|e: int|
        0 <= e < x.emits.len() ==> keys_of((#[trigger] x.emits[e]).args) == keys_of(
            y.emits[e].args,
        )
}

/// Whether an argument that a mutation loosens is there.
spec fn apt(spec: SpecView, m: MutationView) -> bool {
    match m {
        MutationView::LoosenArg { transition, emit, key } => has_template(
            spec,
            transition as int,
            emit as int,
        ) ==> keys_of(spec.transitions[transition as int].emits[emit as int].args).contains(key),
        _ => true,
    }
}

proof fn lemma_assigned_keys<W>(m: Seq<(Str, W)>, k: Str, v: W)
    requires
        keys_of(m).contains(k),
    ensures
        keys_of(assigned(m, k, v)) == keys_of(m),
    decreases m.len(),
{
    if m.len() > 0 {
        let d = m.drop_first();
        if m[0].0 == k {
            assert(keys_of(seq![(k, v)] + d) =~= keys_of(m));
        } else {
            let i = keys_of(m).index_of(k);
            assert(keys_of(d)[i - 1] == k);
            lemma_assigned_keys(d, k, v);
            let r = assigned(d, k, v);
            assert forall|j: int| 0 <= j < r.len() implies r[j].0 == d[j].0 by {
                assert(keys_of(r)[j] == keys_of(d)[j]);
            }
            assert(keys_of(r).len() == keys_of(d).len());
            assert(keys_of(seq![m[0]] + r) =~= keys_of(m));
        }
    }
}

proof fn lemma_relaxed_names(spec: SpecView, cur: SpecView, m: MutationView)
    requires
        same_names(cur, spec),
        apt(spec, m),
    ensures
        same_names(relaxed(cur, m), spec),
{
    let r = relaxed(cur, m);
    match m {
        MutationView::LoosenArg { transition, emit, key } => {
            if has_template(cur, transition as int, emit as int) {
                let t0 = transition as int;
                let e0 = emit as int;
                assert(same_names_at(cur.transitions[t0], spec.transitions[t0]));
                let v = cur.transitions[t0].emits[e0];
                assert(keys_of(v.args) == keys_of(spec.transitions[t0].emits[e0].args));
                lemma_assigned_keys(v.args, key, "*"@);
                assert forall|t: int| 0 <= t < r.transitions.len() implies same_names_at(
                    #[trigger] r.transitions[t],
                    spec.transitions[t],
                ) by {
                    assert(same_names_at(cur.transitions[t], spec.transitions[t]));
                    let x = r.transitions[t];
                    let y = spec.transitions[t];
                    assert forall|e: int| 0 <= e < x.emits.len() implies keys_of(
                        (#[trigger] x.emits[e]).args,
                    ) == keys_of(y.emits[e].args) by {
                        if t == t0 && e == e0 {
                        } else {
                            assert(x.emits[e] == cur.transitions[t].emits[e]);
                        }
                    }
                }
            }
        },
        _ => {
            assert forall|t: int| 0 <= t < r.transitions.len() implies same_names_at(
                #[trigger] r.transitions[t],
                spec.transitions[t],
            ) by {
                assert(same_names_at(cur.transitions[t], spec.transitions[t]));
            }
        },
    }
}

proof fn lemma_without_names(spec: SpecView, cur: SpecView, x: (usize, usize, usize))
    requires
        same_names(cur, spec),
    ensures
        same_names(without(cur, x), spec),
{
    let r = without(cur, x);
    assert forall|t: int| 0 <= t < r.transitions.len() implies same_names_at(
        #[trigger] r.transitions[t],
        spec.transitions[t],
    ) by {
        assert(same_names_at(cur.transitions[t], spec.transitions[t]));
        let a = r.transitions[t];
        let y = spec.transitions[t];
        assert forall|e: int| 0 <= e < a.emits.len() implies keys_of((#[trigger] a.emits[e]).args)
            == keys_of(y.emits[e].args) by {
            assert(a.emits[e].args == cur.transitions[t].emits[e].args);
        }
    }
}

proof fn lemma_relaxed_upto_names(spec: SpecView, ms: Seq<MutationView>, n: int)
    requires
        0 <= n <= ms.len(),
        forall|i: int| 0 <= i < ms.len() ==> apt(spec, #[trigger] ms[i]),
    ensures
        same_names(relaxed_upto(spec, ms, n), spec),
    decreases n,
{
    if n > 0 {
        lemma_relaxed_upto_names(spec, ms, n - 1);
        lemma_relaxed_names(spec, relaxed_upto(spec, ms, n - 1), ms[n - 1]);
    } else {
        assert forall|t: int| 0 <= t < spec.transitions.len() implies same_names_at(
            #[trigger] spec.transitions[t],
            spec.transitions[t],
        ) by {}
    }
}

proof fn lemma_without_upto_names(
    spec: SpecView,
    cur: SpecView,
    xs: Seq<(usize, usize, usize)>,
    n: int,
)
    requires
        same_names(cur, spec),
    ensures
        same_names(without_upto(cur, xs, n), spec),
    decreases n,
{
    if n > 0 {
        lemma_without_upto_names(spec, cur, xs, n - 1);
        lemma_without_names(spec, without_upto(cur, xs, n - 1), xs[n - 1]);
    }
}

proof fn lemma_same_arg_count(a: Seq<EffectTemplateView>, b: Seq<EffectTemplateView>, n: int)
    requires
        0 <= n <= a.len(),
        a.len() == b.len(),
        forall|e: int|
            0 <= e < a.len() ==> keys_of((#[trigger] a[e]).args) == keys_of(b[e].args),
    ensures
        arg_count(a, n) == arg_count(b, n),
    decreases n,
{
    if n > 0 {
        lemma_same_arg_count(a, b, n - 1);
        assert(keys_of(a[n - 1].args).len() == keys_of(b[n - 1].args).len());
    }
}

proof fn lemma_same_growth(a: SpecView, b: SpecView, n: int)
    requires
        same_names(a, b),
        0 <= n <= a.transitions.len(),
    ensures
        max_growth(compiled(a).transitions, n) == max_growth(compiled(b).transitions, n),
    decreases n,
{
    if n > 0 {
        lemma_same_growth(a, b, n - 1);
        assert(same_names_at(a.transitions[n - 1], b.transitions[n - 1]));
        lemma_same_arg_count(
            a.transitions[n - 1].emits,
            b.transitions[n - 1].emits,
            a.transitions[n - 1].emits.len() as int,
        );
        assert(growth(compiled(a).transitions[n - 1]) == growth(compiled(b).transitions[n - 1]));
    }
}

/// Whether the counts of a specification's transitions and effects are machine numbers.
spec fn countable(spec: SpecView) -> bool {
    &&& spec.transitions.len() <= usize::MAX
    &&& forall|t: int|
        0 <= t < spec.transitions.len() ==> (#[trigger] spec.transitions[t]).emits.len()
            <= usize::MAX
}

proof fn lemma_obligations_apt(
    spec: SpecView,
    t: TransitionView,
    ti: int,
    e: EffectTemplateView,
    ei: int,
    n: int,
)
    requires
        0 <= n <= e.requires_relation.len(),
    ensures
        forall|i: int|
            0 <= i < obligation_mutants(t, ti, e, ei, n).len() ==> apt(
                spec,
                (#[trigger] obligation_mutants(t, ti, e, ei, n)[i]).mutation,
            ),
    decreases n,
{
    if n > 0 {
        lemma_obligations_apt(spec, t, ti, e, ei, n - 1);
        let rest = obligation_mutants(t, ti, e, ei, n - 1);
        let all = obligation_mutants(t, ti, e, ei, n);
        assert forall|i: int| 0 <= i < all.len() implies apt(
            spec,
            (#[trigger] all[i]).mutation,
        ) by {
            if i < rest.len() {
                assert(apt(spec, rest[i].mutation));
            }
        }
    }
}

proof fn lemma_args_apt(
    spec: SpecView,
    t: TransitionView,
    ti: int,
    e: EffectTemplateView,
    ei: int,
    n: int,
)
    requires
        countable(spec),
        0 <= ti < spec.transitions.len(),
        t == spec.transitions[ti],
        0 <= ei < t.emits.len(),
        e == t.emits[ei],
        0 <= n <= e.args.len(),
    ensures
        forall|i: int|
            0 <= i < arg_mutants(t, ti, e, ei, n).len() ==> apt(
                spec,
                (#[trigger] arg_mutants(t, ti, e, ei, n)[i]).mutation,
            ),
    decreases n,
{
    if n > 0 {
        lemma_args_apt(spec, t, ti, e, ei, n - 1);
        let rest = arg_mutants(t, ti, e, ei, n - 1);
        let all = arg_mutants(t, ti, e, ei, n);
        assert(keys_of(e.args)[n - 1] == e.args[n - 1].0);
        assert(keys_of(e.args).contains(e.args[n - 1].0));
        assert forall|i: int| 0 <= i < all.len() implies apt(
            spec,
            (#[trigger] all[i]).mutation,
        ) by {
            if i < rest.len() {
                assert(apt(spec, rest[i].mutation));
            }
        }
    }
}

proof fn lemma_effects_apt(spec: SpecView, ti: int, n: int)
    requires
        countable(spec),
        0 <= ti < spec.transitions.len(),
        0 <= n <= spec.transitions[ti].emits.len(),
    ensures
        forall|i: int|
            0 <= i < effect_mutants(spec.transitions[ti], ti, n).len() ==> apt(
                spec,
                (#[trigger] effect_mutants(spec.transitions[ti], ti, n)[i]).mutation,
            ),
    decreases n,
{
    if n > 0 {
        let t = spec.transitions[ti];
        let e = t.emits[n - 1];
        lemma_effects_apt(spec, ti, n - 1);
        lemma_obligations_apt(spec, t, ti, e, n - 1, e.requires_relation.len() as int);
        lemma_args_apt(spec, t, ti, e, n - 1, e.args.len() as int);
        let a = effect_mutants(t, ti, n - 1);
        let b = obligation_mutants(t, ti, e, n - 1, e.requires_relation.len() as int);
        let c = arg_mutants(t, ti, e, n - 1, e.args.len() as int);
        let all = effect_mutants(t, ti, n);
        assert forall|i: int| 0 <= i < all.len() implies apt(
            spec,
            (#[trigger] all[i]).mutation,
        ) by {
            if i < a.len() {
                assert(apt(spec, a[i].mutation));
            } else if i < a.len() + b.len() {
                assert(apt(spec, b[i - a.len()].mutation));
            } else {
                assert(apt(spec, c[i - a.len() - b.len()].mutation));
            }
        }
    }
}

proof fn lemma_transitions_apt(spec: SpecView, n: int)
    requires
        countable(spec),
        0 <= n <= spec.transitions.len(),
    ensures
        forall|i: int|
            0 <= i < transition_mutants(spec.transitions, n).len() ==> apt(
                spec,
                (#[trigger] transition_mutants(spec.transitions, n)[i]).mutation,
            ),
    decreases n,
{
    if n > 0 {
        let t = spec.transitions[n - 1];
        lemma_transitions_apt(spec, n - 1);
        lemma_effects_apt(spec, n - 1, t.emits.len() as int);
        let a = transition_mutants(spec.transitions, n - 1);
        let b = effect_mutants(t, n - 1, t.emits.len() as int);
        let c = guard_mutants(t, n - 1);
        let all = transition_mutants(spec.transitions, n);
        assert forall|i: int| 0 <= i < all.len() implies apt(
            spec,
            (#[trigger] all[i]).mutation,
        ) by {
            if i < a.len() {
                assert(apt(spec, a[i].mutation));
            } else if i < a.len() + b.len() {
                assert(apt(spec, b[i - a.len()].mutation));
            } else {
                assert(all[i] == c[i - a.len() - b.len()]);
            }
        }
    }
}

proof fn lemma_principals_apt(spec: SpecView, n: int)
    requires
        0 <= n <= spec.principals.len(),
    ensures
        forall|i: int|
            0 <= i < principal_mutants(spec.principals, n).len() ==> apt(
                spec,
                (#[trigger] principal_mutants(spec.principals, n)[i]).mutation,
            ),
    decreases n,
{
    if n > 0 {
        lemma_principals_apt(spec, n - 1);
        let rest = principal_mutants(spec.principals, n - 1);
        let all = principal_mutants(spec.principals, n);
        assert forall|i: int| 0 <= i < all.len() implies apt(
            spec,
            (#[trigger] all[i]).mutation,
        ) by {
            if i < rest.len() {
                assert(apt(spec, rest[i].mutation));
            }
        }
    }
}

proof fn lemma_relations_apt(spec: SpecView, n: int)
    requires
        0 <= n <= spec.relations.len(),
    ensures
        forall|i: int|
            0 <= i < relation_mutants(spec.relations, n).len() ==> apt(
                spec,
                (#[trigger] relation_mutants(spec.relations, n)[i]).mutation,
            ),
    decreases n,
{
    if n > 0 {
        lemma_relations_apt(spec, n - 1);
        let rest = relation_mutants(spec.relations, n - 1);
        let all = relation_mutants(spec.relations, n);
        assert forall|i: int| 0 <= i < all.len() implies apt(
            spec,
            (#[trigger] all[i]).mutation,
        ) by {
            if i < rest.len() {
                assert(apt(spec, rest[i].mutation));
            }
        }
    }
}

proof fn lemma_all_apt(spec: SpecView)
    requires
        countable(spec),
    ensures
        forall|i: int|
            0 <= i < all_mutants(spec).len() ==> apt(
                spec,
                (#[trigger] all_mutants(spec)[i]).mutation,
            ),
{
    let a = transition_mutants(spec.transitions, spec.transitions.len() as int);
    let b = principal_mutants(spec.principals, spec.principals.len() as int);
    let c = relation_mutants(spec.relations, spec.relations.len() as int);
    let all = all_mutants(spec);
    lemma_transitions_apt(spec, spec.transitions.len() as int);
    lemma_principals_apt(spec, spec.principals.len() as int);
    lemma_relations_apt(spec, spec.relations.len() as int);
    assert forall|i: int| 0 <= i < all.len() implies apt(spec, (#[trigger] all[i]).mutation) by {
        if i < a.len() {
            assert(apt(spec, a[i].mutation));
        } else if i < a.len() + b.len() {
            assert(apt(spec, b[i - a.len()].mutation));
        } else {
            assert(apt(spec, c[i - a.len() - b.len()].mutation));
        }
    }
}

/// A net with mutants of its own specification fits where the net itself does.
proof fn lemma_mutated_fits(
    spec: SpecView,
    at: Seq<int>,
    options: VerifyOptions,
)
    requires
        countable(spec),
        forall|i: int| 0 <= i < at.len() ==> 0 <= #[trigger] at[i] < all_mutants(spec).len(),
        fits(compiled(spec), options),
    ensures
        fits(compiled(applied(spec, mutations_at(all_mutants(spec), at))), options),
{
    let ms = mutations_at(all_mutants(spec), at);
    lemma_all_apt(spec);
    assert forall|i: int| 0 <= i < ms.len() implies apt(spec, #[trigger] ms[i]) by {
        assert(apt(spec, all_mutants(spec)[at[i]].mutation));
    }
    let n = ms.len() as int;
    let drops = drops_upto(ms, n);
    lemma_relaxed_upto_names(spec, ms, n);
    lemma_without_upto_names(spec, relaxed_upto(spec, ms, n), drops, drops.len() as int);
    lemma_same_growth(applied(spec, ms), spec, spec.transitions.len() as int);
}

// ---------------------------------------------------------------------------
// The campaign
// ---------------------------------------------------------------------------
fn try_mutations(
    spec: &Spec,
    ms: &Vec<&Mutation>,
    obs: &Observation,
    slack: usize,
    Ghost(at): Ghost<Seq<int>>,
) -> (r: Trial)
    requires
        roomy_bound(obs.deep_view(), slack as int) <= usize::MAX,
        fits(compiled(spec.deep_view()), plain_options(obs.deep_view(), slack)),
        forall|i: int|
            0 <= i < at.len() ==> 0 <= #[trigger] at[i] < all_mutants(spec.deep_view()).len(),
        ms.deep_view() == mutations_at(all_mutants(spec.deep_view()), at),
    ensures
        r == trial(spec.deep_view(), ms.deep_view(), obs.deep_view(), slack),
{
    let ghost sv = spec.deep_view();
    let mutated = apply(spec, ms);
    let report = lint(&mutated);
    if !report.is_sound() {
        return Trial::Unsound;
    }
    let net = Net::compile(&mutated);
    let options = VerifyOptions::for_observation(obs, slack);
    proof {
        assert(options == plain_options(obs.deep_view(), slack));
        assert(spec.transitions.len() == sv.transitions.len());
        assert forall|t: int| 0 <= t < sv.transitions.len() implies (
        #[trigger] sv.transitions[t]).emits.len() <= usize::MAX by {
            assert(sv.transitions[t] == spec.transitions[t].deep_view());
            assert(spec.transitions[t].emits.len() == sv.transitions[t].emits.len());
        }
        lemma_mutated_fits(sv, at, options);
    }
    let outcome = verify(&net, obs, options);
    if outcome.accepted() {
        Trial::Accept
    } else {
        Trial::Reject
    }
}

proof fn lemma_partners_in_range(
    spec: SpecView,
    obs: ObservationView,
    slack: usize,
    a: int,
    n: int,
)
    requires
        0 <= a,
        n <= usize::MAX,
    ensures
        forall|i: int|
            0 <= i < partners_upto(spec, obs, slack, a, n).len() ==> {
                let p = #[trigger] partners_upto(spec, obs, slack, a, n)[i];
                p.0 < p.1 < n
            },
    decreases n - a,
{
    if n > a + 1 {
        lemma_partners_in_range(spec, obs, slack, a, n - 1);
        let rest = partners_upto(spec, obs, slack, a, n - 1);
        let all = partners_upto(spec, obs, slack, a, n);
        assert forall|i: int| 0 <= i < all.len() implies {
            let p = #[trigger] all[i];
            p.0 < p.1 < n
        } by {
            if i < rest.len() {
                assert(all[i] == rest[i]);
            }
        }
    }
}

proof fn lemma_pairs_in_range(spec: SpecView, obs: ObservationView, slack: usize, n: int)
    requires
        n <= all_mutants(spec).len() <= usize::MAX,
    ensures
        forall|i: int|
            0 <= i < pairs_upto(spec, obs, slack, n).len() ==> {
                let p = #[trigger] pairs_upto(spec, obs, slack, n)[i];
                p.0 < p.1 < all_mutants(spec).len()
            },
    decreases n,
{
    if n > 0 {
        let m = all_mutants(spec).len() as int;
        lemma_pairs_in_range(spec, obs, slack, n - 1);
        lemma_partners_in_range(spec, obs, slack, n - 1, m);
        let rest = pairs_upto(spec, obs, slack, n - 1);
        let own = partners_upto(spec, obs, slack, n - 1, m);
        let all = pairs_upto(spec, obs, slack, n);
        assert forall|i: int| 0 <= i < all.len() implies {
            let p = #[trigger] all[i];
            p.0 < p.1 < m
        } by {
            if i < rest.len() {
                assert(all[i] == rest[i]);
            } else {
                assert(all[i] == own[i - rest.len()]);
            }
        }
    }
}

/// The later mutants that, with the `a`th, accept the run.
#[verifier::rlimit(40)]
fn find_partners(
    spec: &Spec,
    list: &Vec<Mutant>,
    obs: &Observation,
    slack: usize,
    a: usize,
) -> (r: Vec<(usize, usize)>)
    requires
        roomy_bound(obs.deep_view(), slack as int) <= usize::MAX,
        fits(compiled(spec.deep_view()), plain_options(obs.deep_view(), slack)),
        list.deep_view() == all_mutants(spec.deep_view()),
        a < list.len(),
    ensures
        r@ == partners_upto(
            spec.deep_view(),
            obs.deep_view(),
            slack,
            a as int,
            all_mutants(spec.deep_view()).len() as int,
        ),
{
    let ghost sv = spec.deep_view();
    let ghost ov = obs.deep_view();
    let ghost all = all_mutants(sv);
    let mut pairs: Vec<(usize, usize)> = Vec::new();
    let mut b: usize = a + 1;
    assert(list.len() == list.deep_view().len());
    while b < list.len()
        invariant
            a < b <= list.len(),
            list.len() == all.len(),
            sv == spec.deep_view(),
            ov == obs.deep_view(),
            all == all_mutants(sv),
            all == list.deep_view(),
            roomy_bound(ov, slack as int) <= usize::MAX,
            fits(compiled(sv), plain_options(ov, slack)),
            pairs@ == partners_upto(sv, ov, slack, a as int, b as int),
        decreases list.len() - b,
    {
        assert(all[a as int] == list[a as int].deep_view());
        assert(all[b as int] == list[b as int].deep_view());
        let mut ms: Vec<&Mutation> = empty_vec();
        push_to(&mut ms, &list[a].mutation);
        push_to(&mut ms, &list[b].mutation);
        let ghost at = seq![a as int, b as int];
        assert(ms.deep_view() =~= mutations_at(all, at));
        if try_mutations(spec, &ms, obs, slack, Ghost(at)) == Trial::Accept {
            pairs.push((a, b));
        }
        b = b + 1;
    }
    pairs
}

/// Tests which mutants of a specification accept a run that it rejects: each alone, and, where
/// none does, each pair.
pub fn run_campaign(spec: &Spec, obs: &Observation, slack: usize) -> (r: Campaign)
    requires
        roomy_bound(obs.deep_view(), slack as int) <= usize::MAX,
        fits(compiled(spec.deep_view()), plain_options(obs.deep_view(), slack)),
    ensures
        ({
            let sv = spec.deep_view();
            let ov = obs.deep_view();
            let n = all_mutants(sv).len() as int;
            &&& r.baseline == verified(compiled(sv), ov, plain_options(ov, slack)).verdict
            &&& r.singles@ == (if r.baseline == Verdict::Accept {
                Seq::empty()
            } else {
                singles_upto(sv, ov, slack, n)
            })
            &&& r.pairs@ == (if r.baseline == Verdict::Accept || r.singles@.contains(
                Trial::Accept,
            ) {
                Seq::empty()
            } else {
                pairs_upto(sv, ov, slack, n)
            })
            &&& r.baseline == Verdict::Reject ==> r.singles.len() == n
            &&& forall|i: int|
                0 <= i < r.pairs.len() ==> (#[trigger] r.pairs[i]).0 < r.pairs[i].1 < n
        }),
{
    let ghost sv = spec.deep_view();
    let ghost ov = obs.deep_view();
    let ghost all = all_mutants(sv);
    let net = Net::compile(spec);
    let options = VerifyOptions::for_observation(obs, slack);
    assert(options == plain_options(ov, slack));
    let outcome = verify(&net, obs, options);
    let mut singles: Vec<Trial> = Vec::new();
    let mut pairs: Vec<(usize, usize)> = Vec::new();
    if outcome.accepted() {
        return Campaign { baseline: outcome.verdict, singles, pairs };
    }
    let list = mutants(spec);
    assert(list.len() == all.len());
    let mut some = false;
    let mut i: usize = 0;
    assert(singles@ =~= singles_upto(sv, ov, slack, 0));
    while i < list.len()
        invariant
            i <= list.len(),
            sv == spec.deep_view(),
            ov == obs.deep_view(),
            all == all_mutants(sv),
            all == list.deep_view(),
            roomy_bound(ov, slack as int) <= usize::MAX,
            fits(compiled(sv), plain_options(ov, slack)),
            list.len() == all.len(),
            singles.len() == i,
            singles@ == singles_upto(sv, ov, slack, i as int),
            some == singles@.contains(Trial::Accept),
        decreases list.len() - i,
    {
        assert(all[i as int] == list[i as int].deep_view());
        let mut ms: Vec<&Mutation> = empty_vec();
        push_to(&mut ms, &list[i].mutation);
        let ghost at = seq![i as int];
        assert(ms.deep_view() =~= mutations_at(all, at));
        let t = try_mutations(spec, &ms, obs, slack, Ghost(at));
        let ghost so_far = singles@;
        singles.push(t);
        if t == Trial::Accept {
            some = true;
        }
        proof {
            assert(singles@ =~= singles_upto(sv, ov, slack, i + 1));
            crate::adapters::lemma_push_contains(so_far, t, Trial::Accept);
        }
        i = i + 1;
    }
    if some {
        return Campaign { baseline: outcome.verdict, singles, pairs };
    }
    let mut a: usize = 0;
    while a < list.len()
        invariant
            a <= list.len(),
            list.len() == all.len(),
            sv == spec.deep_view(),
            ov == obs.deep_view(),
            all == all_mutants(sv),
            all == list.deep_view(),
            roomy_bound(ov, slack as int) <= usize::MAX,
            fits(compiled(sv), plain_options(ov, slack)),
            pairs@ == pairs_upto(sv, ov, slack, a as int),
        decreases list.len() - a,
    {
        let mut more = find_partners(spec, &list, obs, slack, a);
        pairs.append(&mut more);
        a = a + 1;
    }
    proof {
        lemma_pairs_in_range(sv, ov, slack, all.len() as int);
    }
    Campaign { baseline: outcome.verdict, singles, pairs }
}

} // verus!
