//! Minted values: the names that stand for values that nobody has shown yet, and the values
//! that such a name may turn out to stand for.

use crate::matching::{guard_literals, literals_of};
use crate::net::{CompiledTransitionView, Marking, Net, NetView, Token};
use crate::observation::{
    all_effects, EffectInstance, EffectInstanceView, Observation, ObservationView,
};
use crate::ordered::{
    a_lookup_gives_back_what_was_put, append_to, empty_vec, lookup, push_to, put, sorted_set,
    values_of, Dup, StrMap, StrSet,
};
use crate::text::{
    cat2, chars_of, decimal, decimal_text, has_prefix, starts_with_text, string_of, Str,
};
use vstd::prelude::*;

verus! {

// ---------------------------------------------------------------------------
// Renaming
// ---------------------------------------------------------------------------
/// `v` under another name, if it has one.
pub open spec fn renamed(r: Map<Str, Str>, v: Str) -> Str {
    if r.dom().contains(v) {
        r[v]
    } else {
        v
    }
}

/// An environment or a token with its values renamed.
pub open spec fn renamed_env(r: Map<Str, Str>, e: Seq<(Str, Str)>) -> Seq<(Str, Str)> {
    Seq::new(e.len(), |i: int| (e[i].0, renamed(r, e[i].1)))
}

/// Guards with the values that they held for renamed.
pub open spec fn renamed_pledges(
    r: Map<Str, Str>,
    ps: Seq<(Str, Seq<(Str, Str)>)>,
) -> Seq<(Str, Seq<(Str, Str)>)> {
    Seq::new(ps.len(), |i: int| (ps[i].0, renamed_env(r, ps[i].1)))
}

/// Tokens with their values renamed.
pub open spec fn renamed_tokens(
    r: Map<Str, Str>,
    ts: Seq<Seq<(Str, Str)>>,
) -> Seq<Seq<(Str, Str)>> {
    Seq::new(ts.len(), |i: int| renamed_env(r, ts[i]))
}

/// A marking with the values of its tokens renamed.
pub open spec fn renamed_marking(
    r: Map<Str, Str>,
    m: Seq<Seq<Seq<(Str, Str)>>>,
) -> Seq<Seq<Seq<(Str, Str)>>> {
    Seq::new(m.len(), |p: int| renamed_tokens(r, m[p]))
}

/// A list of values, renamed.
pub open spec fn renamed_values(r: Map<Str, Str>, vs: Seq<Str>) -> Seq<Str> {
    Seq::new(vs.len(), |i: int| renamed(r, vs[i]))
}

/// One renaming after another.
pub open spec fn compose(after: Map<Str, Str>, first: Map<Str, Str>) -> Map<Str, Str> {
    Map::new(
        |v: Str| after.dom().contains(v) || first.dom().contains(v),
        |v: Str| renamed(after, renamed(first, v)),
    )
}

pub proof fn lemma_compose(after: Map<Str, Str>, first: Map<Str, Str>, v: Str)
    ensures
        renamed(compose(after, first), v) == renamed(after, renamed(first, v)),
{
}

pub proof fn lemma_compose_env(after: Map<Str, Str>, first: Map<Str, Str>, e: Seq<(Str, Str)>)
    ensures
        renamed_env(compose(after, first), e) == renamed_env(after, renamed_env(first, e)),
{
    assert forall|i: int| 0 <= i < e.len() implies renamed(compose(after, first), e[i].1)
        == renamed(after, renamed(first, e[i].1)) by {
        lemma_compose(after, first, e[i].1);
    }
    assert(renamed_env(compose(after, first), e) =~= renamed_env(after, renamed_env(first, e)));
}

pub proof fn lemma_compose_marking(
    after: Map<Str, Str>,
    first: Map<Str, Str>,
    m: Seq<Seq<Seq<(Str, Str)>>>,
)
    ensures
        renamed_marking(compose(after, first), m) == renamed_marking(
            after,
            renamed_marking(first, m),
        ),
{
    let c = compose(after, first);
    assert forall|p: int| 0 <= p < m.len() implies renamed_tokens(c, #[trigger] m[p])
        == renamed_tokens(after, renamed_tokens(first, m[p])) by {
        assert forall|i: int| 0 <= i < m[p].len() implies renamed_env(c, m[p][i]) == renamed_env(
            after,
            renamed_env(first, m[p][i]),
        ) by {
            lemma_compose_env(after, first, m[p][i]);
        }
        assert(renamed_tokens(c, m[p]) =~= renamed_tokens(after, renamed_tokens(first, m[p])));
    }
    assert(renamed_marking(c, m) =~= renamed_marking(after, renamed_marking(first, m)));
}

/// The renaming that a list of pairs stands for.
pub open spec fn as_map(pairs: Seq<(Str, Str)>) -> Map<Str, Str> {
    Map::new(|v: Str| lookup(pairs, v) is Some, |v: Str| lookup(pairs, v)->Some_0)
}

fn rename_value(pairs: &StrMap<String>, v: &str) -> (r: String)
    ensures
        r@ == renamed(as_map(pairs.deep_view()), v@),
{
    match pairs.get(v) {
        Some(w) => w.clone(),
        None => v.to_string(),
    }
}

/// Renames the values of a list.
pub fn rename_values(pairs: &StrMap<String>, vs: &Vec<String>) -> (r: Vec<String>)
    ensures
        r.deep_view() == renamed_values(as_map(pairs.deep_view()), vs.deep_view()),
{
    let ghost m = as_map(pairs.deep_view());
    let mut out: Vec<String> = empty_vec();
    let mut i: usize = 0;
    while i < vs.len()
        invariant
            i <= vs.len(),
            m == as_map(pairs.deep_view()),
            out.deep_view() =~= renamed_values(m, vs.deep_view()).take(i as int),
        decreases vs.len() - i,
    {
        push_to(&mut out, rename_value(pairs, vs[i].as_str()));
        i = i + 1;
    }
    assert(renamed_values(m, vs.deep_view()).take(i as int) =~= renamed_values(m, vs.deep_view()));
    out
}

/// Renames the values of an environment or a token.
pub fn rename_env(pairs: &StrMap<String>, e: &StrMap<String>) -> (r: StrMap<String>)
    ensures
        r.deep_view() == renamed_env(as_map(pairs.deep_view()), e.deep_view()),
{
    let ghost m = as_map(pairs.deep_view());
    let ghost ev = e.deep_view();
    let mut values: Vec<String> = empty_vec();
    assert(values.len() == values.deep_view().len());
    let mut i: usize = 0;
    while i < e.len()
        invariant
            i <= ev.len(),
            ev == e.deep_view(),
            m == as_map(pairs.deep_view()),
            values.len() == i,
            values.deep_view() =~= Seq::new(i as nat, |j: int| renamed(m, ev[j].1)),
        decreases ev.len() - i,
    {
        push_to(&mut values, rename_value(pairs, e.value_at(i).as_str()));
        assert(values.len() == values.deep_view().len());
        i = i + 1;
    }
    let r = e.with_values(&values);
    assert(r.deep_view() =~= renamed_env(m, ev));
    r
}

fn rename_tokens(pairs: &StrMap<String>, ts: &Vec<Token>) -> (r: Vec<Token>)
    ensures
        r.deep_view() == renamed_tokens(as_map(pairs.deep_view()), ts.deep_view()),
{
    let ghost m = as_map(pairs.deep_view());
    let mut out: Vec<Token> = empty_vec();
    let mut i: usize = 0;
    while i < ts.len()
        invariant
            i <= ts.len(),
            m == as_map(pairs.deep_view()),
            out.deep_view() =~= renamed_tokens(m, ts.deep_view()).take(i as int),
        decreases ts.len() - i,
    {
        push_to(&mut out, rename_env(pairs, &ts[i]));
        i = i + 1;
    }
    assert(renamed_tokens(m, ts.deep_view()).take(i as int) =~= renamed_tokens(m, ts.deep_view()));
    out
}

/// Renames the values of a marking.
pub fn rename_marking(pairs: &StrMap<String>, marking: &Marking) -> (r: Marking)
    ensures
        r.deep_view() == renamed_marking(as_map(pairs.deep_view()), marking.deep_view()),
        r.len() == marking.len(),
{
    let ghost m = as_map(pairs.deep_view());
    let mut out: Marking = empty_vec();
    assert(out.len() == out.deep_view().len());
    let mut p: usize = 0;
    while p < marking.len()
        invariant
            p <= marking.len(),
            m == as_map(pairs.deep_view()),
            out.len() == p,
            out.deep_view() =~= renamed_marking(m, marking.deep_view()).take(p as int),
        decreases marking.len() - p,
    {
        push_to(&mut out, rename_tokens(pairs, &marking[p]));
        assert(out.len() == out.deep_view().len());
        p = p + 1;
    }
    assert(renamed_marking(m, marking.deep_view()).take(p as int) =~= renamed_marking(
        m,
        marking.deep_view(),
    ));
    out
}

// ---------------------------------------------------------------------------
// The names of minted values
// ---------------------------------------------------------------------------
/// How many tildes `v` begins with.
pub open spec fn lead(v: Str) -> nat
    decreases v.len(),
{
    if v.len() == 0 || v[0] != '~' {
        0
    } else {
        lead(v.drop_first()) + 1
    }
}

/// The most tildes that one of the first `n` values begins with.
pub open spec fn most_lead(vs: Seq<Str>, n: int) -> nat
    decreases n,
{
    if n <= 0 {
        0
    } else if lead(vs[n - 1]) > most_lead(vs, n - 1) {
        lead(vs[n - 1])
    } else {
        most_lead(vs, n - 1)
    }
}

/// So many tildes.
pub open spec fn tildes(n: nat) -> Str {
    Seq::new(n, |i: int| '~')
}

/// Whether one of the first `n` values begins like this.
pub open spec fn some_begins(vs: Seq<Str>, n: int, head: Str) -> bool {
    exists|i: int| 0 <= i < n && has_prefix(#[trigger] vs[i], head)
}

/// What the names of minted values begin with: a tilde and a word, or, where one of these values
/// begins so itself, more tildes than any of them begins with.
pub open spec fn mark_for(vs: Seq<Str>) -> Str {
    if some_begins(vs, vs.len() as int, "~fresh"@) {
        tildes(most_lead(vs, vs.len() as int) + 1) + "fresh"@
    } else {
        "~fresh"@
    }
}

/// The name of the `n`-th minted value.
pub open spec fn symbol(mark: Str, n: nat) -> Str {
    mark + decimal(n)
}

/// The arguments of the first `n` effects.
pub open spec fn args_upto(es: Seq<EffectInstanceView>, n: int) -> Seq<Str>
    decreases n,
{
    if n <= 0 {
        Seq::empty()
    } else {
        args_upto(es, n - 1) + values_of(es[n - 1].args)
    }
}

/// The values of the first `n` tokens.
pub open spec fn token_values(ts: Seq<Seq<(Str, Str)>>, n: int) -> Seq<Str>
    decreases n,
{
    if n <= 0 {
        Seq::empty()
    } else {
        token_values(ts, n - 1) + values_of(ts[n - 1])
    }
}

/// The values in the first `n` places.
pub open spec fn marking_values(m: Seq<Seq<Seq<(Str, Str)>>>, n: int) -> Seq<Str>
    decreases n,
{
    if n <= 0 {
        Seq::empty()
    } else {
        marking_values(m, n - 1) + token_values(m[n - 1], m[n - 1].len() as int)
    }
}

/// The literals of the guards of the first `n` transitions.
pub open spec fn all_literals(ts: Seq<CompiledTransitionView>, n: int) -> Seq<Str>
    decreases n,
{
    if n <= 0 {
        Seq::empty()
    } else {
        all_literals(ts, n - 1) + guard_literals(ts[n - 1].guard)
    }
}

/// The values that the workflow, the observation or the evidence names.
pub open spec fn named_values(net: NetView, obs: ObservationView) -> Seq<Str> {
    args_upto(all_effects(obs.records), all_effects(obs.records).len() as int) + marking_values(
        net.initial,
        net.initial.len() as int,
    ) + all_literals(net.transitions, net.transitions.len() as int) + net.evidence
}

/// What the names of the values that a search mints begin with.
pub open spec fn mark_of(net: NetView, obs: ObservationView) -> Str {
    mark_for(named_values(net, obs))
}

fn count_lead(v: &str) -> (n: usize)
    ensures
        n == lead(v@),
        n <= v@.len(),
{
    let cs = chars_of(v);
    let mut i: usize = 0;
    assert(v@.skip(0) =~= v@);
    while i < cs.len() && cs[i] == '~'
        invariant
            i <= cs.len(),
            cs@ == v@,
            lead(v@) == i + lead(v@.skip(i as int)),
        decreases cs.len() - i,
    {
        assert(v@.skip(i as int)[0] == v@[i as int]);
        assert(v@.skip(i as int).drop_first() =~= v@.skip(i + 1));
        i = i + 1;
    }
    proof {
        if i < cs.len() {
            assert(v@.skip(i as int)[0] == v@[i as int]);
        }
    }
    i
}

fn make_mark(vs: &Vec<String>) -> (r: String)
    ensures
        r@ == mark_for(vs.deep_view()),
{
    let ghost vv = vs.deep_view();
    let mut most: usize = 0;
    let mut clash = false;
    let mut i: usize = 0;
    while i < vs.len()
        invariant
            i <= vs.len(),
            vv == vs.deep_view(),
            most == most_lead(vv, i as int),
            clash == some_begins(vv, i as int, "~fresh"@),
        decreases vs.len() - i,
    {
        assert(vv[i as int] == vs[i as int]@);
        let n = count_lead(vs[i].as_str());
        if n > most {
            most = n;
        }
        if starts_with_text(vs[i].as_str(), "~fresh") {
            clash = true;
        }
        i = i + 1;
    }
    assert(vs.len() == vv.len());
    if !clash {
        return "~fresh".to_string();
    }
    let mut out: Vec<char> = Vec::new();
    let mut k: usize = 0;
    while k < most
        invariant
            k <= most,
            out@ =~= tildes(k as nat),
        decreases most - k,
    {
        out.push('~');
        k = k + 1;
    }
    out.push('~');
    assert(out@ =~= tildes(most as nat + 1));
    let head = string_of(&out);
    cat2(head.as_str(), "fresh")
}

fn list_values(m: &StrMap<String>) -> (r: Vec<String>)
    ensures
        r.deep_view() == values_of(m.deep_view()),
{
    let ghost mv = m.deep_view();
    let mut out: Vec<String> = empty_vec();
    let mut i: usize = 0;
    while i < m.len()
        invariant
            i <= mv.len(),
            mv == m.deep_view(),
            out.deep_view() =~= values_of(mv).take(i as int),
        decreases mv.len() - i,
    {
        push_to(&mut out, m.value_at(i).clone());
        i = i + 1;
    }
    assert(values_of(mv).take(i as int) =~= values_of(mv));
    out
}

/// The arguments of the effects.
pub fn list_args(es: &Vec<&EffectInstance>) -> (r: Vec<String>)
    ensures
        r.deep_view() == args_upto(es.deep_view(), es.deep_view().len() as int),
{
    let ghost ev = es.deep_view();
    let mut out: Vec<String> = empty_vec();
    let mut i: usize = 0;
    while i < es.len()
        invariant
            i <= es.len(),
            ev == es.deep_view(),
            out.deep_view() == args_upto(ev, i as int),
        decreases es.len() - i,
    {
        assert(ev[i as int] == es[i as int].deep_view());
        append_to(&mut out, list_values(&es[i].args));
        i = i + 1;
    }
    assert(es.len() == ev.len());
    out
}

fn list_tokens(ts: &Vec<Token>) -> (r: Vec<String>)
    ensures
        r.deep_view() == token_values(ts.deep_view(), ts.deep_view().len() as int),
{
    let ghost tv = ts.deep_view();
    let mut out: Vec<String> = empty_vec();
    let mut i: usize = 0;
    while i < ts.len()
        invariant
            i <= ts.len(),
            tv == ts.deep_view(),
            out.deep_view() == token_values(tv, i as int),
        decreases ts.len() - i,
    {
        assert(tv[i as int] == ts[i as int].deep_view());
        append_to(&mut out, list_values(&ts[i]));
        i = i + 1;
    }
    assert(ts.len() == tv.len());
    out
}

/// What the names of the values that a search mints begin with.
pub fn find_mark(net: &Net, obs: &Observation) -> (r: String)
    ensures
        r@ == mark_of(net.deep_view(), obs.deep_view()),
{
    let ghost nv = net.deep_view();
    let ghost ov = obs.deep_view();
    let effects = obs.effects();
    let mut out = list_args(&effects);
    let ghost args = out.deep_view();
    let mut p: usize = 0;
    assert(args + marking_values(nv.initial, 0) =~= args);
    while p < net.initial.len()
        invariant
            p <= net.initial.len(),
            nv == net.deep_view(),
            out.deep_view() == args + marking_values(nv.initial, p as int),
        decreases net.initial.len() - p,
    {
        assert(nv.initial[p as int] == net.initial[p as int].deep_view());
        append_to(&mut out, list_tokens(&net.initial[p]));
        assert(out.deep_view() =~= args + marking_values(nv.initial, p + 1));
        p = p + 1;
    }
    assert(net.initial.len() == nv.initial.len());
    let ghost held = out.deep_view();
    let mut i: usize = 0;
    assert(held + all_literals(nv.transitions, 0) =~= held);
    while i < net.transitions.len()
        invariant
            i <= net.transitions.len(),
            nv == net.deep_view(),
            out.deep_view() == held + all_literals(nv.transitions, i as int),
        decreases net.transitions.len() - i,
    {
        assert(nv.transitions[i as int] == net.transitions[i as int].deep_view());
        append_to(&mut out, literals_of(&net.transitions[i].guard));
        assert(out.deep_view() =~= held + all_literals(nv.transitions, i + 1));
        i = i + 1;
    }
    assert(net.transitions.len() == nv.transitions.len());
    append_to(&mut out, net.evidence.to_vec());
    make_mark(&out)
}

// ---------------------------------------------------------------------------
// Guesses
// ---------------------------------------------------------------------------
/// How many ways of giving values to minted names are tried for one step.
pub const GUESS_LIMIT: usize = 4096;

/// The values of a token that are minted names.
pub open spec fn marks_in(mark: Str, token: Seq<(Str, Str)>, n: int) -> Seq<Str>
    decreases n,
{
    if n <= 0 {
        Seq::empty()
    } else if has_prefix(token[n - 1].1, mark) {
        marks_in(mark, token, n - 1).push(token[n - 1].1)
    } else {
        marks_in(mark, token, n - 1)
    }
}

/// The values of a token that are no minted names.
pub open spec fn plains_in(mark: Str, token: Seq<(Str, Str)>, n: int) -> Seq<Str>
    decreases n,
{
    if n <= 0 {
        Seq::empty()
    } else if has_prefix(token[n - 1].1, mark) {
        plains_in(mark, token, n - 1)
    } else {
        plains_in(mark, token, n - 1).push(token[n - 1].1)
    }
}

/// The minted names in the chosen tokens of the first `n` slots.
pub open spec fn chosen_marks(
    mark: Str,
    m: Seq<Seq<Seq<(Str, Str)>>>,
    consumes: Seq<usize>,
    choice: Seq<usize>,
    n: int,
) -> Seq<Str>
    decreases n,
{
    if n <= 0 {
        Seq::empty()
    } else {
        let token = m[consumes[n - 1] as int][choice[n - 1] as int];
        chosen_marks(mark, m, consumes, choice, n - 1) + marks_in(mark, token, token.len() as int)
    }
}

/// The other values in the chosen tokens of the first `n` slots.
pub open spec fn chosen_plains(
    mark: Str,
    m: Seq<Seq<Seq<(Str, Str)>>>,
    consumes: Seq<usize>,
    choice: Seq<usize>,
    n: int,
) -> Seq<Str>
    decreases n,
{
    if n <= 0 {
        Seq::empty()
    } else {
        let token = m[consumes[n - 1] as int][choice[n - 1] as int];
        chosen_plains(mark, m, consumes, choice, n - 1) + plains_in(mark, token, token.len() as int)
    }
}

/// `pair` lists with `name` standing for each of the first `n` values, added to `pairs`.
pub open spec fn each_value(
    pairs: Seq<(Str, Str)>,
    name: Str,
    values: Seq<Str>,
    n: int,
) -> Seq<Seq<(Str, Str)>>
    decreases n,
{
    if n <= 0 {
        Seq::empty()
    } else {
        each_value(pairs, name, values, n - 1).push(put(pairs, name, values[n - 1]))
    }
}

/// Each of the first `n` guesses with each value for one more name.
pub open spec fn each_guess(
    guesses: Seq<Seq<(Str, Str)>>,
    name: Str,
    values: Seq<Str>,
    n: int,
) -> Seq<Seq<(Str, Str)>>
    decreases n,
{
    if n <= 0 {
        Seq::empty()
    } else {
        each_guess(guesses, name, values, n - 1) + each_value(
            guesses[n - 1],
            name,
            values,
            values.len() as int,
        )
    }
}

/// Every way of giving one of the values to each of the first `n` names.
pub open spec fn guesses(names: Seq<Str>, values: Seq<Str>, n: int) -> Seq<Seq<(Str, Str)>>
    decreases n,
{
    if n <= 0 {
        seq![Seq::empty()]
    } else {
        let prior = guesses(names, values, n - 1);
        each_guess(prior, names[n - 1], values, prior.len() as int)
    }
}

/// How many ways there are of giving one of `values` values to each of `names` names, where
/// they are not too many to be tried.
pub open spec fn guess_count(values: nat, names: nat) -> Option<nat>
    decreases names,
{
    if names == 0 {
        Some(1)
    } else {
        match guess_count(values, (names - 1) as nat) {
            Some(n) => if n * values > GUESS_LIMIT {
                None
            } else {
                Some(n * values)
            },
            None => None,
        }
    }
}

/// Whether the guesses are few enough to be tried.
pub fn few_guesses(values: usize, names: usize) -> (r: bool)
    ensures
        r == (guess_count(values as nat, names as nat) is Some),
{
    let mut n: usize = 1;
    let mut i: usize = 0;
    while i < names
        invariant
            i <= names,
            n <= GUESS_LIMIT,
            guess_count(values as nat, i as nat) == Some(n as nat),
        decreases names - i,
    {
        match n.checked_mul(values) {
            Some(m) => {
                if m > GUESS_LIMIT {
                    proof {
                        lemma_guess_count(values as nat, (i + 1) as nat, names as nat);
                    }
                    return false;
                }
                n = m;
            },
            None => {
                proof {
                    lemma_guess_count(values as nat, (i + 1) as nat, names as nat);
                }
                return false;
            },
        }
        i = i + 1;
    }
    true
}

proof fn lemma_guess_count(values: nat, a: nat, b: nat)
    requires
        a <= b,
        guess_count(values, a) is None,
    ensures
        guess_count(values, b) is None,
    decreases b,
{
    if a < b {
        lemma_guess_count(values, a, (b - 1) as nat);
    }
}

/// Every way of giving one of the values to each of the names.
pub fn list_guesses(names: &Vec<String>, values: &Vec<String>) -> (r: Vec<StrMap<String>>)
    ensures
        r.deep_view() == guesses(names.deep_view(), values.deep_view(), names.len() as int),
{
    let ghost nv = names.deep_view();
    let ghost vv = values.deep_view();
    let mut out: Vec<StrMap<String>> = empty_vec();
    push_to(&mut out, StrMap::new());
    assert(out.deep_view() =~= guesses(nv, vv, 0));
    let mut i: usize = 0;
    while i < names.len()
        invariant
            i <= names.len(),
            nv == names.deep_view(),
            vv == values.deep_view(),
            out.deep_view() == guesses(nv, vv, i as int),
        decreases names.len() - i,
    {
        let ghost prior = out.deep_view();
        let mut next: Vec<StrMap<String>> = empty_vec();
        let mut j: usize = 0;
        while j < out.len()
            invariant
                i < names.len(),
                j <= out.len(),
                nv == names.deep_view(),
                vv == values.deep_view(),
                prior == out.deep_view(),
                next.deep_view() == each_guess(prior, nv[i as int], vv, j as int),
            decreases out.len() - j,
        {
            let ghost before = next.deep_view();
            let mut k: usize = 0;
            assert(before + each_value(prior[j as int], nv[i as int], vv, 0) =~= before);
            while k < values.len()
                invariant
                    i < names.len(),
                    j < out.len(),
                    k <= values.len(),
                    nv == names.deep_view(),
                    vv == values.deep_view(),
                    prior == out.deep_view(),
                    next.deep_view() == before + each_value(
                        prior[j as int],
                        nv[i as int],
                        vv,
                        k as int,
                    ),
                decreases values.len() - k,
            {
                let mut pairs = out[j].dup();
                pairs.insert(names[i].clone(), values[k].clone());
                push_to(&mut next, pairs);
                assert(next.deep_view() =~= before + each_value(
                    prior[j as int],
                    nv[i as int],
                    vv,
                    k + 1,
                ));
                k = k + 1;
            }
            assert(values.len() == vv.len());
            j = j + 1;
        }
        assert(out.len() == prior.len());
        out = next;
        i = i + 1;
    }
    out
}

/// Splits the values of the chosen tokens into minted names and others.
pub fn split_chosen(
    mark: &str,
    marking: &Marking,
    consumes: &Vec<usize>,
    choice: &Vec<usize>,
) -> (r: (Vec<String>, Vec<String>))
    requires
        choice.len() == consumes.len(),
        forall|s: int|
            0 <= s < consumes.len() ==> (#[trigger] consumes[s]) < marking.len() && choice[s]
                < marking[consumes[s] as int].len(),
    ensures
        r.0.deep_view() == chosen_marks(
            mark@,
            marking.deep_view(),
            consumes.deep_view(),
            choice.deep_view(),
            consumes.len() as int,
        ),
        r.1.deep_view() == chosen_plains(
            mark@,
            marking.deep_view(),
            consumes.deep_view(),
            choice.deep_view(),
            consumes.len() as int,
        ),
{
    let ghost mv = marking.deep_view();
    let ghost cs = consumes.deep_view();
    let ghost ch = choice.deep_view();
    let mut marks: Vec<String> = empty_vec();
    let mut plains: Vec<String> = empty_vec();
    let mut s: usize = 0;
    while s < consumes.len()
        invariant
            s <= consumes.len(),
            choice.len() == consumes.len(),
            mv == marking.deep_view(),
            cs == consumes.deep_view(),
            ch == choice.deep_view(),
            forall|s: int|
                0 <= s < consumes.len() ==> (#[trigger] consumes[s]) < marking.len() && choice[s]
                    < marking[consumes[s] as int].len(),
            marks.deep_view() == chosen_marks(mark@, mv, cs, ch, s as int),
            plains.deep_view() == chosen_plains(mark@, mv, cs, ch, s as int),
        decreases consumes.len() - s,
    {
        assert(consumes[s as int] < marking.len());
        let token = &marking[consumes[s]][choice[s]];
        let ghost tv = mv[cs[s as int] as int][ch[s as int] as int];
        assert(tv == token.deep_view());
        let ghost marks0 = marks.deep_view();
        let ghost plains0 = plains.deep_view();
        assert(marks0 + marks_in(mark@, tv, 0) =~= marks0);
        assert(plains0 + plains_in(mark@, tv, 0) =~= plains0);
        let mut i: usize = 0;
        while i < token.len()
            invariant
                i <= tv.len(),
                tv == token.deep_view(),
                marks.deep_view() == marks0 + marks_in(mark@, tv, i as int),
                plains.deep_view() == plains0 + plains_in(mark@, tv, i as int),
            decreases tv.len() - i,
        {
            let v = token.value_at(i);
            if starts_with_text(v.as_str(), mark) {
                push_to(&mut marks, v.clone());
            } else {
                push_to(&mut plains, v.clone());
            }
            assert(marks.deep_view() =~= marks0 + marks_in(mark@, tv, i + 1));
            assert(plains.deep_view() =~= plains0 + plains_in(mark@, tv, i + 1));
            i = i + 1;
        }
        s = s + 1;
    }
    (marks, plains)
}

/// The name of the `n`-th minted value.
pub fn symbol_text(mark: &str, n: usize) -> (r: String)
    ensures
        r@ == symbol(mark@, n as nat),
{
    let d = decimal_text(n as u64);
    cat2(mark, d.as_str())
}

/// The distinct items of a list, in order.
pub fn distinct(vs: &Vec<String>) -> (r: Vec<String>)
    ensures
        r.deep_view() == sorted_set(vs.deep_view()),
{
    let mut set = StrSet::new();
    set.insert_all(vs);
    set.to_vec()
}

// ---------------------------------------------------------------------------
// What is guessed
// ---------------------------------------------------------------------------
/// Whether `r` gives one of the values to some of the names.
pub open spec fn guess_ok(r: Map<Str, Str>, names: Seq<Str>, values: Seq<Str>) -> bool {
    forall|v: Str| #[trigger] r.dom().contains(v) ==> names.contains(v) && values.contains(r[v])
}

proof fn lemma_each_value(
    pairs: Seq<(Str, Str)>,
    name: Str,
    values: Seq<Str>,
    n: int,
    j: int,
)
    requires
        0 <= j < n <= values.len(),
    ensures
        each_value(pairs, name, values, n).len() == n,
        each_value(pairs, name, values, n)[j] == put(pairs, name, values[j]),
    decreases n,
{
    if n > 1 && j < n - 1 {
        lemma_each_value(pairs, name, values, n - 1, j);
    } else {
        lemma_each_value_len(pairs, name, values, n - 1);
    }
}

proof fn lemma_each_value_len(pairs: Seq<(Str, Str)>, name: Str, values: Seq<Str>, n: int)
    requires
        0 <= n,
    ensures
        each_value(pairs, name, values, n).len() == n,
    decreases n,
{
    if n > 0 {
        lemma_each_value_len(pairs, name, values, n - 1);
    }
}

proof fn lemma_each_guess(
    gs: Seq<Seq<(Str, Str)>>,
    name: Str,
    values: Seq<Str>,
    n: int,
    j: int,
) -> (r: (int, int))
    requires
        0 <= n <= gs.len(),
        0 <= j < each_guess(gs, name, values, n).len(),
    ensures
        0 <= r.0 < n,
        0 <= r.1 < values.len(),
        each_guess(gs, name, values, n)[j] == put(gs[r.0], name, values[r.1]),
    decreases n,
{
    let rest = each_guess(gs, name, values, n - 1);
    lemma_each_value_len(gs[n - 1], name, values, values.len() as int);
    if j < rest.len() {
        lemma_each_guess(gs, name, values, n - 1, j)
    } else {
        let k = j - rest.len();
        lemma_each_value(gs[n - 1], name, values, values.len() as int, k);
        (n - 1, k)
    }
}

proof fn lemma_each_guess_has(
    gs: Seq<Seq<(Str, Str)>>,
    name: Str,
    values: Seq<Str>,
    n: int,
    a: int,
    b: int,
) -> (j: int)
    requires
        0 <= a < n <= gs.len(),
        0 <= b < values.len(),
    ensures
        0 <= j < each_guess(gs, name, values, n).len(),
        each_guess(gs, name, values, n)[j] == put(gs[a], name, values[b]),
    decreases n,
{
    let rest = each_guess(gs, name, values, n - 1);
    lemma_each_value_len(gs[n - 1], name, values, values.len() as int);
    if a < n - 1 {
        lemma_each_guess_has(gs, name, values, n - 1, a, b)
    } else {
        lemma_each_value(gs[n - 1], name, values, values.len() as int, b);
        rest.len() + b
    }
}

/// Every guess gives values to names.
pub proof fn lemma_guess_sound(names: Seq<Str>, values: Seq<Str>, n: int, j: int)
    requires
        0 <= n <= names.len(),
        0 <= j < guesses(names, values, n).len(),
    ensures
        guess_ok(as_map(guesses(names, values, n)[j]), names, values),
    decreases n,
{
    let g = guesses(names, values, n)[j];
    if n > 0 {
        let prior = guesses(names, values, n - 1);
        let (a, b) = lemma_each_guess(prior, names[n - 1], values, prior.len() as int, j);
        lemma_guess_sound(names, values, n - 1, a);
        assert forall|v: Str| #[trigger] as_map(g).dom().contains(v) implies names.contains(v)
            && values.contains(as_map(g)[v]) by {
            a_lookup_gives_back_what_was_put(prior[a], names[n - 1], values[b], v);
            if v != names[n - 1] {
                assert(as_map(prior[a]).dom().contains(v));
            }
        }
    }
}

/// Every way of giving values to all names is guessed.
pub proof fn lemma_guess_complete(
    names: Seq<Str>,
    values: Seq<Str>,
    r: Map<Str, Str>,
    n: int,
) -> (j: int)
    requires
        0 <= n <= names.len(),
        forall|i: int| 0 <= i < names.len() ==> values.contains(r[#[trigger] names[i]]),
    ensures
        0 <= j < guesses(names, values, n).len(),
        forall|v: Str|
            #[trigger] lookup(guesses(names, values, n)[j], v) == (if names.take(n).contains(v) {
                Some(r[v])
            } else {
                None
            }),
    decreases n,
{
    if n <= 0 {
        assert(names.take(0) =~= Seq::<Str>::empty());
        assert(guesses(names, values, n)[0] =~= Seq::<(Str, Str)>::empty());
        0
    } else {
        let prior = guesses(names, values, n - 1);
        let a = lemma_guess_complete(names, values, r, n - 1);
        let w = r[names[n - 1]];
        let b = values.index_of(w);
        let j = lemma_each_guess_has(prior, names[n - 1], values, prior.len() as int, a, b);
        assert forall|v: Str|
            #[trigger] lookup(guesses(names, values, n)[j], v) == (if names.take(n).contains(v) {
                Some(r[v])
            } else {
                None
            }) by {
            a_lookup_gives_back_what_was_put(prior[a], names[n - 1], w, v);
            let t = names.take(n);
            let d = names.take(n - 1);
            if d.contains(v) {
                let i = d.index_of(v);
                assert(t[i] == v);
            }
            if t.contains(v) && v != names[n - 1] {
                let i = t.index_of(v);
                assert(d[i] == v);
            }
            assert(t[n - 1] == names[n - 1]);
        }
        j
    }
}

} // verus!
