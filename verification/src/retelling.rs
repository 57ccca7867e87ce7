//! What a count of shapes leaves out. Executions that have come to the same point with different
//! numbers of minted values are followed once, so a shape is counted up to the numbers of the
//! values in it.

use crate::covering::{
    lemma_fired_same, lemma_lacking, lemma_other_choice, lemma_same_shape, other_choice,
};
use crate::expand::countable;
use crate::guess::{renamed, renamed_env, renamed_marking};
use crate::keys::{changed, lemma_decimal_injective, lemma_tokens_changed, same_tokens};
use crate::model::{EffectTemplateView, SpecView, TokenSpecView};
use crate::net::{
    all_choices, compiled, fired, initial_tokens, is_final_marking, joined_token, joined_tokens,
    lacking_from, left_marking, left_tokens, lemma_all_choices, lemma_fired_len, made_token,
    net_ok, too_many_choices, transition_ok, valid_choice, with_tokens, within,
    CompiledTransitionView, NetView,
};
use crate::ordered::{lookup, put};
use crate::permissiveness::{
    continuations, continued, continued_by, counted, effect_text, first_count, numbered,
    options_of, outset, partial_key, shape_effects, shape_of, value_name, CountView, PartialView,
};
use crate::renaming::{
    all_in, lemma_fired_renamed, lemma_in_put, lemma_joined_tokens, lemma_renamed_put,
};
use crate::shapes::{
    counted_shapes, cut_short, executable, further_on, has_shape, is_execution,
    lemma_execution_level, lemma_further_executable, lemma_outset, lemma_partial_key,
    lemma_stack_grows, lemma_stack_shrinks, stack_ok,
};
use crate::text::{decimal, has_prefix, Str};
use vstd::prelude::*;

verus! {

broadcast use vstd::seq_lib::group_to_multiset_ensures;

// ---------------------------------------------------------------------------
// What tokens show
// ---------------------------------------------------------------------------
/// Whether a name is no variable.
pub open spec fn is_hidden(k: Str) -> bool {
    has_prefix(k, "_"@)
}

/// Whether every value that a token or environment holds for a variable is among these.
pub open spec fn shows(vs: Set<Str>, e: Seq<(Str, Str)>) -> bool {
    forall|i: int| 0 <= i < e.len() && !is_hidden((#[trigger] e[i]).0) ==> vs.contains(e[i].1)
}

/// Whether every value that a token of a marking holds for a variable is among these.
pub open spec fn marking_shows(vs: Set<Str>, m: Seq<Seq<Seq<(Str, Str)>>>) -> bool {
    forall|p: int, j: int|
        0 <= p < m.len() && 0 <= j < m[p].len() ==> shows(vs, #[trigger] m[p][j])
}

/// The values that the tokens of a marking hold for variables.
pub open spec fn held(m: Seq<Seq<Seq<(Str, Str)>>>) -> Set<Str> {
    Set::new(
        |v: Str|
            exists|p: int, j: int, i: int|
                0 <= p < m.len() && 0 <= j < m[p].len() && 0 <= i < m[p][j].len() && !is_hidden(
                    m[p][j][i].0,
                ) && (#[trigger] m[p][j][i]).1 == v,
    )
}

proof fn lemma_held(vs: Set<Str>, m: Seq<Seq<Seq<(Str, Str)>>>)
    ensures
        marking_shows(vs, m) <==> held(m).subset_of(vs),
        marking_shows(held(m), m),
{
    assert forall|p: int, j: int| 0 <= p < m.len() && 0 <= j < m[p].len() implies shows(
        held(m),
        #[trigger] m[p][j],
    ) by {
        let e = m[p][j];
        assert forall|i: int| 0 <= i < e.len() && !is_hidden((#[trigger] e[i]).0) implies held(
            m,
        ).contains(e[i].1) by {
            assert(m[p][j][i] == e[i]);
        }
    }
    if held(m).subset_of(vs) {
        assert forall|p: int, j: int| 0 <= p < m.len() && 0 <= j < m[p].len() implies shows(
            vs,
            #[trigger] m[p][j],
        ) by {
            assert(shows(held(m), m[p][j]));
        }
    }
    if marking_shows(vs, m) {
        assert forall|v: Str| held(m).contains(v) implies vs.contains(v) by {
            let (p, j, i) = choose|p: int, j: int, i: int|
                0 <= p < m.len() && 0 <= j < m[p].len() && 0 <= i < m[p][j].len() && !is_hidden(
                    m[p][j][i].0,
                ) && (#[trigger] m[p][j][i]).1 == v;
            assert(shows(vs, m[p][j]));
        }
    }
}

proof fn lemma_shows_put(vs: Set<Str>, e: Seq<(Str, Str)>, k: Str, v: Str)
    requires
        shows(vs, e),
        is_hidden(k) || vs.contains(v),
    ensures
        shows(vs, put(e, k, v)),
    decreases e.len(),
{
    let q = put(e, k, v);
    if e.len() > 0 {
        let d = e.drop_first();
        assert forall|i: int| 0 <= i < d.len() && !is_hidden((#[trigger] d[i]).0) implies
            vs.contains(d[i].1) by {
            assert(d[i] == e[i + 1]);
        }
        lemma_shows_put(vs, d, k, v);
        let p = put(d, k, v);
        assert forall|i: int| 0 <= i < q.len() && !is_hidden((#[trigger] q[i]).0) implies
            vs.contains(q[i].1) by {
            if e[0].0 == k {
                if i > 0 {
                    assert(q[i] == e[i]);
                }
            } else if crate::text::before(k, e[0].0) {
                if i > 0 {
                    assert(q[i] == e[i - 1]);
                }
            } else {
                if i == 0 {
                    assert(q[i] == e[0]);
                } else {
                    assert(q[i] == p[i - 1]);
                }
            }
        }
    }
}

proof fn lemma_shows_lookup(vs: Set<Str>, e: Seq<(Str, Str)>, k: Str)
    requires
        shows(vs, e),
        !is_hidden(k),
    ensures
        lookup(e, k) matches Some(v) ==> vs.contains(v),
    decreases e.len(),
{
    if e.len() > 0 {
        assert(e[0].0 == e[0].0);
        let d = e.drop_first();
        assert forall|i: int| 0 <= i < d.len() && !is_hidden((#[trigger] d[i]).0) implies
            vs.contains(d[i].1) by {
            assert(d[i] == e[i + 1]);
        }
        lemma_shows_lookup(vs, d, k);
    }
}

proof fn lemma_shows_made(vs: Set<Str>, carries: Seq<Str>, env: Seq<(Str, Str)>, n: int)
    requires
        shows(vs, env),
        0 <= n <= carries.len(),
    ensures
        shows(vs, made_token(carries, env, n)),
    decreases n,
{
    if n > 0 {
        lemma_shows_made(vs, carries, env, n - 1);
        let k = carries[n - 1];
        if !is_hidden(k) {
            lemma_shows_lookup(vs, env, k);
        }
        match lookup(env, k) {
            Some(v) => {
                lemma_shows_put(vs, made_token(carries, env, n - 1), k, v);
            },
            None => {},
        }
    }
}

proof fn lemma_shows_left(
    vs: Set<Str>,
    ts: Seq<Seq<(Str, Str)>>,
    consumes: Seq<usize>,
    choice: Seq<usize>,
    p: int,
    n: int,
)
    requires
        0 <= n <= ts.len(),
        forall|j: int| 0 <= j < ts.len() ==> shows(vs, #[trigger] ts[j]),
    ensures
        forall|j: int|
            0 <= j < left_tokens(ts, consumes, choice, p, n).len() ==> shows(
                vs,
                #[trigger] left_tokens(ts, consumes, choice, p, n)[j],
            ),
    decreases n,
{
    if n > 0 {
        lemma_shows_left(vs, ts, consumes, choice, p, n - 1);
        assert(shows(vs, ts[n - 1]));
        let rest = left_tokens(ts, consumes, choice, p, n - 1);
        let all = left_tokens(ts, consumes, choice, p, n);
        assert forall|j: int| 0 <= j < all.len() implies shows(vs, #[trigger] all[j]) by {
            if j < rest.len() {
                assert(all[j] == rest[j]);
            }
        }
    }
}

proof fn lemma_shows_with(
    vs: Set<Str>,
    m: Seq<Seq<Seq<(Str, Str)>>>,
    carries: Seq<Seq<Str>>,
    produces: Seq<usize>,
    env: Seq<(Str, Str)>,
    n: int,
)
    requires
        0 <= n <= produces.len(),
        within(produces, m.len() as int),
        marking_shows(vs, m),
        shows(vs, env),
    ensures
        with_tokens(m, carries, produces, env, n).len() == m.len(),
        marking_shows(vs, with_tokens(m, carries, produces, env, n)),
    decreases n,
{
    if n > 0 {
        lemma_shows_with(vs, m, carries, produces, env, n - 1);
        let prior = with_tokens(m, carries, produces, env, n - 1);
        let p = produces[n - 1] as int;
        let token = made_token(carries[p], env, carries[p].len() as int);
        lemma_shows_made(vs, carries[p], env, carries[p].len() as int);
        let next = prior.update(p, prior[p].push(token));
        assert forall|q: int, j: int| 0 <= q < next.len() && 0 <= j < next[q].len() implies shows(
            vs,
            #[trigger] next[q][j],
        ) by {
            if q == p && j == prior[p].len() {
                assert(next[q][j] == token);
            } else {
                assert(next[q][j] == prior[q][j]);
            }
        }
    }
}

/// Firing shows no other values.
proof fn lemma_shows_fired(
    vs: Set<Str>,
    net: NetView,
    m: Seq<Seq<Seq<(Str, Str)>>>,
    t: CompiledTransitionView,
    choice: Seq<usize>,
    env: Seq<(Str, Str)>,
)
    requires
        transition_ok(t, m.len() as int),
        marking_shows(vs, m),
        shows(vs, env),
    ensures
        marking_shows(vs, fired(net, m, t, choice, env)),
{
    let left = left_marking(m, t.consumes, choice);
    assert forall|p: int, j: int| 0 <= p < left.len() && 0 <= j < left[p].len() implies shows(
        vs,
        #[trigger] left[p][j],
    ) by {
        assert forall|j: int| 0 <= j < m[p].len() implies shows(vs, #[trigger] m[p][j]) by {}
        lemma_shows_left(vs, m[p], t.consumes, choice, p, m[p].len() as int);
    }
    lemma_shows_with(vs, left, net.place_carries, t.produces, env, t.produces.len() as int);
}

proof fn lemma_joined_shown(vs: Set<Str>, env: Seq<(Str, Str)>, token: Seq<(Str, Str)>, n: int)
    requires
        0 <= n <= token.len(),
        all_in(vs, env),
        shows(vs, token),
    ensures
        joined_token(env, token, n) matches Some(e) ==> all_in(vs, e),
    decreases n,
{
    if n > 0 {
        lemma_joined_shown(vs, env, token, n - 1);
        assert(token[n - 1].0 == token[n - 1].0);
        match joined_token(env, token, n - 1) {
            Some(e) => {
                if !is_hidden(token[n - 1].0) {
                    lemma_in_put(vs, e, token[n - 1].0, token[n - 1].1);
                }
            },
            None => {},
        }
    }
}

/// What tokens say together is what they show.
proof fn lemma_joins_shown(
    vs: Set<Str>,
    m: Seq<Seq<Seq<(Str, Str)>>>,
    consumes: Seq<usize>,
    choice: Seq<usize>,
    n: int,
)
    requires
        0 <= n <= consumes.len(),
        within(consumes, m.len() as int),
        valid_choice(m, consumes, choice),
        marking_shows(vs, m),
    ensures
        joined_tokens(m, consumes, choice, n) matches Some(e) ==> all_in(vs, e),
    decreases n,
{
    if n > 0 {
        lemma_joins_shown(vs, m, consumes, choice, n - 1);
        let p = consumes[n - 1] as int;
        assert(choice[n - 1] < m[p].len());
        let token = m[p][choice[n - 1] as int];
        assert(shows(vs, token));
        match joined_tokens(m, consumes, choice, n - 1) {
            Some(e) => {
                lemma_joined_shown(vs, e, token, token.len() as int);
            },
            None => {},
        }
    }
}

// ---------------------------------------------------------------------------
// Hidden values left aside
// ---------------------------------------------------------------------------
/// What stands in place of a hidden value.
spec fn hush(k: Str, v: Str) -> Str {
    if is_hidden(k) {
        Seq::empty()
    } else {
        v
    }
}

/// A token or environment without its hidden values.
spec fn hushed(e: Seq<(Str, Str)>) -> Seq<(Str, Str)> {
    Seq::new(e.len(), |i: int| (e[i].0, hush(e[i].0, e[i].1)))
}

spec fn hushed_tokens(ts: Seq<Seq<(Str, Str)>>) -> Seq<Seq<(Str, Str)>> {
    Seq::new(ts.len(), |j: int| hushed(ts[j]))
}

/// A marking without the hidden values of its tokens.
spec fn hushed_marking(m: Seq<Seq<Seq<(Str, Str)>>>) -> Seq<Seq<Seq<(Str, Str)>>> {
    Seq::new(m.len(), |p: int| hushed_tokens(m[p]))
}

proof fn lemma_hushed_put(e: Seq<(Str, Str)>, k: Str, v: Str)
    ensures
        hushed(put(e, k, v)) == put(hushed(e), k, hush(k, v)),
    decreases e.len(),
{
    let l = hushed(put(e, k, v));
    let f = hushed(e);
    if e.len() > 0 {
        lemma_hushed_put(e.drop_first(), k, v);
        assert(f.drop_first() =~= hushed(e.drop_first()));
        assert(l =~= put(f, k, hush(k, v)));
    } else {
        assert(l =~= put(f, k, hush(k, v)));
    }
}

proof fn lemma_hushed_lookup(e: Seq<(Str, Str)>, k: Str)
    ensures
        lookup(hushed(e), k) == (match lookup(e, k) {
            Some(v) => Some(hush(k, v)),
            None => None,
        }),
    decreases e.len(),
{
    if e.len() > 0 {
        lemma_hushed_lookup(e.drop_first(), k);
        assert(hushed(e).drop_first() =~= hushed(e.drop_first()));
    }
}

proof fn lemma_hushed_made(carries: Seq<Str>, env: Seq<(Str, Str)>, n: int)
    requires
        0 <= n <= carries.len(),
    ensures
        made_token(carries, hushed(env), n) == hushed(made_token(carries, env, n)),
    decreases n,
{
    if n > 0 {
        lemma_hushed_made(carries, env, n - 1);
        lemma_hushed_lookup(env, carries[n - 1]);
        match lookup(env, carries[n - 1]) {
            Some(v) => {
                lemma_hushed_put(made_token(carries, env, n - 1), carries[n - 1], v);
            },
            None => {},
        }
    } else {
        assert(hushed(Seq::empty()) =~= Seq::<(Str, Str)>::empty());
    }
}

proof fn lemma_hushed_left(
    ts: Seq<Seq<(Str, Str)>>,
    consumes: Seq<usize>,
    choice: Seq<usize>,
    p: int,
    n: int,
)
    requires
        0 <= n <= ts.len(),
    ensures
        left_tokens(hushed_tokens(ts), consumes, choice, p, n) == hushed_tokens(
            left_tokens(ts, consumes, choice, p, n),
        ),
    decreases n,
{
    if n > 0 {
        lemma_hushed_left(ts, consumes, choice, p, n - 1);
        let left = left_tokens(ts, consumes, choice, p, n - 1);
        assert(hushed_tokens(left.push(ts[n - 1])) =~= hushed_tokens(left).push(
            hushed(ts[n - 1]),
        ));
    } else {
        assert(hushed_tokens(Seq::empty()) =~= Seq::<Seq<(Str, Str)>>::empty());
    }
}

proof fn lemma_hushed_with(
    m: Seq<Seq<Seq<(Str, Str)>>>,
    carries: Seq<Seq<Str>>,
    produces: Seq<usize>,
    env: Seq<(Str, Str)>,
    n: int,
)
    requires
        0 <= n <= produces.len(),
        within(produces, m.len() as int),
    ensures
        with_tokens(m, carries, produces, env, n).len() == m.len(),
        with_tokens(hushed_marking(m), carries, produces, hushed(env), n) == hushed_marking(
            with_tokens(m, carries, produces, env, n),
        ),
    decreases n,
{
    if n > 0 {
        lemma_hushed_with(m, carries, produces, env, n - 1);
        let prior = with_tokens(m, carries, produces, env, n - 1);
        let p = produces[n - 1] as int;
        let token = made_token(carries[p], env, carries[p].len() as int);
        lemma_hushed_made(carries[p], env, carries[p].len() as int);
        let next = prior.update(p, prior[p].push(token));
        assert(hushed_tokens(prior[p].push(token)) =~= hushed_tokens(prior[p]).push(
            hushed(token),
        ));
        assert(hushed_marking(next) =~= hushed_marking(prior).update(
            p,
            hushed_marking(prior)[p].push(hushed(token)),
        ));
    }
}

/// Firing does not look at hidden values.
proof fn lemma_hushed_fired(
    net: NetView,
    m: Seq<Seq<Seq<(Str, Str)>>>,
    t: CompiledTransitionView,
    choice: Seq<usize>,
    env: Seq<(Str, Str)>,
)
    requires
        transition_ok(t, m.len() as int),
    ensures
        fired(net, hushed_marking(m), t, choice, hushed(env)) == hushed_marking(
            fired(net, m, t, choice, env),
        ),
{
    let left = left_marking(m, t.consumes, choice);
    assert forall|p: int| 0 <= p < m.len() implies left_tokens(
        hushed_tokens(m[p]),
        t.consumes,
        choice,
        p,
        m[p].len() as int,
    ) == hushed_tokens(#[trigger] left[p]) by {
        lemma_hushed_left(m[p], t.consumes, choice, p, m[p].len() as int);
    }
    assert(left_marking(hushed_marking(m), t.consumes, choice) =~= hushed_marking(left));
    lemma_hushed_with(left, net.place_carries, t.produces, env, t.produces.len() as int);
}

proof fn lemma_hushed_joined(env: Seq<(Str, Str)>, token: Seq<(Str, Str)>, n: int)
    requires
        0 <= n <= token.len(),
    ensures
        joined_token(env, hushed(token), n) == joined_token(env, token, n),
    decreases n,
{
    if n > 0 {
        lemma_hushed_joined(env, token, n - 1);
        assert(hushed(token)[n - 1] == (token[n - 1].0, hush(token[n - 1].0, token[n - 1].1)));
    }
}

/// What tokens say together has nothing to do with hidden values.
proof fn lemma_hushed_joins(
    m: Seq<Seq<Seq<(Str, Str)>>>,
    consumes: Seq<usize>,
    choice: Seq<usize>,
    n: int,
)
    requires
        0 <= n <= consumes.len(),
        within(consumes, m.len() as int),
        valid_choice(m, consumes, choice),
    ensures
        joined_tokens(hushed_marking(m), consumes, choice, n) == joined_tokens(
            m,
            consumes,
            choice,
            n,
        ),
    decreases n,
{
    if n > 0 {
        lemma_hushed_joins(m, consumes, choice, n - 1);
        let p = consumes[n - 1] as int;
        assert(choice[n - 1] < m[p].len());
        let token = m[p][choice[n - 1] as int];
        assert(hushed_marking(m)[p][choice[n - 1] as int] == hushed(token));
        match joined_tokens(m, consumes, choice, n - 1) {
            Some(e) => {
                lemma_hushed_joined(e, token, token.len() as int);
            },
            None => {},
        }
    }
}

proof fn lemma_hushed_same(a: Seq<Seq<Seq<(Str, Str)>>>, b: Seq<Seq<Seq<(Str, Str)>>>)
    requires
        same_tokens(a, b),
    ensures
        same_tokens(hushed_marking(a), hushed_marking(b)),
{
    let f = |e: Seq<(Str, Str)>| hushed(e);
    let x = hushed_marking(a);
    let y = hushed_marking(b);
    assert forall|p: int| 0 <= p < x.len() implies (#[trigger] x[p]).to_multiset()
        == y[p].to_multiset() by {
        assert(a[p].to_multiset() == b[p].to_multiset());
        lemma_tokens_changed(f, a[p], b[p]);
        assert(changed(f, a[p]) =~= x[p]);
        assert(changed(f, b[p]) =~= y[p]);
    }
}

// ---------------------------------------------------------------------------
// Minted values
// ---------------------------------------------------------------------------
/// The first `n` minted values.
pub open spec fn first_values(n: nat) -> Set<Str> {
    Set::new(|v: Str| exists|k: nat| 0 < k <= n && v == #[trigger] value_name(k))
}

/// Whether `r` gives minted values other numbers, no two of them the same.
pub open spec fn renumbers(r: Map<Str, Str>) -> bool {
    &&& forall|v: Str| #[trigger]
        r.dom().contains(v) ==> exists|k: nat, l: nat|
            v == #[trigger] value_name(k) && r[v] == #[trigger] value_name(l)
    &&& forall|v: Str, w: Str|
        #![trigger r[v], r[w]]
        r.dom().contains(v) && r.dom().contains(w) && r[v] == r[w] ==> v == w
}

proof fn lemma_value_name(a: nat, b: nat)
    ensures
        value_name(a) == value_name(b) ==> a == b,
        value_name(a).len() > 0,
{
    reveal_strlit("v");
    if value_name(a) == value_name(b) {
        assert(value_name(a).skip(1) =~= decimal(a));
        assert(value_name(b).skip(1) =~= decimal(b));
        lemma_decimal_injective(a, b);
    }
}

/// The number of a minted value.
spec fn number_of(v: Str) -> nat {
    choose|k: nat| v == #[trigger] value_name(k)
}

proof fn lemma_number_of(k: nat)
    ensures
        number_of(value_name(k)) == k,
{
    let n = number_of(value_name(k));
    assert(value_name(k) == value_name(n));
    lemma_value_name(k, n);
}

proof fn lemma_renamed_hushed(r: Map<Str, Str>, e: Seq<(Str, Str)>)
    requires
        renumbers(r),
    ensures
        hushed(renamed_env(r, e)) == renamed_env(r, hushed(e)),
{
    assert(!r.dom().contains(Seq::empty())) by {
        if r.dom().contains(Seq::empty()) {
            let (k, l) = choose|k: nat, l: nat|
                Seq::<char>::empty() == #[trigger] value_name(k) && r[Seq::empty()]
                    == #[trigger] value_name(l);
            lemma_value_name(k, k);
        }
    }
    assert(hushed(renamed_env(r, e)) =~= renamed_env(r, hushed(e)));
}

proof fn lemma_numbered_in(vs: Set<Str>, env: Seq<(Str, Str)>, binds: Seq<Str>, fresh: nat, n: int)
    requires
        0 <= n <= binds.len(),
        all_in(vs, env),
        forall|k: nat| fresh < k <= fresh + n ==> vs.contains(#[trigger] value_name(k)),
    ensures
        all_in(vs, numbered(env, binds, fresh, n)),
    decreases n,
{
    if n > 0 {
        lemma_numbered_in(vs, env, binds, fresh, n - 1);
        assert(vs.contains(value_name((fresh + n) as nat)));
        lemma_in_put(
            vs,
            numbered(env, binds, fresh, n - 1),
            binds[n - 1],
            value_name((fresh + n) as nat),
        );
    }
}

proof fn lemma_numbered_renamed(
    r: Map<Str, Str>,
    env: Seq<(Str, Str)>,
    binds: Seq<Str>,
    a: nat,
    b: nat,
    n: int,
)
    requires
        0 <= n <= binds.len(),
        forall|k: nat|
            a < k <= a + n ==> renamed(r, #[trigger] value_name(k)) == value_name(
                (b + k - a) as nat,
            ),
    ensures
        renamed_env(r, numbered(env, binds, a, n)) == numbered(renamed_env(r, env), binds, b, n),
    decreases n,
{
    if n > 0 {
        lemma_numbered_renamed(r, env, binds, a, b, n - 1);
        let v = value_name((a + n) as nat);
        assert(renamed(r, v) == value_name((b + n) as nat));
        lemma_renamed_put(r, numbered(env, binds, a, n - 1), binds[n - 1], v);
    }
}

// ---------------------------------------------------------------------------
// What executions hold
// ---------------------------------------------------------------------------
/// Whether the tokens that a net begins with carry no variable.
pub open spec fn starts_bare(net: NetView) -> bool {
    forall|p: int, j: int, i: int|
        0 <= p < net.initial.len() && 0 <= j < net.initial[p].len() && 0 <= i
            < net.initial[p][j].len() ==> is_hidden((#[trigger] net.initial[p][j][i]).0)
}

/// The firing behind one more part of an execution.
proof fn lemma_continued_by(
    net: NetView,
    s: PartialView,
    t: CompiledTransitionView,
    n: int,
    next: PartialView,
) -> (k: int)
    requires
        continued_by(net, s, t, n).contains(next),
        n <= options_of(s, t).len(),
    ensures
        0 <= k < n,
        continued(net, s, t, options_of(s, t)[k]) == Some(next),
    decreases n,
{
    if n <= 0 {
        0
    } else {
        let rest = continued_by(net, s, t, n - 1);
        let all = continued_by(net, s, t, n);
        let i = all.index_of(next);
        if i < rest.len() {
            assert(rest[i] == next);
            lemma_continued_by(net, s, t, n - 1, next)
        } else {
            n - 1
        }
    }
}

proof fn lemma_continuations(net: NetView, s: PartialView, n: int, next: PartialView) -> (r: (
    int,
    int,
))
    requires
        n <= net.transitions.len(),
        continuations(net, s, n).contains(next),
    ensures
        0 <= r.0 < n,
        lacking_from(s.marking, net.transitions[r.0].consumes, 0) is None,
        0 <= r.1 < options_of(s, net.transitions[r.0]).len(),
        continued(net, s, net.transitions[r.0], options_of(s, net.transitions[r.0])[r.1]) == Some(
            next,
        ),
    decreases n,
{
    if n <= 0 {
        (0, 0)
    } else {
        let rest = continuations(net, s, n - 1);
        let t = net.transitions[n - 1];
        let all = continuations(net, s, n);
        let i = all.index_of(next);
        if i < rest.len() {
            assert(rest[i] == next);
            lemma_continuations(net, s, n - 1, next)
        } else {
            let own = continued_by(net, s, t, options_of(s, t).len() as int);
            assert(own[i - rest.len()] == next);
            let k = lemma_continued_by(net, s, t, options_of(s, t).len() as int, next);
            (n - 1, k)
        }
    }
}

proof fn lemma_among_continued(
    net: NetView,
    s: PartialView,
    t: CompiledTransitionView,
    n: int,
    k: int,
    next: PartialView,
)
    requires
        0 <= k < n <= options_of(s, t).len(),
        continued(net, s, t, options_of(s, t)[k]) == Some(next),
    ensures
        continued_by(net, s, t, n).contains(next),
    decreases n,
{
    let rest = continued_by(net, s, t, n - 1);
    let all = continued_by(net, s, t, n);
    if k < n - 1 {
        lemma_among_continued(net, s, t, n - 1, k, next);
        assert(all[rest.index_of(next)] == next);
    } else {
        assert(all[rest.len() as int] == next);
    }
}

proof fn lemma_among_continuations(
    net: NetView,
    s: PartialView,
    n: int,
    ti: int,
    k: int,
    next: PartialView,
)
    requires
        0 <= ti < n <= net.transitions.len(),
        lacking_from(s.marking, net.transitions[ti].consumes, 0) is None,
        0 <= k < options_of(s, net.transitions[ti]).len(),
        continued(net, s, net.transitions[ti], options_of(s, net.transitions[ti])[k]) == Some(next),
    ensures
        continuations(net, s, n).contains(next),
    decreases n,
{
    let rest = continuations(net, s, n - 1);
    let all = continuations(net, s, n);
    let t = net.transitions[n - 1];
    if ti < n - 1 {
        lemma_among_continuations(net, s, n - 1, ti, k, next);
        assert(all[rest.index_of(next)] == next);
    } else {
        let own = continued_by(net, s, t, options_of(s, t).len() as int);
        lemma_among_continued(net, s, t, options_of(s, t).len() as int, k, next);
        assert(all[rest.len() + own.index_of(next)] == next);
    }
}

/// Every choice that is looked at is valid.
proof fn lemma_option(s: PartialView, t: CompiledTransitionView, k: int)
    requires
        within(t.consumes, s.marking.len() as int),
        countable(s.marking),
        0 <= k < options_of(s, t).len(),
    ensures
        valid_choice(s.marking, t.consumes, options_of(s, t)[k]),
{
    let all = all_choices(s.marking, t.consumes, Seq::empty());
    let c = options_of(s, t)[k];
    assert(all[k] == c);
    assert(all.contains(c));
    lemma_all_choices(s.marking, t.consumes, Seq::empty(), c);
}

/// Whether no execution of fewer than `depth` firings has more choices of tokens than are looked
/// at.
pub open spec fn no_choice_left_out(net: NetView, depth: nat) -> bool {
    forall|s: PartialView, ti: int|
        #![trigger executable(net, s), net.transitions[ti]]
        executable(net, s) && s.level < depth && 0 <= ti < net.transitions.len() ==> countable(
            s.marking,
        ) && !too_many_choices(s.marking, net.transitions[ti])
}

/// What a firing leaves holds the values that were there and those that it mints.
proof fn lemma_firing_holds(
    net: NetView,
    s: PartialView,
    t: CompiledTransitionView,
    choice: Seq<usize>,
    vs: Set<Str>,
    base: Seq<(Str, Str)>,
)
    requires
        transition_ok(t, s.marking.len() as int),
        valid_choice(s.marking, t.consumes, choice),
        marking_shows(vs, s.marking),
        forall|k: nat|
            s.fresh < k <= s.fresh + t.binds.len() ==> vs.contains(#[trigger] value_name(k)),
        joined_tokens(s.marking, t.consumes, choice, t.consumes.len() as int) == Some(base),
    ensures
        all_in(vs, base),
        all_in(vs, numbered(base, t.binds, s.fresh, t.binds.len() as int)),
        continued(net, s, t, choice) matches Some(next) && marking_shows(vs, next.marking)
            && next.marking.len() == s.marking.len(),
{
    let env = numbered(base, t.binds, s.fresh, t.binds.len() as int);
    lemma_joins_shown(vs, s.marking, t.consumes, choice, t.consumes.len() as int);
    lemma_numbered_in(vs, base, t.binds, s.fresh, t.binds.len() as int);
    assert(shows(vs, env));
    lemma_shows_fired(vs, net, s.marking, t, choice, env);
    lemma_fired_len(net, s.marking, t, choice, env);
}

/// An execution holds values that it has minted, and no others.
proof fn lemma_execution_holds(net: NetView, depth: nat, run: Seq<PartialView>, i: int)
    requires
        net_ok(net),
        starts_bare(net),
        no_choice_left_out(net, depth),
        is_execution(net, run),
        0 <= i < run.len(),
        i <= depth,
    ensures
        executable(net, run[i]),
        run[i].marking.len() == net.place_names.len(),
        marking_shows(first_values(run[i].fresh), run[i].marking),
    decreases i,
{
    if i == 0 {
        lemma_outset(net);
        let m = net.initial;
        assert forall|p: int, j: int| 0 <= p < m.len() && 0 <= j < m[p].len() implies shows(
            first_values(0),
            #[trigger] m[p][j],
        ) by {
            let e = m[p][j];
            assert forall|x: int| 0 <= x < e.len() implies is_hidden((#[trigger] e[x]).0) by {
                assert(m[p][j][x] == e[x]);
            }
        }
    } else {
        lemma_execution_holds(net, depth, run, i - 1);
        lemma_execution_level(net, run, i - 1);
        let s = run[i - 1];
        let next = run[i];
        assert(further_on(net, s).contains(next));
        lemma_further_executable(net, s, next);
        let (ti, k) = lemma_continuations(net, s, net.transitions.len() as int, next);
        let t = net.transitions[ti];
        assert(transition_ok(t, s.marking.len() as int));
        assert(countable(s.marking));
        lemma_option(s, t, k);
        let c = options_of(s, t)[k];
        let vs = first_values(next.fresh);
        assert(next.fresh == s.fresh + t.binds.len());
        assert(forall|x: nat| 0 < x <= next.fresh ==> vs.contains(#[trigger] value_name(x)));
        assert forall|v: Str| first_values(s.fresh).contains(v) implies vs.contains(v) by {
            let x = choose|x: nat| 0 < x <= s.fresh && v == #[trigger] value_name(x);
            assert(vs.contains(value_name(x)));
        }
        lemma_held(first_values(s.fresh), s.marking);
        lemma_held(vs, s.marking);
        let base = joined_tokens(s.marking, t.consumes, c, t.consumes.len() as int)->0;
        lemma_firing_holds(net, s, t, c, vs, base);
    }
}

// ---------------------------------------------------------------------------
// The same under other numbers
// ---------------------------------------------------------------------------
/// Whether two effects are the same but for the numbers of their values.
pub open spec fn retold(net: NetView, r: Map<Str, Str>, x: Str, y: Str) -> bool {
    exists|ti: int, ei: int, env: Seq<(Str, Str)>|
        #![trigger effect_text(net.transitions[ti].emits[ei], env)]
        0 <= ti < net.transitions.len() && 0 <= ei < net.transitions[ti].emits.len() && all_in(
            r.dom(),
            env,
        ) && x == effect_text(net.transitions[ti].emits[ei], env) && y == effect_text(
            net.transitions[ti].emits[ei],
            renamed_env(r, env),
        )
}

/// Whether two executions have come equally far and hold the same for variables, but for the
/// numbers of the values.
spec fn alike(r: Map<Str, Str>, a: PartialView, b: PartialView) -> bool {
    &&& renumbers(r)
    &&& held(a.marking).subset_of(r.dom())
    &&& same_tokens(renamed_marking(r, hushed_marking(a.marking)), hushed_marking(b.marking))
    &&& a.level == b.level
}

/// The numbering that keeps the numbers of `hs` and numbers the values minted from `a` on like
/// those minted from `b` on.
spec fn numbered_on(r: Map<Str, Str>, hs: Set<Str>, a: nat, b: nat, n: nat) -> Map<Str, Str> {
    Map::new(
        |v: Str| hs.contains(v) || exists|k: nat| a < k <= a + n && v == #[trigger] value_name(k),
        |v: Str|
            if hs.contains(v) {
                r[v]
            } else {
                value_name((b + number_of(v) - a) as nat)
            },
    )
}

proof fn lemma_numbered_on(r: Map<Str, Str>, hs: Set<Str>, a: nat, b: nat, n: nat)
    requires
        renumbers(r),
        hs.subset_of(r.dom()),
        hs.subset_of(first_values(a)),
        forall|v: Str| #[trigger] hs.contains(v) ==> first_values(b).contains(r[v]),
    ensures
        renumbers(numbered_on(r, hs, a, b, n)),
        forall|v: Str| #[trigger] hs.contains(v) ==> numbered_on(r, hs, a, b, n).dom().contains(v)
            && numbered_on(r, hs, a, b, n)[v] == r[v],
        forall|k: nat|
            a < k <= a + n ==> {
                &&& numbered_on(r, hs, a, b, n).dom().contains(#[trigger] value_name(k))
                &&& renamed(numbered_on(r, hs, a, b, n), value_name(k)) == value_name(
                    (b + k - a) as nat,
                )
            },
{
    let up = numbered_on(r, hs, a, b, n);
    assert forall|k: nat| a < k <= a + n implies {
        &&& up.dom().contains(#[trigger] value_name(k))
        &&& !hs.contains(value_name(k))
        &&& up[value_name(k)] == value_name((b + k - a) as nat)
    } by {
        if hs.contains(value_name(k)) {
            let l = choose|l: nat| 0 < l <= a && value_name(k) == #[trigger] value_name(l);
            lemma_value_name(k, l);
        }
        lemma_number_of(k);
    }
    assert forall|v: Str| #[trigger] up.dom().contains(v) implies exists|k: nat, l: nat|
        v == #[trigger] value_name(k) && up[v] == #[trigger] value_name(l) by {
        if hs.contains(v) {
            assert(r.dom().contains(v));
        } else {
            let k = choose|k: nat| a < k <= a + n && v == #[trigger] value_name(k);
            assert(up[value_name(k)] == value_name((b + k - a) as nat));
        }
    }
    assert forall|v: Str, w: Str|
        #![trigger up[v], up[w]]
        up.dom().contains(v) && up.dom().contains(w) && up[v] == up[w] implies v == w by {
        if hs.contains(v) && hs.contains(w) {
            assert(up[v] == r[v] && up[w] == r[w]);
        } else if hs.contains(v) {
            lemma_ranges_apart(r, hs, a, b, n, v, w);
        } else if hs.contains(w) {
            lemma_ranges_apart(r, hs, a, b, n, w, v);
        } else {
            let k = choose|k: nat| a < k <= a + n && v == #[trigger] value_name(k);
            let l = choose|l: nat| a < l <= a + n && w == #[trigger] value_name(l);
            lemma_number_of(k);
            lemma_number_of(l);
            lemma_value_name((b + k - a) as nat, (b + l - a) as nat);
        }
    }
}

proof fn lemma_ranges_apart(
    r: Map<Str, Str>,
    hs: Set<Str>,
    a: nat,
    b: nat,
    n: nat,
    v: Str,
    w: Str,
)
    requires
        hs.contains(v),
        !hs.contains(w),
        numbered_on(r, hs, a, b, n).dom().contains(w),
        first_values(b).contains(r[v]),
    ensures
        numbered_on(r, hs, a, b, n)[v] != numbered_on(r, hs, a, b, n)[w],
{
    let k = choose|k: nat| a < k <= a + n && w == #[trigger] value_name(k);
    let l = choose|l: nat| 0 < l <= b && r[v] == #[trigger] value_name(l);
    lemma_number_of(k);
    lemma_value_name(l, (b + k - a) as nat);
}

/// What is held under the other numbers is held by the other execution.
proof fn lemma_held_there(r: Map<Str, Str>, a: PartialView, b: PartialView, v: Str)
    requires
        alike(r, a, b),
        held(a.marking).contains(v),
    ensures
        held(b.marking).contains(r[v]),
{
    let m = a.marking;
    let (p, j, i) = choose|p: int, j: int, i: int|
        0 <= p < m.len() && 0 <= j < m[p].len() && 0 <= i < m[p][j].len() && !is_hidden(
            m[p][j][i].0,
        ) && (#[trigger] m[p][j][i]).1 == v;
    let x = renamed_marking(r, hushed_marking(m));
    let y = hushed_marking(b.marking);
    let e = x[p][j];
    assert(e == renamed_env(r, hushed(m[p][j])));
    assert(e[i] == (m[p][j][i].0, r[v]));
    assert(x[p].to_multiset() == y[p].to_multiset());
    assert(x[p].contains(e));
    assert(x[p].to_multiset().count(e) > 0);
    assert(y[p].contains(e));
    let k = y[p].index_of(e);
    let f = b.marking[p][k];
    assert(y[p][k] == hushed(f));
    assert(hushed(f)[i] == e[i]);
    assert(b.marking[p][k][i].1 == r[v]);
}

proof fn lemma_shape_effects(emits: Seq<EffectTemplateView>, env: Seq<(Str, Str)>, n: int)
    requires
        0 <= n <= emits.len(),
    ensures
        shape_effects(emits, env, n).len() == n,
        forall|i: int|
            0 <= i < n ==> #[trigger] shape_effects(emits, env, n)[i] == effect_text(emits[i], env),
    decreases n,
{
    if n > 0 {
        lemma_shape_effects(emits, env, n - 1);
    }
}

/// The numbering only matters where values are held.
proof fn lemma_same_numbering(
    r: Map<Str, Str>,
    up: Map<Str, Str>,
    m: Seq<Seq<Seq<(Str, Str)>>>,
)
    requires
        renumbers(r),
        renumbers(up),
        held(m).subset_of(r.dom()),
        forall|v: Str| #[trigger] held(m).contains(v) ==> up.dom().contains(v) && up[v] == r[v],
    ensures
        renamed_marking(up, hushed_marking(m)) == renamed_marking(r, hushed_marking(m)),
{
    let h = hushed_marking(m);
    let x = renamed_marking(up, h);
    let y = renamed_marking(r, h);
    lemma_held(held(m), m);
    assert forall|p: int| 0 <= p < m.len() implies #[trigger] x[p] == y[p] by {
        assert forall|j: int| 0 <= j < m[p].len() implies #[trigger] x[p][j] == y[p][j] by {
            let e = m[p][j];
            assert(shows(held(m), m[p][j]));
            lemma_renamed_hushed(up, e);
            lemma_renamed_hushed(r, e);
            assert(x[p][j] == renamed_env(up, hushed(e)));
            assert(y[p][j] == renamed_env(r, hushed(e)));
            assert(hushed(renamed_env(up, e)) =~= hushed(renamed_env(r, e)));
        }
        assert(x[p] =~= y[p]);
    }
    assert(x =~= y);
}

/// A firing can be made from where another execution has come equally far, and differs there
/// only in the numbers of the values.
proof fn lemma_retold_step(
    net: NetView,
    depth: nat,
    r: Map<Str, Str>,
    a: PartialView,
    b: PartialView,
    a2: PartialView,
) -> (next: (Map<Str, Str>, PartialView))
    requires
        net_ok(net),
        no_choice_left_out(net, depth),
        executable(net, a),
        executable(net, b),
        a.level < depth,
        a.marking.len() == net.place_names.len(),
        b.marking.len() == net.place_names.len(),
        marking_shows(first_values(a.fresh), a.marking),
        marking_shows(first_values(b.fresh), b.marking),
        alike(r, a, b),
        further_on(net, a).contains(a2),
    ensures
        further_on(net, b).contains(next.1),
        alike(next.0, a2, next.1),
        forall|v: Str| #[trigger] held(a.marking).contains(v) ==> r.dom().contains(v)
            && next.0.dom().contains(v) && next.0[v] == r[v],
        a2.trace.len() - a.trace.len() == next.1.trace.len() - b.trace.len(),
        a2.trace.len() >= a.trace.len(),
        a2.trace.take(a.trace.len() as int) == a.trace,
        next.1.trace.take(b.trace.len() as int) == b.trace,
        forall|i: int|
            0 <= i < a2.trace.len() - a.trace.len() ==> retold(
                net,
                next.0,
                #[trigger] a2.trace[a.trace.len() + i],
                next.1.trace[b.trace.len() + i],
            ),
{
    let (ti, x) = lemma_continuations(net, a, net.transitions.len() as int, a2);
    let t = net.transitions[ti];
    let cs = t.consumes;
    let n = t.binds.len();
    assert(transition_ok(t, a.marking.len() as int));
    assert(countable(a.marking) && countable(b.marking));
    assert(!too_many_choices(b.marking, t));
    lemma_option(a, t, x);
    let d = options_of(a, t)[x];
    let hs = held(a.marking);
    lemma_held(first_values(a.fresh), a.marking);
    lemma_held(first_values(b.fresh), b.marking);
    assert forall|v: Str| #[trigger] hs.contains(v) implies first_values(b.fresh).contains(
        r[v],
    ) by {
        lemma_held_there(r, a, b, v);
    }
    let up = numbered_on(r, hs, a.fresh, b.fresh, n);
    lemma_numbered_on(r, hs, a.fresh, b.fresh, n);
    let ha = hushed_marking(a.marking);
    let hb = hushed_marking(b.marking);
    let ra = renamed_marking(up, ha);
    lemma_same_numbering(r, up, a.marking);
    lemma_same_shape(ra, hb);
    assert forall|p: int| 0 <= p < ra.len() implies (#[trigger] hb[p]).len() <= usize::MAX by {
        assert(b.marking[p].len() <= usize::MAX);
    }
    assert(valid_choice(ra, cs, d)) by {
        assert forall|s: int| 0 <= s < d.len() implies #[trigger] d[s] < ra[cs[s] as int].len() by {
            assert(cs[s] < a.marking.len());
        }
    }
    let c = other_choice(ra, hb, cs, d);
    lemma_other_choice(ra, hb, cs, d);
    assert(valid_choice(b.marking, cs, c)) by {
        assert forall|s: int| 0 <= s < c.len() implies #[trigger] c[s] < b.marking[
        cs[s] as int].len() by {
            assert(cs[s] < b.marking.len());
            assert(c[s] < hb[cs[s] as int].len());
        }
    }
    let base = joined_tokens(a.marking, cs, d, cs.len() as int)->0;
    lemma_hushed_joins(a.marking, cs, d, cs.len() as int);
    lemma_hushed_joins(b.marking, cs, c, cs.len() as int);
    assert forall|s: int| 0 <= s < cs.len() implies hb[(#[trigger] cs[s]) as int][c[s] as int]
        == renamed_env(up, ha[cs[s] as int][d[s] as int]) by {
        assert(cs[s] < a.marking.len());
        assert(d[s] < a.marking[cs[s] as int].len());
        assert(hb[cs[s] as int][c[s] as int] == ra[cs[s] as int][d[s] as int]);
    }
    lemma_joined_tokens(up, ha, hb, cs, d, c, cs.len() as int);
    let ea = numbered(base, t.binds, a.fresh, n as int);
    let eb = numbered(renamed_env(up, base), t.binds, b.fresh, n as int);
    lemma_numbered_renamed(up, base, t.binds, a.fresh, b.fresh, n as int);
    assert(eb == renamed_env(up, ea));
    let b2 = continued(net, b, t, c)->0;
    assert(continued(net, b, t, c) == Some(b2));
    // where it goes
    lemma_held(up.dom(), a.marking);
    assert(hs.subset_of(up.dom()));
    lemma_firing_holds(net, a, t, d, up.dom(), base);
    lemma_held(up.dom(), a2.marking);
    lemma_hushed_fired(net, a.marking, t, d, ea);
    lemma_hushed_fired(net, b.marking, t, c, eb);
    lemma_renamed_hushed(up, ea);
    lemma_fired_renamed(up, net, ha, t, d, hushed(ea));
    lemma_fired_same(net, ra, hb, t, d, c, hushed(eb));
    assert(alike(up, a2, b2));
    // that it is looked at
    let all = all_choices(b.marking, cs, Seq::empty());
    lemma_all_choices(b.marking, cs, Seq::empty(), c);
    assert(c.take(0) =~= Seq::<usize>::empty());
    assert(options_of(b, t) == all);
    let k = all.index_of(c);
    assert(all[k] == c);
    lemma_lacking(ra, hb, cs, 0);
    lemma_lacking(a.marking, ra, cs, 0);
    lemma_lacking(hb, b.marking, cs, 0);
    lemma_among_continuations(net, b, net.transitions.len() as int, ti, k, b2);
    // what it emits
    let fa = shape_effects(t.emits, ea, t.emits.len() as int);
    let fb = shape_effects(t.emits, eb, t.emits.len() as int);
    lemma_shape_effects(t.emits, ea, t.emits.len() as int);
    lemma_shape_effects(t.emits, eb, t.emits.len() as int);
    assert(a2.trace == a.trace + fa && b2.trace == b.trace + fb);
    assert(a2.trace.take(a.trace.len() as int) =~= a.trace);
    assert(b2.trace.take(b.trace.len() as int) =~= b.trace);
    assert forall|i: int| 0 <= i < fa.len() implies retold(
        net,
        up,
        #[trigger] a2.trace[a.trace.len() + i],
        b2.trace[b.trace.len() + i],
    ) by {
        assert(a2.trace[a.trace.len() + i] == fa[i]);
        assert(b2.trace[b.trace.len() + i] == fb[i]);
        assert(fa[i] == effect_text(net.transitions[ti].emits[i], ea));
        assert(fb[i] == effect_text(net.transitions[ti].emits[i], renamed_env(up, ea)));
    }
    (up, b2)
}

// ---------------------------------------------------------------------------
// What the count has looked at
// ---------------------------------------------------------------------------
/// What the count has done so far: each execution in `done` was looked at; those in `grown` were
/// followed, one for each text that was seen, and what comes next is on the stack or done.
spec fn progress(
    net: NetView,
    depth: nat,
    q: CountView,
    done: Set<PartialView>,
    grown: Set<PartialView>,
) -> bool {
    &&& stack_ok(net, depth, q.stack)
    &&& q.stack.contains(outset(net)) || done.contains(outset(net))
    &&& forall|p: PartialView| #[trigger]
        done.contains(p) ==> {
            &&& is_final_marking(net.finals, p.marking) && p.trace.len() > 0 ==> q.shapes.contains(
                shape_of(p.trace),
            )
            &&& p.level < depth ==> q.seen.contains(partial_key(p))
        }
    &&& forall|k: Str| #[trigger]
        q.seen.contains(k) ==> exists|e: PartialView| #[trigger]
            grown.contains(e) && partial_key(e) == k
    &&& forall|e: PartialView| #[trigger] grown.contains(e) ==> executable(net, e)
    &&& forall|e: PartialView, c: PartialView|
        grown.contains(e) && #[trigger] further_on(net, e).contains(c) ==> q.stack.contains(c)
            || done.contains(c)
}

proof fn lemma_popped_or_done(stack: Seq<PartialView>, done: Set<PartialView>, c: PartialView)
    requires
        stack.len() > 0,
        stack.contains(c) || done.contains(c),
    ensures
        stack.drop_last().contains(c) || done.insert(stack.last()).contains(c),
{
    if stack.contains(c) {
        let i = stack.index_of(c);
        if i < stack.len() - 1 {
            assert(stack.drop_last()[i] == c);
        }
    }
}

proof fn lemma_count_progresses(
    net: NetView,
    depth: nat,
    cap: nat,
    budget: nat,
    q: CountView,
    done: Set<PartialView>,
    grown: Set<PartialView>,
) -> (all: (Set<PartialView>, Set<PartialView>))
    requires
        progress(net, depth, q, done, grown),
        !counted(net, depth, cap, budget, q).1,
    ensures
        progress(net, depth, counted(net, depth, cap, budget, q).0, all.0, all.1),
        counted(net, depth, cap, budget, q).0.stack.len() == 0,
    decreases budget + 1 - q.states,
{
    if q.stack.len() == 0 {
        (done, grown)
    } else {
        let s = q.stack.last();
        lemma_stack_shrinks(net, depth, q.stack);
        let popped = CountView { stack: q.stack.drop_last(), states: q.states + 1, ..q };
        let shapes = if is_final_marking(net.finals, s.marking) && s.trace.len() > 0 {
            q.shapes.insert(shape_of(s.trace))
        } else {
            q.shapes
        };
        let more = done.insert(s);
        lemma_popped_or_done(q.stack, done, outset(net));
        if s.level >= depth || q.seen.contains(partial_key(s)) {
            let next = CountView { shapes, ..popped };
            assert forall|e: PartialView, c: PartialView|
                grown.contains(e) && #[trigger] further_on(net, e).contains(c) implies
                next.stack.contains(c) || more.contains(c) by {
                lemma_popped_or_done(q.stack, done, c);
            }
            lemma_count_progresses(net, depth, cap, budget, next, more, grown)
        } else {
            let stack = popped.stack + further_on(net, s);
            let next = CountView {
                stack,
                shapes,
                seen: q.seen.insert(partial_key(s)),
                ..popped
            };
            let wider = grown.insert(s);
            lemma_stack_grows(net, depth, popped.stack, s);
            assert forall|c: PartialView| popped.stack.contains(c) implies #[trigger]
                stack.contains(c) by {
                assert(stack[popped.stack.index_of(c)] == c);
            }
            assert forall|k: Str| #[trigger] next.seen.contains(k) implies exists|e: PartialView|
                #[trigger] wider.contains(e) && partial_key(e) == k by {
                if k == partial_key(s) {
                    assert(wider.contains(s));
                } else {
                    assert(q.seen.contains(k));
                    let e = choose|e: PartialView| #[trigger]
                        grown.contains(e) && partial_key(e) == k;
                    assert(wider.contains(e));
                }
            }
            assert forall|e: PartialView, c: PartialView|
                wider.contains(e) && #[trigger] further_on(net, e).contains(c) implies
                next.stack.contains(c) || more.contains(c) by {
                if e == s {
                    let i = further_on(net, s).index_of(c);
                    assert(stack[popped.stack.len() + i] == c);
                } else {
                    assert(grown.contains(e));
                    lemma_popped_or_done(q.stack, done, c);
                }
            }
            lemma_count_progresses(net, depth, cap, budget, next, more, wider)
        }
    }
}

// ---------------------------------------------------------------------------
// Every execution is told
// ---------------------------------------------------------------------------
/// Whether `trace` tells the first `i` firings of an execution under other numbers: `rs` says at
/// each point which. A value keeps its number as long as a token holds it, and no two values
/// that are held together have the same.
pub open spec fn retells(
    net: NetView,
    run: Seq<PartialView>,
    i: int,
    trace: Seq<Str>,
    rs: Seq<Map<Str, Str>>,
) -> bool {
    &&& rs.len() == i + 1
    &&& forall|k: int| 0 <= k <= i ==> renumbers(#[trigger] rs[k])
    &&& forall|k: int, v: Str|
        0 <= k < i && #[trigger] held(run[k].marking).contains(v) ==> rs[k].dom().contains(v)
            && rs[k + 1].dom().contains(v) && rs[k + 1][v] == rs[k][v]
    &&& trace.len() == run[i].trace.len()
    &&& forall|k: int, j: int|
        0 <= k < i && run[k].trace.len() <= j < run[k + 1].trace.len() && j
            < run[i].trace.len() ==> #[trigger] told_at(net, run, i, trace, rs, k, j)
}

/// Whether the `j`-th effect is told as the firing after `k` others emitted it.
pub open spec fn told_at(
    net: NetView,
    run: Seq<PartialView>,
    i: int,
    trace: Seq<Str>,
    rs: Seq<Map<Str, Str>>,
    k: int,
    j: int,
) -> bool {
    retold(net, rs[k + 1], run[i].trace[j], trace[j])
}

/// The execution that was followed in place of one that was looked at.
proof fn lemma_followed(
    net: NetView,
    depth: nat,
    q: CountView,
    done: Set<PartialView>,
    grown: Set<PartialView>,
    r: Map<Str, Str>,
    a: PartialView,
    p: PartialView,
) -> (e: PartialView)
    requires
        progress(net, depth, q, done, grown),
        done.contains(p),
        p.level < depth,
        alike(r, a, p),
    ensures
        grown.contains(e),
        executable(net, e),
        alike(r, a, e),
        e.trace == p.trace,
        e.level == p.level,
{
    assert(q.seen.contains(partial_key(p)));
    let e = choose|e: PartialView| #[trigger]
        grown.contains(e) && partial_key(e) == partial_key(p);
    lemma_partial_key(e, p);
    lemma_hushed_same(e.marking, p.marking);
    let x = renamed_marking(r, hushed_marking(a.marking));
    let y = hushed_marking(p.marking);
    let z = hushed_marking(e.marking);
    assert forall|k: int| 0 <= k < x.len() implies (#[trigger] x[k]).to_multiset()
        == z[k].to_multiset() by {
        assert(x[k].to_multiset() == y[k].to_multiset());
        assert(z[k].to_multiset() == y[k].to_multiset());
    }
    e
}

proof fn lemma_executable_holds(net: NetView, depth: nat, e: PartialView)
    requires
        net_ok(net),
        starts_bare(net),
        no_choice_left_out(net, depth),
        executable(net, e),
        e.level <= depth,
    ensures
        e.marking.len() == net.place_names.len(),
        marking_shows(first_values(e.fresh), e.marking),
{
    let run = choose|run: Seq<PartialView>| #[trigger] is_execution(net, run) && run.last() == e;
    lemma_execution_level(net, run, run.len() - 1);
    lemma_execution_holds(net, depth, run, run.len() - 1);
}

proof fn lemma_execution_told(
    net: NetView,
    depth: nat,
    q: CountView,
    done: Set<PartialView>,
    grown: Set<PartialView>,
    run: Seq<PartialView>,
    i: int,
) -> (r: (PartialView, Seq<Map<Str, Str>>))
    requires
        net_ok(net),
        starts_bare(net),
        no_choice_left_out(net, depth),
        progress(net, depth, q, done, grown),
        q.stack.len() == 0,
        is_execution(net, run),
        run.len() - 1 <= depth,
        0 <= i < run.len(),
    ensures
        done.contains(r.0),
        r.1.len() == i + 1,
        alike(r.1[i], run[i], r.0),
        retells(net, run, i, r.0.trace, r.1),
    decreases i,
{
    if i == 0 {
        let none = Map::<Str, Str>::empty();
        let s = outset(net);
        lemma_execution_holds(net, depth, run, 0);
        lemma_held(Set::empty(), s.marking);
        assert(marking_shows(Set::empty(), s.marking)) by {
            let m = s.marking;
            assert forall|p: int, j: int| 0 <= p < m.len() && 0 <= j < m[p].len() implies shows(
                Set::empty(),
                #[trigger] m[p][j],
            ) by {
                let e = m[p][j];
                assert forall|x: int| 0 <= x < e.len() implies is_hidden((#[trigger] e[x]).0) by {
                    assert(m[p][j][x] == e[x]);
                }
            }
        }
        let h = hushed_marking(s.marking);
        assert(renamed_marking(none, h) =~= h) by {
            assert forall|p: int| 0 <= p < h.len() implies #[trigger] renamed_marking(none, h)[p]
                == h[p] by {
                assert forall|j: int| 0 <= j < h[p].len() implies renamed_marking(none, h)[p][j]
                    == h[p][j] by {
                    assert(renamed_env(none, h[p][j]) =~= h[p][j]);
                }
                assert(renamed_marking(none, h)[p] =~= h[p]);
            }
        }
        assert(done.contains(s));
        (s, seq![none])
    } else {
        let (p, rs) = lemma_execution_told(net, depth, q, done, grown, run, i - 1);
        let a = run[i - 1];
        let a2 = run[i];
        let r = rs[i - 1];
        lemma_execution_level(net, run, i - 1);
        lemma_execution_holds(net, depth, run, i - 1);
        let e = lemma_followed(net, depth, q, done, grown, r, a, p);
        lemma_executable_holds(net, depth, e);
        assert(further_on(net, a).contains(a2));
        let (up, b2) = lemma_retold_step(net, depth, r, a, e, a2);
        assert(done.contains(b2)) by {
            assert(grown.contains(e));
            assert(q.stack.contains(b2) || done.contains(b2));
        }
        let more = rs.push(up);
        assert forall|k: int| 0 <= k <= i implies renumbers(#[trigger] more[k]) by {
            if k < i {
                assert(more[k] == rs[k]);
            }
        }
        assert forall|k: int, v: Str|
            0 <= k < i && #[trigger] held(run[k].marking).contains(
                v,
            ) implies more[k].dom().contains(v) && more[k + 1].dom().contains(v) && more[k + 1][v]
            == more[k][v] by {
            assert(more[k] == rs[k]);
            if k < i - 1 {
                assert(more[k + 1] == rs[k + 1]);
            }
        }
        lemma_traces_grow(net, run, i - 1);
        assert forall|k: int, j: int|
            0 <= k < i && run[k].trace.len() <= j < run[k + 1].trace.len() && j
                < run[i].trace.len() implies #[trigger] told_at(
            net,
            run,
            i,
            b2.trace,
            more,
            k,
            j,
        ) by {
            if k < i - 1 {
                assert(run[k + 1].trace.len() <= a.trace.len());
                assert(told_at(net, run, i - 1, p.trace, rs, k, j));
                assert(a2.trace[j] == a2.trace.take(a.trace.len() as int)[j]);
                assert(b2.trace[j] == b2.trace.take(e.trace.len() as int)[j]);
                assert(more[k + 1] == rs[k + 1]);
            } else {
                let x = j - a.trace.len();
                assert(a2.trace[a.trace.len() + x] == a2.trace[j]);
                assert(e.trace.len() == a.trace.len());
            }
        }
        (b2, more)
    }
}

/// An execution only ever emits more.
proof fn lemma_traces_grow(net: NetView, run: Seq<PartialView>, i: int)
    requires
        is_execution(net, run),
        0 <= i < run.len(),
    ensures
        forall|k: int| 0 <= k <= i ==> (#[trigger] run[k]).trace.len() <= run[i].trace.len(),
    decreases i,
{
    if i > 0 {
        lemma_traces_grow(net, run, i - 1);
        assert(further_on(net, run[i - 1]).contains(run[i]));
        let (ti, k) = lemma_continuations(
            net,
            run[i - 1],
            net.transitions.len() as int,
            run[i],
        );
    }
}

/// Everything that the net permits is counted, up to the numbers of minted values, where no
/// limit leaves anything out: there is a counted shape that tells each effect of the execution
/// with its values under other numbers.
pub proof fn permitted_shapes_are_counted(
    net: NetView,
    depth: nat,
    cap: nat,
    budget: nat,
    run: Seq<PartialView>,
    shape: Str,
)
    requires
        net_ok(net),
        starts_bare(net),
        no_choice_left_out(net, depth),
        !cut_short(net, depth, cap, budget),
        has_shape(net, depth, run, shape),
    ensures
        exists|trace: Seq<Str>, rs: Seq<Map<Str, Str>>| #[trigger]
            retells(net, run, run.len() - 1, trace, rs) && counted_shapes(
                net,
                depth,
                cap,
                budget,
            ).contains(shape_of(trace)),
{
    let q = first_count(net);
    let none = Set::<PartialView>::empty();
    lemma_outset(net);
    assert(q.stack[0] == outset(net));
    assert(q.stack.contains(outset(net)));
    assert(progress(net, depth, q, none, none));
    let (done, grown) = lemma_count_progresses(net, depth, cap, budget, q, none, none);
    let last = counted(net, depth, cap, budget, q).0;
    let n = run.len() - 1;
    let (p, rs) = lemma_execution_told(net, depth, last, done, grown, run, n);
    let a = run[n];
    let x = renamed_marking(rs[n], hushed_marking(a.marking));
    let y = hushed_marking(p.marking);
    lemma_same_shape(x, y);
    assert(is_final_marking(net.finals, p.marking)) by {
        let f = net.finals;
        let i = choose|i: int| 0 <= i < f.len() && a.marking[(#[trigger] f[i]) as int].len() > 0;
        lemma_execution_holds(net, depth, run, n);
        assert(f[i] < a.marking.len());
        assert(x[f[i] as int].len() == y[f[i] as int].len());
    }
    assert(retells(net, run, n, p.trace, rs));
}

proof fn lemma_initial_hidden(ts: Seq<TokenSpecView>, j: int, i: int)
    requires
        0 <= j < initial_tokens(ts).len(),
        0 <= i < initial_tokens(ts)[j].len(),
    ensures
        is_hidden(initial_tokens(ts)[j][i].0),
{
    reveal_strlit("_");
    reveal_strlit("_type");
    reveal_strlit("_value");
    assert("_type"@.take(1) =~= "_"@);
    assert("_value"@.take(1) =~= "_"@);
    let none = Seq::<(Str, Str)>::empty();
    lemma_hidden_put(none, "_type"@, ts[j].ty);
    lemma_hidden_put(put(none, "_type"@, ts[j].ty), "_value"@, ts[j].value);
}

proof fn lemma_hidden_put(e: Seq<(Str, Str)>, k: Str, v: Str)
    requires
        forall|i: int| 0 <= i < e.len() ==> is_hidden((#[trigger] e[i]).0),
        is_hidden(k),
    ensures
        forall|i: int| 0 <= i < put(e, k, v).len() ==> is_hidden((#[trigger] put(e, k, v)[i]).0),
{
    lemma_shows_put(Set::empty(), e, k, v);
}

/// A compiled net begins with tokens that carry no variable.
pub proof fn compiled_nets_start_bare(spec: SpecView)
    ensures
        starts_bare(compiled(spec)),
{
    let net = compiled(spec);
    assert forall|p: int, j: int, i: int|
        0 <= p < net.initial.len() && 0 <= j < net.initial[p].len() && 0 <= i
            < net.initial[p][j].len() implies is_hidden((#[trigger] net.initial[p][j][i]).0) by {
        lemma_initial_hidden(spec.places[p].tokens, j, i);
    }
}

} // verus!
