//! What firing does to the tokens of a place.

use crate::net::{
    fired, left_marking, left_tokens, made_token, net_ok, occurrences, taken, transition_ok,
    valid_choice, with_tokens, within, CompiledTransitionView, NetView,
};
use crate::text::Str;
use vstd::multiset::Multiset;
use vstd::prelude::*;

verus! {

broadcast use vstd::seq_lib::group_to_multiset_ensures;

/// The tokens of place `p` that the first `j` slots take.
pub open spec fn gone(
    tokens: Seq<Seq<(Str, Str)>>,
    consumes: Seq<usize>,
    choice: Seq<usize>,
    p: int,
    j: int,
) -> Multiset<Seq<(Str, Str)>>
    decreases j,
{
    if j <= 0 {
        Multiset::empty()
    } else if consumes[j - 1] == p {
        gone(tokens, consumes, choice, p, j - 1).insert(tokens[choice[j - 1] as int])
    } else {
        gone(tokens, consumes, choice, p, j - 1)
    }
}

proof fn lemma_left_same(
    tokens: Seq<Seq<(Str, Str)>>,
    consumes: Seq<usize>,
    a: Seq<usize>,
    b: Seq<usize>,
    p: int,
    n: int,
)
    requires
        forall|k: int|
            0 <= k < n ==> taken(consumes, a, p, k) == #[trigger] taken(consumes, b, p, k),
    ensures
        left_tokens(tokens, consumes, a, p, n) == left_tokens(tokens, consumes, b, p, n),
    decreases n,
{
    if n > 0 {
        lemma_left_same(tokens, consumes, a, b, p, n - 1);
        assert(taken(consumes, a, p, n - 1) == taken(consumes, b, p, n - 1));
    }
}

/// Taking one more token takes just that one away.
proof fn lemma_left_one(
    tokens: Seq<Seq<(Str, Str)>>,
    consumes: Seq<usize>,
    a: Seq<usize>,
    b: Seq<usize>,
    p: int,
    k0: int,
    n: int,
)
    requires
        0 <= n <= tokens.len(),
        !taken(consumes, a, p, k0),
        0 <= k0,
        forall|k: int|
            0 <= k < n ==> #[trigger] taken(consumes, b, p, k) == (taken(consumes, a, p, k) || k
                == k0),
    ensures
        k0 < n ==> left_tokens(tokens, consumes, a, p, n).to_multiset() == left_tokens(
            tokens,
            consumes,
            b,
            p,
            n,
        ).to_multiset().insert(tokens[k0]),
        k0 >= n ==> left_tokens(tokens, consumes, a, p, n) == left_tokens(
            tokens,
            consumes,
            b,
            p,
            n,
        ),
    decreases n,
{
    if n > 0 {
        lemma_left_one(tokens, consumes, a, b, p, k0, n - 1);
        let la = left_tokens(tokens, consumes, a, p, n - 1);
        let lb = left_tokens(tokens, consumes, b, p, n - 1);
        let x = tokens[n - 1];
        assert(taken(consumes, b, p, n - 1) == (taken(consumes, a, p, n - 1) || n - 1 == k0));
        if n - 1 > k0 && !taken(consumes, a, p, n - 1) {
            assert(la.push(x).to_multiset() == la.to_multiset().insert(x));
            assert(lb.push(x).to_multiset() == lb.to_multiset().insert(x));
            assert(lb.to_multiset().insert(tokens[k0]).insert(x) =~= lb.to_multiset().insert(
                x,
            ).insert(tokens[k0]));
        } else if n - 1 == k0 {
            assert(la.push(x).to_multiset() == la.to_multiset().insert(x));
        }
    }
}

proof fn lemma_left_prefix(
    tokens: Seq<Seq<(Str, Str)>>,
    m: Seq<Seq<Seq<(Str, Str)>>>,
    consumes: Seq<usize>,
    choice: Seq<usize>,
    p: int,
    j: int,
)
    requires
        0 <= p < m.len(),
        tokens == m[p],
        valid_choice(m, consumes, choice),
        0 <= j <= choice.len(),
    ensures
        left_tokens(
            tokens,
            consumes,
            choice.take(j),
            p,
            tokens.len() as int,
        ).to_multiset().add(gone(tokens, consumes, choice, p, j)) == tokens.to_multiset(),
    decreases j,
{
    let n = tokens.len() as int;
    let b = choice.take(j);
    if j == 0 {
        lemma_left_all(tokens, consumes, b, p, n);
        assert(tokens.take(n) =~= tokens);
        assert(tokens.to_multiset().add(Multiset::empty()) =~= tokens.to_multiset());
    } else {
        let a = choice.take(j - 1);
        lemma_left_prefix(tokens, m, consumes, choice, p, j - 1);
        let k0 = choice[j - 1] as int;
        assert forall|k: int| 0 <= k < n implies #[trigger] taken(consumes, b, p, k) == (taken(
            consumes,
            a,
            p,
            k,
        ) || (consumes[j - 1] == p && k == k0)) by {
            if taken(consumes, b, p, k) {
                let s = choose|s: int|
                    0 <= s < b.len() && s < consumes.len() && consumes[s] == p && #[trigger] b[s]
                        == k;
                if s < j - 1 {
                    assert(a[s] == k);
                }
            }
            if taken(consumes, a, p, k) {
                let s = choose|s: int|
                    0 <= s < a.len() && s < consumes.len() && consumes[s] == p && #[trigger] a[s]
                        == k;
                assert(b[s] == k);
            }
            if consumes[j - 1] == p && k == k0 {
                assert(b[j - 1] == k);
            }
        }
        if consumes[j - 1] == p {
            assert(choice[j - 1] < m[consumes[j - 1] as int].len());
            assert(!taken(consumes, a, p, k0)) by {
                if taken(consumes, a, p, k0) {
                    let s = choose|s: int|
                        0 <= s < a.len() && s < consumes.len() && consumes[s] == p
                            && #[trigger] a[s] == k0;
                    assert(choice[s] == k0);
                    assert(choice[s] != choice[j - 1]);
                }
            }
            lemma_left_one(tokens, consumes, a, b, p, k0, n);
            let lb = left_tokens(tokens, consumes, b, p, n).to_multiset();
            let g = gone(tokens, consumes, choice, p, j - 1);
            assert(lb.insert(tokens[k0]).add(g) =~= lb.add(g.insert(tokens[k0])));
        } else {
            lemma_left_same(tokens, consumes, a, b, p, n);
        }
    }
}

proof fn lemma_left_all(
    tokens: Seq<Seq<(Str, Str)>>,
    consumes: Seq<usize>,
    choice: Seq<usize>,
    p: int,
    n: int,
)
    requires
        0 <= n <= tokens.len(),
        choice.len() == 0,
    ensures
        left_tokens(tokens, consumes, choice, p, n) == tokens.take(n),
    decreases n,
{
    if n > 0 {
        lemma_left_all(tokens, consumes, choice, p, n - 1);
        assert(tokens.take(n) =~= tokens.take(n - 1).push(tokens[n - 1]));
    } else {
        assert(tokens.take(n) =~= Seq::empty());
    }
}

/// What a choice leaves in a place and what it takes from it are together what was there.
pub proof fn lemma_left(
    m: Seq<Seq<Seq<(Str, Str)>>>,
    consumes: Seq<usize>,
    choice: Seq<usize>,
    p: int,
)
    requires
        0 <= p < m.len(),
        valid_choice(m, consumes, choice),
    ensures
        left_tokens(m[p], consumes, choice, p, m[p].len() as int).to_multiset().add(
            gone(m[p], consumes, choice, p, consumes.len() as int),
        ) == m[p].to_multiset(),
{
    lemma_left_prefix(m[p], m, consumes, choice, p, choice.len() as int);
    assert(choice.take(choice.len() as int) =~= choice);
}

pub proof fn lemma_gone_len(
    tokens: Seq<Seq<(Str, Str)>>,
    consumes: Seq<usize>,
    choice: Seq<usize>,
    p: int,
    j: int,
)
    ensures
        gone(tokens, consumes, choice, p, j).len() == occurrences(consumes, p, j),
    decreases j,
{
    if j > 0 {
        lemma_gone_len(tokens, consumes, choice, p, j - 1);
    }
}

/// The tokens that a firing puts into place `p` by the first `n` of `produces`.
pub open spec fn arrived(
    carries: Seq<Seq<Str>>,
    produces: Seq<usize>,
    env: Seq<(Str, Str)>,
    p: int,
    n: int,
) -> Multiset<Seq<(Str, Str)>>
    decreases n,
{
    if n <= 0 {
        Multiset::empty()
    } else if produces[n - 1] == p {
        arrived(carries, produces, env, p, n - 1).insert(
            made_token(carries[p], env, carries[p].len() as int),
        )
    } else {
        arrived(carries, produces, env, p, n - 1)
    }
}

pub proof fn lemma_with_tokens(
    m: Seq<Seq<Seq<(Str, Str)>>>,
    carries: Seq<Seq<Str>>,
    produces: Seq<usize>,
    env: Seq<(Str, Str)>,
    p: int,
    n: int,
)
    requires
        0 <= n <= produces.len(),
        within(produces, m.len() as int),
        0 <= p < m.len(),
    ensures
        with_tokens(m, carries, produces, env, n).len() == m.len(),
        with_tokens(m, carries, produces, env, n)[p].to_multiset() == m[p].to_multiset().add(
            arrived(carries, produces, env, p, n),
        ),
    decreases n,
{
    if n > 0 {
        lemma_with_tokens(m, carries, produces, env, p, n - 1);
        let prior = with_tokens(m, carries, produces, env, n - 1);
        let q = produces[n - 1] as int;
        let token = made_token(carries[q], env, carries[q].len() as int);
        if q == p {
            assert(prior[p].push(token).to_multiset() == prior[p].to_multiset().insert(token));
            let a = arrived(carries, produces, env, p, n - 1);
            assert(m[p].to_multiset().add(a).insert(token) =~= m[p].to_multiset().add(
                a.insert(token),
            ));
        }
    } else {
        assert(m[p].to_multiset().add(Multiset::empty()) =~= m[p].to_multiset());
    }
}

pub proof fn lemma_arrived_len(
    carries: Seq<Seq<Str>>,
    produces: Seq<usize>,
    env: Seq<(Str, Str)>,
    p: int,
    n: int,
)
    ensures
        arrived(carries, produces, env, p, n).len() == occurrences(produces, p, n),
    decreases n,
{
    if n > 0 {
        lemma_arrived_len(carries, produces, env, p, n - 1);
    }
}

/// Firing is the only way that tokens come and go: from each place exactly the chosen tokens
/// are taken, and exactly one new token arrives for each time the transition produces to it.
pub proof fn firing_moves_exactly_the_chosen_tokens(
    net: NetView,
    m: Seq<Seq<Seq<(Str, Str)>>>,
    t: CompiledTransitionView,
    choice: Seq<usize>,
    env: Seq<(Str, Str)>,
    p: int,
)
    requires
        net_ok(net),
        m.len() == net.place_names.len(),
        transition_ok(t, m.len() as int),
        valid_choice(m, t.consumes, choice),
        0 <= p < m.len(),
    ensures
        fired(net, m, t, choice, env)[p].to_multiset().add(
            gone(m[p], t.consumes, choice, p, t.consumes.len() as int),
        ) == m[p].to_multiset().add(
            arrived(net.place_carries, t.produces, env, p, t.produces.len() as int),
        ),
{
    let left = left_marking(m, t.consumes, choice);
    lemma_left(m, t.consumes, choice, p);
    lemma_with_tokens(
        left,
        net.place_carries,
        t.produces,
        env,
        p,
        t.produces.len() as int,
    );
    let l = left[p].to_multiset();
    let g = gone(m[p], t.consumes, choice, p, t.consumes.len() as int);
    let a = arrived(net.place_carries, t.produces, env, p, t.produces.len() as int);
    assert(l.add(a).add(g) =~= l.add(g).add(a));
}

/// A token is used once: firing takes from each place as many tokens as the transition asks for
/// and adds as many as it produces.
pub proof fn tokens_are_consumed_not_copied(
    net: NetView,
    m: Seq<Seq<Seq<(Str, Str)>>>,
    t: CompiledTransitionView,
    choice: Seq<usize>,
    env: Seq<(Str, Str)>,
    p: int,
)
    requires
        net_ok(net),
        m.len() == net.place_names.len(),
        transition_ok(t, m.len() as int),
        valid_choice(m, t.consumes, choice),
        0 <= p < m.len(),
    ensures
        fired(net, m, t, choice, env)[p].len() + occurrences(
            t.consumes,
            p,
            t.consumes.len() as int,
        ) == m[p].len() + occurrences(t.produces, p, t.produces.len() as int),
{
    firing_moves_exactly_the_chosen_tokens(net, m, t, choice, env, p);
    lemma_gone_len(m[p], t.consumes, choice, p, t.consumes.len() as int);
    lemma_arrived_len(net.place_carries, t.produces, env, p, t.produces.len() as int);
    let f = fired(net, m, t, choice, env)[p];
    let g = gone(m[p], t.consumes, choice, p, t.consumes.len() as int);
    let a = arrived(net.place_carries, t.produces, env, p, t.produces.len() as int);
    assert(f.len() == f.to_multiset().len());
    assert(m[p].len() == m[p].to_multiset().len());
    assert(f.to_multiset().add(g).len() == f.to_multiset().len() + g.len());
    assert(m[p].to_multiset().add(a).len() == m[p].to_multiset().len() + a.len());
}

/// Two sequences with the same items are each a rearrangement of the other: `r.0` tells where
/// each item of `u` stands in `v`, and `r.1` where each item of `v` stands in `u`.
pub proof fn lemma_rearranged<A>(u: Seq<A>, v: Seq<A>) -> (r: (Seq<int>, Seq<int>))
    requires
        u.to_multiset() == v.to_multiset(),
    ensures
        rearranges(u, v, r.0, r.1),
    decreases u.len(),
{
    assert(u.len() == u.to_multiset().len());
    assert(v.len() == v.to_multiset().len());
    if u.len() == 0 {
        (Seq::empty(), Seq::empty())
    } else {
        let n = u.len() as int;
        let x = u.last();
        assert(u.contains(x)) by {
            assert(u[n - 1] == x);
        }
        assert(u.to_multiset().count(x) > 0);
        assert(v.contains(x));
        let j = v.index_of(x);
        let u1 = u.drop_last();
        let v1 = v.remove(j);
        assert(u1 =~= u.remove(n - 1));
        assert(u1.to_multiset() == u.to_multiset().remove(u[n - 1]));
        assert(v1.to_multiset() == v.to_multiset().remove(v[j]));
        let (p1, q1) = lemma_rearranged(u1, v1);
        let p = Seq::new(
            n as nat,
            |i: int|
                if i == n - 1 {
                    j
                } else if p1[i] < j {
                    p1[i]
                } else {
                    p1[i] + 1
                },
        );
        let q = Seq::new(
            n as nat,
            |k: int|
                if k == j {
                    n - 1
                } else if k < j {
                    q1[k]
                } else {
                    q1[k - 1]
                },
        );
        assert forall|i: int| 0 <= i < n implies {
            &&& 0 <= #[trigger] p[i] < n
            &&& q[p[i]] == i
            &&& v[p[i]] == u[i]
        } by {
            if i < n - 1 {
                assert(0 <= p1[i] < n - 1 && q1[p1[i]] == i && v1[p1[i]] == u1[i]);
            }
        }
        assert forall|k: int| 0 <= k < n implies {
            &&& 0 <= #[trigger] q[k] < n
            &&& p[q[k]] == k
        } by {
            if k < j {
                assert(0 <= q1[k] < n - 1 && p1[q1[k]] == k);
            } else if k > j {
                assert(0 <= q1[k - 1] < n - 1 && p1[q1[k - 1]] == k - 1);
            }
        }
        (p, q)
    }
}

/// Whether `p` and `q` take the items of `u` to those of `v` and back.
pub open spec fn rearranges<A>(u: Seq<A>, v: Seq<A>, p: Seq<int>, q: Seq<int>) -> bool {
    &&& u.len() == v.len()
    &&& p.len() == u.len()
    &&& q.len() == u.len()
    &&& forall|i: int|
        0 <= i < u.len() ==> {
            &&& 0 <= #[trigger] p[i] < u.len()
            &&& q[p[i]] == i
            &&& v[p[i]] == u[i]
        }
    &&& forall|k: int|
        0 <= k < u.len() ==> {
            &&& 0 <= #[trigger] q[k] < u.len()
            &&& p[q[k]] == k
        }
}

} // verus!
