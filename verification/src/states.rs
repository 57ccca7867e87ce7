//! The texts by which the states of a search are told apart. States that differ only in the order
//! of their tokens have the same text.

use crate::keys::{
    lemma_decimal_injective, lemma_marking_key, lemma_packed, lemma_packed_all, lemma_token_key,
    marking_key, pack, pack_all, packed, packed_all, same_tokens, token_key, write_marking,
    write_token,
};
use crate::net::Env;
use crate::ordered::{empty_vec, push_to, Dup};
use crate::search::{SearchState, StateView};
use crate::text::{cat2, decimal, decimal_text, has_prefix, starts_with_text, Str};
use vstd::prelude::*;

verus! {

broadcast use vstd::seq_lib::group_to_multiset_ensures;

// ---------------------------------------------------------------------------
// Guards that are still open
// ---------------------------------------------------------------------------
/// Whether some of the values that a guard held for are minted names.
pub open spec fn is_open(mark: Str, env: Seq<(Str, Str)>) -> bool {
    exists|i: int| 0 <= i < env.len() && has_prefix((#[trigger] env[i]).1, mark)
}

/// Those of the first `n` guards that held for minted names.
pub open spec fn open_pledges(
    mark: Str,
    ps: Seq<(Str, Seq<(Str, Str)>)>,
    n: int,
) -> Seq<(Str, Seq<(Str, Str)>)>
    decreases n,
{
    if n <= 0 {
        Seq::empty()
    } else if is_open(mark, ps[n - 1].1) {
        open_pledges(mark, ps, n - 1).push(ps[n - 1])
    } else {
        open_pledges(mark, ps, n - 1)
    }
}

fn mentions(mark: &str, env: &Env) -> (r: bool)
    ensures
        r == is_open(mark@, env.deep_view()),
{
    let ghost ev = env.deep_view();
    let mut i: usize = 0;
    while i < env.len()
        invariant
            i <= ev.len(),
            ev == env.deep_view(),
            forall|j: int| 0 <= j < i ==> !has_prefix((#[trigger] ev[j]).1, mark@),
        decreases ev.len() - i,
    {
        if starts_with_text(env.value_at(i).as_str(), mark) {
            assert(has_prefix(ev[i as int].1, mark@));
            return true;
        }
        i = i + 1;
    }
    false
}

fn find_open(mark: &str, ps: &Vec<(String, Env)>) -> (r: Vec<(String, Env)>)
    ensures
        r.deep_view() == open_pledges(mark@, ps.deep_view(), ps.deep_view().len() as int),
{
    let ghost pv = ps.deep_view();
    let mut out: Vec<(String, Env)> = empty_vec();
    let mut i: usize = 0;
    while i < ps.len()
        invariant
            i <= ps.len(),
            pv == ps.deep_view(),
            out.deep_view() == open_pledges(mark@, pv, i as int),
        decreases ps.len() - i,
    {
        assert(pv[i as int] == ps[i as int].deep_view());
        if mentions(mark, &ps[i].1) {
            push_to(&mut out, ps[i].dup());
        }
        i = i + 1;
    }
    assert(ps.len() == pv.len());
    out
}

// ---------------------------------------------------------------------------
// The text of a state
// ---------------------------------------------------------------------------
/// Flags as digits.
pub open spec fn flags_text(v: Seq<bool>) -> Str {
    Seq::new(
        v.len(),
        |i: int|
            if v[i] {
                '1'
            } else {
                '0'
            },
    )
}

/// The text of guards with the values that they held for.
pub open spec fn pledges_key(ps: Seq<(Str, Seq<(Str, Str)>)>) -> Str {
    packed_all(Seq::new(ps.len(), |i: int| packed(ps[i].0) + packed(token_key(ps[i].1))))
}

/// The guards of a state that held for minted names.
pub open spec fn open_of(mark: Str, s: StateView) -> Seq<(Str, Seq<(Str, Str)>)> {
    open_pledges(mark, s.pledges, s.pledges.len() as int)
}

/// The text by which states are told apart: states with the same one are looked at once.
pub open spec fn state_key(mark: Str, s: StateView) -> Str {
    packed_all(
        seq![
            marking_key(s.marking),
            flags_text(s.consumed),
            packed_all(s.matched),
            decimal(s.slack_used),
            pledges_key(open_of(mark, s)),
        ],
    )
}

proof fn lemma_flags_text(a: Seq<bool>, b: Seq<bool>)
    requires
        flags_text(a) == flags_text(b),
    ensures
        a == b,
{
    assert(flags_text(a).len() == a.len() && flags_text(b).len() == b.len());
    assert forall|i: int| 0 <= i < a.len() implies a[i] == b[i] by {
        let one = |x: bool|
            if x {
                '1'
            } else {
                '0'
            };
        assert(flags_text(a)[i] == one(a[i]));
        assert(flags_text(b)[i] == one(b[i]));
    }
    assert(a =~= b);
}

proof fn lemma_pledges_key(a: Seq<(Str, Seq<(Str, Str)>)>, b: Seq<(Str, Seq<(Str, Str)>)>)
    requires
        pledges_key(a) == pledges_key(b),
    ensures
        a == b,
{
    let x = Seq::new(a.len(), |i: int| packed(a[i].0) + packed(token_key(a[i].1)));
    let y = Seq::new(b.len(), |i: int| packed(b[i].0) + packed(token_key(b[i].1)));
    lemma_packed_all(x, y);
    assert(x.len() == a.len() && y.len() == b.len());
    assert forall|i: int| 0 <= i < a.len() implies a[i] == b[i] by {
        assert(x[i] == y[i]);
        let none = Seq::<char>::empty();
        let u = token_key(a[i].1);
        let v = token_key(b[i].1);
        lemma_packed(a[i].0, b[i].0, packed(u), packed(v));
        assert(packed(u) + none =~= packed(u));
        assert(packed(v) + none =~= packed(v));
        lemma_packed(u, v, none, none);
        lemma_token_key(a[i].1, b[i].1);
    }
    assert(a =~= b);
}

/// Whether only minted names are renamed.
pub open spec fn only_marks(mark: Str, r: Map<Str, Str>) -> bool {
    forall|v: Str| #[trigger] r.dom().contains(v) ==> has_prefix(v, mark)
}

proof fn lemma_open_pledges(mark: Str, ps: Seq<(Str, Seq<(Str, Str)>)>, n: int)
    requires
        0 <= n <= ps.len(),
    ensures
        forall|i: int|
            0 <= i < n && is_open(mark, (#[trigger] ps[i]).1) ==> open_pledges(
                mark,
                ps,
                n,
            ).contains(ps[i]),
    decreases n,
{
    if n > 0 {
        lemma_open_pledges(mark, ps, n - 1);
        let rest = open_pledges(mark, ps, n - 1);
        let all = open_pledges(mark, ps, n);
        assert forall|i: int| 0 <= i < n && is_open(mark, (#[trigger] ps[i]).1) implies all.contains(
            ps[i],
        ) by {
            if i < n - 1 {
                let k = rest.index_of(ps[i]);
                assert(all[k] == ps[i]);
            } else {
                assert(all[rest.len() as int] == ps[i]);
            }
        }
    }
}

/// Every guard that held for minted names is among the open ones.
pub proof fn lemma_open_of(mark: Str, s: StateView, i: int)
    requires
        0 <= i < s.pledges.len(),
        is_open(mark, s.pledges[i].1),
    ensures
        open_of(mark, s).contains(s.pledges[i]),
{
    lemma_open_pledges(mark, s.pledges, s.pledges.len() as int);
}

proof fn lemma_open_from(mark: Str, ps: Seq<(Str, Seq<(Str, Str)>)>, n: int)
    requires
        0 <= n <= ps.len(),
    ensures
        forall|k: int|
            0 <= k < open_pledges(mark, ps, n).len() ==> ps.contains(
                #[trigger] open_pledges(mark, ps, n)[k],
            ),
    decreases n,
{
    if n > 0 {
        lemma_open_from(mark, ps, n - 1);
        assert(ps.contains(ps[n - 1]));
        let rest = open_pledges(mark, ps, n - 1);
        let all = open_pledges(mark, ps, n);
        assert forall|k: int| 0 <= k < all.len() implies ps.contains(#[trigger] all[k]) by {
            if k < rest.len() {
                assert(all[k] == rest[k]);
            }
        }
    }
}

/// The open guards are guards of the state.
pub proof fn lemma_open_in(mark: Str, s: StateView, k: int)
    requires
        0 <= k < open_of(mark, s).len(),
    ensures
        s.pledges.contains(open_of(mark, s)[k]),
{
    lemma_open_from(mark, s.pledges, s.pledges.len() as int);
}

/// States with the same text explain the same, hold the same tokens and rest on the same guards.
pub proof fn lemma_state_key(mark: Str, a: StateView, b: StateView)
    requires
        state_key(mark, a) == state_key(mark, b),
    ensures
        same_tokens(a.marking, b.marking),
        a.consumed == b.consumed,
        a.matched == b.matched,
        a.slack_used == b.slack_used,
        open_of(mark, a) == open_of(mark, b),
{
    let x = seq![
        marking_key(a.marking),
        flags_text(a.consumed),
        packed_all(a.matched),
        decimal(a.slack_used),
        pledges_key(open_of(mark, a)),
    ];
    let y = seq![
        marking_key(b.marking),
        flags_text(b.consumed),
        packed_all(b.matched),
        decimal(b.slack_used),
        pledges_key(open_of(mark, b)),
    ];
    lemma_packed_all(x, y);
    assert(x[0] == y[0] && x[1] == y[1] && x[2] == y[2] && x[3] == y[3] && x[4] == y[4]);
    lemma_marking_key(a.marking, b.marking);
    lemma_flags_text(a.consumed, b.consumed);
    lemma_packed_all(a.matched, b.matched);
    lemma_decimal_injective(a.slack_used, b.slack_used);
    lemma_pledges_key(open_of(mark, a), open_of(mark, b));
}

// ---------------------------------------------------------------------------
// Writing it down
// ---------------------------------------------------------------------------
fn render_flags(v: &Vec<bool>) -> (r: String)
    ensures
        r@ == flags_text(v@),
{
    let mut out = String::new();
    assert(out@ =~= flags_text(v@).take(0));
    let mut i: usize = 0;
    while i < v.len()
        invariant
            i <= v.len(),
            out@ == flags_text(v@).take(i as int),
        decreases v.len() - i,
    {
        out.push(
            if v[i] {
                '1'
            } else {
                '0'
            },
        );
        assert(out@ =~= flags_text(v@).take(i + 1));
        i = i + 1;
    }
    assert(flags_text(v@).take(i as int) =~= flags_text(v@));
    out
}

fn render_pledges(ps: &Vec<(String, Env)>) -> (r: String)
    ensures
        r@ == pledges_key(ps.deep_view()),
{
    let ghost gs = ps.deep_view();
    let ghost all = Seq::new(gs.len(), |i: int| packed(gs[i].0) + packed(token_key(gs[i].1)));
    let mut parts: Vec<String> = empty_vec();
    let mut i: usize = 0;
    while i < ps.len()
        invariant
            i <= ps.len(),
            gs == ps.deep_view(),
            all == Seq::new(gs.len(), |i: int| packed(gs[i].0) + packed(token_key(gs[i].1))),
            parts.deep_view() =~= all.take(i as int),
        decreases ps.len() - i,
    {
        assert(gs[i as int] == ps[i as int].deep_view());
        let g = pack(ps[i].0.as_str());
        let e = write_token(&ps[i].1);
        let v = pack(e.as_str());
        push_to(&mut parts, cat2(g.as_str(), v.as_str()));
        i = i + 1;
    }
    assert(all.take(i as int) =~= all);
    pack_all(&parts)
}

/// Writes down the text by which a state is told apart.
pub fn render_key(mark: &str, s: &SearchState) -> (r: String)
    ensures
        r@ == state_key(mark@, s.deep_view()),
{
    let ghost sv = s.deep_view();
    let open = find_open(mark, &s.pledges);
    let mut parts: Vec<String> = empty_vec();
    push_to(&mut parts, write_marking(&s.marking));
    push_to(&mut parts, render_flags(&s.consumed));
    let items = s.matched.to_vec();
    push_to(&mut parts, pack_all(&items));
    push_to(&mut parts, decimal_text(s.slack_used as u64));
    push_to(&mut parts, render_pledges(&open));
    assert(parts.deep_view() =~= seq![
        marking_key(sv.marking),
        flags_text(sv.consumed),
        packed_all(sv.matched),
        decimal(sv.slack_used),
        pledges_key(open_of(mark@, sv)),
    ]);
    pack_all(&parts)
}

} // verus!
