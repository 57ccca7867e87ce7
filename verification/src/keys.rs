//! Texts by which states are told apart: each part stands behind its length, so that two states
//! with the same text hold the same.

use crate::guess::{renamed_env, renamed_marking, renamed_tokens};
use crate::net::{Marking, Token};
use crate::ordered::{empty_vec, push_to, sort_texts, sorted_texts, sorted_upto, insert_text};
use crate::text::{cat2, cat3, decimal, decimal_text, digit, Str};
use vstd::prelude::*;

verus! {

broadcast use vstd::seq_lib::group_to_multiset_ensures;

// ---------------------------------------------------------------------------
// Numerals
// ---------------------------------------------------------------------------
proof fn lemma_digit(a: nat, b: nat)
    requires
        a < 10,
        b < 10,
        digit(a) == digit(b),
    ensures
        a == b,
{
}

pub proof fn lemma_decimal_len(a: nat)
    ensures
        decimal(a).len() >= 1,
    decreases a,
{
    if a >= 10 {
        lemma_decimal_len(a / 10);
    }
}

/// Different numbers have different numerals.
pub proof fn lemma_decimal_injective(a: nat, b: nat)
    requires
        decimal(a) == decimal(b),
    ensures
        a == b,
    decreases a,
{
    let x = decimal(a);
    let y = decimal(b);
    lemma_decimal_len(a);
    lemma_decimal_len(b);
    if a < 10 {
        if b < 10 {
            assert(x[0] == digit(a));
            assert(y[0] == digit(b));
            lemma_digit(a, b);
        } else {
            lemma_decimal_len(b / 10);
            assert(y.len() >= 2);
        }
    } else {
        if b < 10 {
            lemma_decimal_len(a / 10);
            assert(x.len() >= 2);
        } else {
            assert(x.last() == digit(a % 10));
            assert(y.last() == digit(b % 10));
            lemma_digit(a % 10, b % 10);
            assert(x.drop_last() =~= decimal(a / 10));
            assert(y.drop_last() =~= decimal(b / 10));
            lemma_decimal_injective(a / 10, b / 10);
        }
    }
}

proof fn lemma_no_colon(a: nat, i: int)
    requires
        0 <= i < decimal(a).len(),
    ensures
        decimal(a)[i] != ':',
    decreases a,
{
    if a >= 10 {
        if i < decimal(a / 10).len() {
            assert(decimal(a)[i] == decimal(a / 10)[i]);
            lemma_no_colon(a / 10, i);
        }
    }
}

// ---------------------------------------------------------------------------
// Packing
// ---------------------------------------------------------------------------
/// A text behind its length.
pub open spec fn packed(v: Str) -> Str {
    decimal(v.len()) + ":"@ + v
}

/// Texts, each behind its length.
pub open spec fn packed_all(vs: Seq<Str>) -> Str
    decreases vs.len(),
{
    if vs.len() == 0 {
        Seq::empty()
    } else {
        packed_all(vs.drop_last()) + packed(vs.last())
    }
}

/// What stands behind a packed text does not blur it.
pub proof fn lemma_packed(a: Str, b: Str, x: Str, y: Str)
    requires
        packed(a) + x == packed(b) + y,
    ensures
        a == b,
        x == y,
{
    reveal_strlit(":");
    let l = packed(a) + x;
    let r = packed(b) + y;
    let m = decimal(a.len());
    let n = decimal(b.len());
    assert(l[m.len() as int] == ':');
    assert(r[n.len() as int] == ':');
    if m.len() < n.len() {
        lemma_no_colon(b.len(), m.len() as int);
        assert(r[m.len() as int] == n[m.len() as int]);
    }
    if n.len() < m.len() {
        lemma_no_colon(a.len(), n.len() as int);
        assert(l[n.len() as int] == m[n.len() as int]);
    }
    assert(l.take(m.len() as int) =~= m);
    assert(r.take(n.len() as int) =~= n);
    lemma_decimal_injective(a.len(), b.len());
    let k = m.len() as int + 1;
    assert(l.subrange(k, k + a.len() as int) =~= a);
    assert(r.subrange(k, k + b.len() as int) =~= b);
    assert(l.skip(k + a.len() as int) =~= x);
    assert(r.skip(k + b.len() as int) =~= y);
}

proof fn lemma_packed_front(vs: Seq<Str>)
    requires
        vs.len() > 0,
    ensures
        packed_all(vs) == packed(vs[0]) + packed_all(vs.drop_first()),
    decreases vs.len(),
{
    if vs.len() == 1 {
        reveal_with_fuel(packed_all, 2);
        assert(vs.drop_last() =~= Seq::<Str>::empty());
        assert(vs.drop_first() =~= Seq::<Str>::empty());
        assert(packed_all(vs) =~= packed(vs[0]));
        assert(packed(vs[0]) + packed_all(vs.drop_first()) =~= packed(vs[0]));
    } else {
        lemma_packed_front(vs.drop_last());
        assert(vs.drop_last().drop_first() =~= vs.drop_first().drop_last());
        assert(vs.drop_first().last() == vs.last());
        assert(packed_all(vs) =~= packed(vs[0]) + packed_all(vs.drop_first()));
    }
}

/// Packed texts can be read back.
pub proof fn lemma_packed_all(a: Seq<Str>, b: Seq<Str>)
    requires
        packed_all(a) == packed_all(b),
    ensures
        a == b,
    decreases a.len(),
{
    if a.len() == 0 {
        if b.len() > 0 {
            lemma_packed_front(b);
            lemma_decimal_len(b[0].len());
            assert(packed(b[0]).len() > 0);
        }
        assert(a =~= b);
    } else if b.len() == 0 {
        lemma_packed_front(a);
        lemma_decimal_len(a[0].len());
        assert(packed(a[0]).len() > 0);
    } else {
        lemma_packed_front(a);
        lemma_packed_front(b);
        lemma_packed(a[0], b[0], packed_all(a.drop_first()), packed_all(b.drop_first()));
        lemma_packed_all(a.drop_first(), b.drop_first());
        assert(a =~= seq![a[0]] + a.drop_first());
        assert(b =~= seq![b[0]] + b.drop_first());
    }
}

/// Puts a text behind its length.
pub fn pack(v: &str) -> (r: String)
    ensures
        r@ == packed(v@),
{
    let n = v.unicode_len();
    let d = decimal_text(n as u64);
    cat3(d.as_str(), ":", v)
}

/// Puts each text behind its length.
pub fn pack_all(vs: &Vec<String>) -> (r: String)
    ensures
        r@ == packed_all(vs.deep_view()),
{
    let ghost vv = vs.deep_view();
    let mut out = String::new();
    assert(out@ =~= packed_all(vv.take(0)));
    let mut i: usize = 0;
    while i < vs.len()
        invariant
            i <= vs.len(),
            vv == vs.deep_view(),
            out@ == packed_all(vv.take(i as int)),
        decreases vs.len() - i,
    {
        let p = pack(vs[i].as_str());
        assert(vv.take(i + 1).drop_last() =~= vv.take(i as int));
        assert(vv.take(i + 1).last() == vs[i as int]@);
        out = cat2(out.as_str(), p.as_str());
        i = i + 1;
    }
    assert(vv.take(i as int) =~= vv);
    out
}

// ---------------------------------------------------------------------------
// Tokens and markings
// ---------------------------------------------------------------------------
/// The text of a token or an environment.
pub open spec fn token_key(e: Seq<(Str, Str)>) -> Str {
    packed_all(Seq::new(e.len(), |i: int| packed(e[i].0) + packed(e[i].1)))
}

/// The texts of the tokens of a place.
pub open spec fn token_keys(ts: Seq<Seq<(Str, Str)>>) -> Seq<Str> {
    Seq::new(ts.len(), |i: int| token_key(ts[i]))
}

/// The text of the tokens of a place, in whatever order.
pub open spec fn place_key(ts: Seq<Seq<(Str, Str)>>) -> Str {
    packed_all(sorted_texts(token_keys(ts)))
}

/// The text of the tokens of every place, in whatever order.
pub open spec fn marking_key(m: Seq<Seq<Seq<(Str, Str)>>>) -> Str {
    packed_all(Seq::new(m.len(), |p: int| place_key(m[p])))
}

/// Whether two markings hold the same tokens, in whatever order.
pub open spec fn same_tokens(
    a: Seq<Seq<Seq<(Str, Str)>>>,
    b: Seq<Seq<Seq<(Str, Str)>>>,
) -> bool {
    a.len() == b.len() && forall|p: int|
        0 <= p < a.len() ==> (#[trigger] a[p]).to_multiset() == b[p].to_multiset()
}

/// Tokens with the same text are the same.
pub proof fn lemma_token_key(a: Seq<(Str, Str)>, b: Seq<(Str, Str)>)
    requires
        token_key(a) == token_key(b),
    ensures
        a == b,
{
    let x = Seq::new(a.len(), |i: int| packed(a[i].0) + packed(a[i].1));
    let y = Seq::new(b.len(), |i: int| packed(b[i].0) + packed(b[i].1));
    lemma_packed_all(x, y);
    assert(x.len() == a.len() && y.len() == b.len());
    assert forall|i: int| 0 <= i < a.len() implies a[i] == b[i] by {
        assert(x[i] == y[i]);
        let none = Seq::<char>::empty();
        lemma_packed(a[i].0, b[i].0, packed(a[i].1), packed(b[i].1));
        assert(packed(a[i].1) + none =~= packed(a[i].1));
        assert(packed(b[i].1) + none =~= packed(b[i].1));
        lemma_packed(a[i].1, b[i].1, none, none);
    }
    assert(a =~= b);
}

proof fn lemma_insert_text(s: Seq<Str>, x: Str)
    ensures
        insert_text(s, x).to_multiset() == s.to_multiset().insert(x),
    decreases s.len(),
{
    let none = Seq::<Str>::empty();
    if s.len() == 0 || !crate::text::before(s[0], x) {
        assert(seq![x] + s =~= s.insert(0, x));
        s.to_multiset_ensures();
        assert(s.insert(0, x).to_multiset() =~= s.to_multiset().insert(x)) by {
            vstd::seq_lib::lemma_multiset_commutative(seq![x], s);
            assert(seq![x] =~= none.push(x));
            assert(none.to_multiset() =~= vstd::multiset::Multiset::empty());
            assert(seq![x].to_multiset() =~= none.to_multiset().insert(x));
        }
    } else {
        lemma_insert_text(s.drop_first(), x);
        let rest = insert_text(s.drop_first(), x);
        vstd::seq_lib::lemma_multiset_commutative(seq![s[0]], rest);
        vstd::seq_lib::lemma_multiset_commutative(seq![s[0]], s.drop_first());
        assert(s =~= seq![s[0]] + s.drop_first());
        assert(insert_text(s, x).to_multiset() =~= s.to_multiset().insert(x));
    }
}

proof fn lemma_sorted(s: Seq<Str>, n: int)
    requires
        0 <= n <= s.len(),
    ensures
        sorted_upto(s, n).to_multiset() == s.take(n).to_multiset(),
    decreases n,
{
    if n > 0 {
        lemma_sorted(s, n - 1);
        lemma_insert_text(sorted_upto(s, n - 1), s[n - 1]);
        assert(s.take(n) =~= s.take(n - 1).push(s[n - 1]));
    } else {
        assert(s.take(0) =~= Seq::<Str>::empty());
    }
}

/// Lists with the same tokens have the same tokens when each is changed in the same way.
pub proof fn lemma_tokens_changed(
    f: spec_fn(Seq<(Str, Str)>) -> Seq<(Str, Str)>,
    a: Seq<Seq<(Str, Str)>>,
    b: Seq<Seq<(Str, Str)>>,
)
    requires
        a.to_multiset() == b.to_multiset(),
    ensures
        changed(f, a).to_multiset() == changed(f, b).to_multiset(),
    decreases a.len(),
{
    assert(a.len() == a.to_multiset().len());
    assert(b.len() == b.to_multiset().len());
    if a.len() == 0 {
        assert(changed(f, a) =~= changed(f, b));
    } else {
        let n = a.len() as int;
        let x = a.last();
        assert(a[n - 1] == x);
        assert(a.contains(x));
        assert(a.to_multiset().count(x) > 0);
        assert(b.contains(x));
        let j = b.index_of(x);
        let a1 = a.drop_last();
        let b1 = b.remove(j);
        assert(a1 =~= a.remove(n - 1));
        assert(a1.to_multiset() =~= b1.to_multiset());
        lemma_tokens_changed(f, a1, b1);
        let ra = changed(f, a);
        let rb = changed(f, b);
        assert(ra.remove(n - 1) =~= changed(f, a1));
        assert(rb.remove(j) =~= changed(f, b1));
        let y = f(x);
        assert(ra[n - 1] == y && rb[j] == y);
        let ma = ra.to_multiset();
        let mb = rb.to_multiset();
        assert(ra.remove(n - 1).to_multiset() =~= ma.remove(y));
        assert(rb.remove(j).to_multiset() =~= mb.remove(y));
        assert(ra.contains(y) && rb.contains(y));
        assert(ma.count(y) > 0 && mb.count(y) > 0);
        assert forall|z: Seq<(Str, Str)>| ma.count(z) == mb.count(z) by {
            assert(ma.remove(y).count(z) == mb.remove(y).count(z));
        }
        assert(ma =~= mb);
    }
}

/// A list of tokens, each changed in the same way.
pub open spec fn changed(
    f: spec_fn(Seq<(Str, Str)>) -> Seq<(Str, Str)>,
    ts: Seq<Seq<(Str, Str)>>,
) -> Seq<Seq<(Str, Str)>> {
    Seq::new(ts.len(), |i: int| f(ts[i]))
}

proof fn lemma_tokens_renamed(r: Map<Str, Str>, a: Seq<Seq<(Str, Str)>>, b: Seq<Seq<(Str, Str)>>)
    requires
        a.to_multiset() == b.to_multiset(),
    ensures
        renamed_tokens(r, a).to_multiset() == renamed_tokens(r, b).to_multiset(),
{
    let f = |e: Seq<(Str, Str)>| renamed_env(r, e);
    lemma_tokens_changed(f, a, b);
    assert(changed(f, a) =~= renamed_tokens(r, a));
    assert(changed(f, b) =~= renamed_tokens(r, b));
}

/// Markings with the same tokens have the same tokens under other names.
pub proof fn lemma_same_renamed(
    r: Map<Str, Str>,
    a: Seq<Seq<Seq<(Str, Str)>>>,
    b: Seq<Seq<Seq<(Str, Str)>>>,
)
    requires
        same_tokens(a, b),
    ensures
        same_tokens(renamed_marking(r, a), renamed_marking(r, b)),
{
    assert forall|p: int| 0 <= p < a.len() implies (#[trigger] renamed_marking(
        r,
        a,
    )[p]).to_multiset() == renamed_marking(r, b)[p].to_multiset() by {
        assert(a[p].to_multiset() == b[p].to_multiset());
        lemma_tokens_renamed(r, a[p], b[p]);
    }
}

proof fn lemma_key_count(ts: Seq<Seq<(Str, Str)>>, x: Seq<(Str, Str)>)
    ensures
        ts.to_multiset().count(x) == token_keys(ts).to_multiset().count(token_key(x)),
    decreases ts.len(),
{
    if ts.len() == 0 {
        assert(token_keys(ts) =~= Seq::<Str>::empty());
    } else {
        let d = ts.drop_last();
        lemma_key_count(d, x);
        assert(ts =~= d.push(ts.last()));
        assert(token_keys(ts) =~= token_keys(d).push(token_key(ts.last())));
        if token_key(ts.last()) == token_key(x) {
            lemma_token_key(ts.last(), x);
        }
    }
}

/// Places with the same text hold the same tokens.
pub proof fn lemma_place_key(a: Seq<Seq<(Str, Str)>>, b: Seq<Seq<(Str, Str)>>)
    requires
        place_key(a) == place_key(b),
    ensures
        a.to_multiset() == b.to_multiset(),
{
    let x = token_keys(a);
    let y = token_keys(b);
    lemma_packed_all(sorted_texts(x), sorted_texts(y));
    lemma_sorted(x, x.len() as int);
    lemma_sorted(y, y.len() as int);
    assert(x.take(x.len() as int) =~= x);
    assert(y.take(y.len() as int) =~= y);
    assert forall|t: Seq<(Str, Str)>| a.to_multiset().count(t) == b.to_multiset().count(t) by {
        lemma_key_count(a, t);
        lemma_key_count(b, t);
    }
    assert(a.to_multiset() =~= b.to_multiset());
}

/// Markings with the same text hold the same tokens.
pub proof fn lemma_marking_key(a: Seq<Seq<Seq<(Str, Str)>>>, b: Seq<Seq<Seq<(Str, Str)>>>)
    requires
        marking_key(a) == marking_key(b),
    ensures
        same_tokens(a, b),
{
    let x = Seq::new(a.len(), |p: int| place_key(a[p]));
    let y = Seq::new(b.len(), |p: int| place_key(b[p]));
    lemma_packed_all(x, y);
    assert(x.len() == a.len() && y.len() == b.len());
    assert forall|p: int| 0 <= p < a.len() implies (#[trigger] a[p]).to_multiset()
        == b[p].to_multiset() by {
        assert(x[p] == y[p]);
        lemma_place_key(a[p], b[p]);
    }
}

/// Writes a token or an environment down.
pub fn write_token(e: &Token) -> (r: String)
    ensures
        r@ == token_key(e.deep_view()),
{
    let ghost ev = e.deep_view();
    let ghost all = Seq::new(ev.len(), |i: int| packed(ev[i].0) + packed(ev[i].1));
    let mut parts: Vec<String> = empty_vec();
    let mut i: usize = 0;
    while i < e.len()
        invariant
            i <= ev.len(),
            ev == e.deep_view(),
            all == Seq::new(ev.len(), |i: int| packed(ev[i].0) + packed(ev[i].1)),
            parts.deep_view() =~= all.take(i as int),
        decreases ev.len() - i,
    {
        let k = pack(e.key_at(i).as_str());
        let v = pack(e.value_at(i).as_str());
        push_to(&mut parts, cat2(k.as_str(), v.as_str()));
        i = i + 1;
    }
    assert(all.take(i as int) =~= all);
    pack_all(&parts)
}

fn write_tokens(ts: &Vec<Token>) -> (r: Vec<String>)
    ensures
        r.deep_view() == token_keys(ts.deep_view()),
{
    let ghost tv = ts.deep_view();
    let mut out: Vec<String> = empty_vec();
    let mut i: usize = 0;
    while i < ts.len()
        invariant
            i <= ts.len(),
            tv == ts.deep_view(),
            out.deep_view() =~= token_keys(tv).take(i as int),
        decreases ts.len() - i,
    {
        assert(tv[i as int] == ts[i as int].deep_view());
        push_to(&mut out, write_token(&ts[i]));
        i = i + 1;
    }
    assert(token_keys(tv).take(i as int) =~= token_keys(tv));
    out
}

/// Writes a marking down, whatever the order of its tokens.
pub fn write_marking(m: &Marking) -> (r: String)
    ensures
        r@ == marking_key(m.deep_view()),
{
    let ghost mv = m.deep_view();
    let ghost all = Seq::new(mv.len(), |p: int| place_key(mv[p]));
    let mut parts: Vec<String> = empty_vec();
    let mut p: usize = 0;
    while p < m.len()
        invariant
            p <= m.len(),
            mv == m.deep_view(),
            all == Seq::new(mv.len(), |p: int| place_key(mv[p])),
            parts.deep_view() =~= all.take(p as int),
        decreases m.len() - p,
    {
        assert(mv[p as int] == m[p as int].deep_view());
        let keys = write_tokens(&m[p]);
        let sorted = sort_texts(&keys);
        push_to(&mut parts, pack_all(&sorted));
        p = p + 1;
    }
    assert(all.take(p as int) =~= all);
    pack_all(&parts)
}

} // verus!
