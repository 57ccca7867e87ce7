//! Maps and sets over text kept in key order, and the copying and comparing of values
//! by what they hold.

use crate::text::{
    before, lemma_before_asymmetric, lemma_before_total, lemma_before_transitive, same_text,
    text_before, Str,
};
use vstd::prelude::*;

verus! {

/// Values that can be copied without changing what they hold.
pub trait Dup: DeepView + Sized {
    fn dup(&self) -> (r: Self)
        ensures
            r.deep_view() == self.deep_view(),
    ;
}

/// Values that can be compared by what they hold.
pub trait Same: DeepView + Sized {
    fn same(&self, other: &Self) -> (r: bool)
        ensures
            r == (self.deep_view() == other.deep_view()),
    ;
}

impl Dup for String {
    fn dup(&self) -> (r: Self) {
        self.clone()
    }
}

impl Same for String {
    fn same(&self, other: &Self) -> (r: bool) {
        *self == *other
    }
}

impl Dup for usize {
    fn dup(&self) -> (r: Self) {
        *self
    }
}

impl Same for usize {
    fn same(&self, other: &Self) -> (r: bool) {
        *self == *other
    }
}

impl<T: Dup> Dup for Vec<T> {
    fn dup(&self) -> (r: Self) {
        let mut out: Vec<T> = Vec::new();
        let mut i: usize = 0;
        while i < self.len()
            invariant
                i <= self.len(),
                out.len() == i,
                forall|j: int| 0 <= j < i ==> #[trigger] out[j].deep_view() == self[j].deep_view(),
            decreases self.len() - i,
        {
            out.push(self[i].dup());
            i = i + 1;
        }
        assert(out.deep_view() =~= self.deep_view());
        out
    }
}

impl<T: Same> Same for Vec<T> {
    fn same(&self, other: &Self) -> (r: bool) {
        if self.len() != other.len() {
            assert(self.deep_view().len() != other.deep_view().len());
            return false;
        }
        let mut i: usize = 0;
        while i < self.len()
            invariant
                i <= self.len(),
                self.len() == other.len(),
                forall|j: int|
                    0 <= j < i ==> #[trigger] self[j].deep_view() == other[j].deep_view(),
            decreases self.len() - i,
        {
            if !self[i].same(&other[i]) {
                assert(self.deep_view()[i as int] != other.deep_view()[i as int]);
                return false;
            }
            i = i + 1;
        }
        assert(self.deep_view() =~= other.deep_view());
        true
    }
}

impl<T: Dup> Dup for Option<T> {
    fn dup(&self) -> (r: Self) {
        match self {
            Some(v) => Some(v.dup()),
            None => None,
        }
    }
}

impl<T: Same> Same for Option<T> {
    fn same(&self, other: &Self) -> (r: bool) {
        match (self, other) {
            (Some(a), Some(b)) => a.same(b),
            (None, None) => true,
            _ => false,
        }
    }
}

impl<A: Dup, B: Dup> Dup for (A, B) {
    fn dup(&self) -> (r: Self) {
        (self.0.dup(), self.1.dup())
    }
}

impl<A: Same, B: Same> Same for (A, B) {
    fn same(&self, other: &Self) -> (r: bool) {
        self.0.same(&other.0) && self.1.same(&other.1)
    }
}

/// Appends `x` to `v`.
pub fn push_to<T: DeepView>(v: &mut Vec<T>, x: T)
    ensures
        final(v).deep_view() == old(v).deep_view().push(x.deep_view()),
{
    let ghost before_push = v.deep_view();
    let ghost w = x.deep_view();
    v.push(x);
    assert(v.deep_view() =~= before_push.push(w));
}

/// An empty sequence.
pub fn empty_vec<T: DeepView>() -> (v: Vec<T>)
    ensures
        v.deep_view() == Seq::<T::V>::empty(),
{
    let v: Vec<T> = Vec::new();
    assert(v.deep_view() =~= Seq::<T::V>::empty());
    v
}

/// Appends the items of `more` to `v`.
pub fn append_to<T: DeepView>(v: &mut Vec<T>, mut more: Vec<T>)
    ensures
        final(v).deep_view() == old(v).deep_view() + more.deep_view(),
{
    let ghost a = v.deep_view();
    let ghost b = more.deep_view();
    v.append(&mut more);
    assert(v.deep_view() =~= a + b);
}

/// Whether `k` is one of the items of `v`.
pub fn vec_contains(v: &Vec<String>, k: &str) -> (r: bool)
    ensures
        r == v.deep_view().contains(k@),
{
    let key = k.to_string();
    let mut i: usize = 0;
    while i < v.len()
        invariant
            i <= v.len(),
            key@ == k@,
            forall|j: int| 0 <= j < i ==> v.deep_view()[j] != k@,
        decreases v.len() - i,
    {
        if v[i] == key {
            assert(v.deep_view()[i as int] == k@);
            return true;
        }
        i = i + 1;
    }
    false
}

// ---------------------------------------------------------------------------
// Association lists
// ---------------------------------------------------------------------------
/// The value that the first entry with key `k` holds.
pub open spec fn lookup<W>(m: Seq<(Str, W)>, k: Str) -> Option<W>
    decreases m.len(),
{
    if m.len() == 0 {
        None
    } else if m[0].0 == k {
        Some(m[0].1)
    } else {
        lookup(m.drop_first(), k)
    }
}

/// `m` with the entry for `k` set to `v`, in key order.
pub open spec fn put<W>(m: Seq<(Str, W)>, k: Str, v: W) -> Seq<(Str, W)>
    decreases m.len(),
{
    if m.len() == 0 {
        seq![(k, v)]
    } else if m[0].0 == k {
        seq![(k, v)] + m.drop_first()
    } else if before(k, m[0].0) {
        seq![(k, v)] + m
    } else {
        seq![m[0]] + put(m.drop_first(), k, v)
    }
}

/// Whether the keys of `m` are strictly increasing.
pub open spec fn increasing<W>(m: Seq<(Str, W)>) -> bool {
    forall|i: int, j: int| 0 <= i < j < m.len() ==> before(#[trigger] m[i].0, #[trigger] m[j].0)
}

/// The keys of `m`, in order.
pub open spec fn keys_of<W>(m: Seq<(Str, W)>) -> Seq<Str> {
    Seq::new(m.len(), |i: int| m[i].0)
}

/// The values of `m`, in key order.
pub open spec fn values_of<W>(m: Seq<(Str, W)>) -> Seq<W> {
    Seq::new(m.len(), |i: int| m[i].1)
}

/// Setting an entry changes what that key maps to and nothing else.
pub proof fn a_lookup_gives_back_what_was_put<W>(m: Seq<(Str, W)>, k: Str, v: W, q: Str)
    ensures
        lookup(put(m, k, v), q) == (if q == k {
            Some(v)
        } else {
            lookup(m, q)
        }),
    decreases m.len(),
{
    let p = put(m, k, v);
    if m.len() > 0 {
        if m[0].0 == k {
            assert(p.drop_first() =~= m.drop_first());
        } else if before(k, m[0].0) {
            assert(p.drop_first() =~= m);
        } else {
            a_lookup_gives_back_what_was_put(m.drop_first(), k, v, q);
            assert(p.drop_first() =~= put(m.drop_first(), k, v));
        }
    } else {
        assert(p.drop_first() =~= m);
    }
}

pub proof fn lemma_put_skips<W>(m: Seq<(Str, W)>, k: Str, v: W, i: int)
    requires
        0 <= i <= m.len(),
        forall|j: int| 0 <= j < i ==> before(#[trigger] m[j].0, k),
    ensures
        put(m, k, v) == m.take(i) + put(m.skip(i), k, v),
    decreases i,
{
    if i == 0 {
        assert(m.skip(0) =~= m);
        assert(put(m, k, v) =~= m.take(0) + put(m.skip(0), k, v));
    } else {
        lemma_before_asymmetric(m[0].0, k);
        let d = m.drop_first();
        assert forall|j: int| 0 <= j < i - 1 implies before(#[trigger] d[j].0, k) by {
            assert(d[j] == m[j + 1]);
        }
        lemma_put_skips(d, k, v, i - 1);
        assert(d.skip(i - 1) =~= m.skip(i));
        assert(m.take(i) =~= seq![m[0]] + d.take(i - 1));
        assert(put(m, k, v) =~= m.take(i) + put(m.skip(i), k, v));
    }
}

/// Setting an entry keeps the keys in order.
pub proof fn lemma_put_increasing<W>(m: Seq<(Str, W)>, k: Str, v: W)
    requires
        increasing(m),
    ensures
        increasing(put(m, k, v)),
        forall|i: int|
            0 <= i < put(m, k, v).len() ==> (#[trigger] put(m, k, v)[i]).0 == k || exists|j: int|
                0 <= j < m.len() && #[trigger] m[j].0 == put(m, k, v)[i].0,
    decreases m.len(),
{
    let p = put(m, k, v);
    if m.len() > 0 {
        let d = m.drop_first();
        assert(forall|j: int| 0 <= j < d.len() ==> #[trigger] d[j] == m[j + 1]);
        if m[0].0 == k {
            assert forall|i: int, j: int| 0 <= i < j < p.len() implies before(
                #[trigger] p[i].0,
                #[trigger] p[j].0,
            ) by {
                assert(p[j] == m[j]);
                assert(p[i].0 == m[i].0);
            }
            assert forall|i: int| 0 <= i < p.len() implies (#[trigger] p[i]).0 == k || exists|j: int|
                0 <= j < m.len() && #[trigger] m[j].0 == p[i].0 by {
                if i > 0 {
                    assert(p[i] == m[i]);
                    assert(m[i].0 == p[i].0);
                }
            }
        } else if before(k, m[0].0) {
            assert forall|i: int, j: int| 0 <= i < j < p.len() implies before(
                #[trigger] p[i].0,
                #[trigger] p[j].0,
            ) by {
                assert(p[j] == m[j - 1]);
                if i > 0 {
                    assert(p[i] == m[i - 1]);
                } else if j > 1 {
                    lemma_before_transitive(k, m[0].0, m[j - 1].0);
                }
            }
            assert forall|i: int| 0 <= i < p.len() implies (#[trigger] p[i]).0 == k || exists|j: int|
                0 <= j < m.len() && #[trigger] m[j].0 == p[i].0 by {
                if i > 0 {
                    assert(p[i] == m[i - 1]);
                    assert(m[i - 1].0 == p[i].0);
                }
            }
        } else {
            lemma_before_total(k, m[0].0);
            lemma_put_increasing(d, k, v);
            let q = put(d, k, v);
            assert(forall|j: int| 0 < j < p.len() ==> #[trigger] p[j] == q[j - 1]);
            assert forall|j: int| 0 <= j < q.len() implies before(m[0].0, #[trigger] q[j].0) by {
                if q[j].0 != k {
                    let x = choose|x: int| 0 <= x < d.len() && #[trigger] d[x].0 == q[j].0;
                    assert(d[x] == m[x + 1]);
                }
            }
            assert forall|i: int, j: int| 0 <= i < j < p.len() implies before(
                #[trigger] p[i].0,
                #[trigger] p[j].0,
            ) by {
                assert(p[j] == q[j - 1]);
                if i > 0 {
                    assert(p[i] == q[i - 1]);
                }
            }
            assert forall|i: int| 0 <= i < p.len() implies (#[trigger] p[i]).0 == k || exists|j: int|
                0 <= j < m.len() && #[trigger] m[j].0 == p[i].0 by {
                if i > 0 {
                    assert(p[i] == q[i - 1]);
                    if q[i - 1].0 != k {
                        let x = choose|x: int| 0 <= x < d.len() && #[trigger] d[x].0 == q[i - 1].0;
                        assert(m[x + 1].0 == p[i].0);
                    }
                } else {
                    assert(m[0].0 == p[i].0);
                }
            }
        }
    }
}

/// A map from text to values, kept in key order.
#[derive(Debug)]
pub struct StrMap<V> {
    entries: Vec<(String, V)>,
}

impl<V: DeepView> DeepView for StrMap<V> {
    type V = Seq<(Str, V::V)>;

    closed spec fn deep_view(&self) -> Seq<(Str, V::V)> {
        self.entries.deep_view()
    }
}

impl<V> StrMap<V> {
    #[verifier::type_invariant]
    spec fn in_order(&self) -> bool {
        forall|i: int, j: int|
            0 <= i < j < self.entries@.len() ==> before(
                #[trigger] self.entries@[i].0@,
                #[trigger] self.entries@[j].0@,
            )
    }
}

impl<V: DeepView> StrMap<V> {
    pub fn new() -> (r: Self)
        ensures
            r.deep_view() == Seq::<(Str, V::V)>::empty(),
    {
        let r = StrMap { entries: Vec::new() };
        assert(r.deep_view() =~= Seq::<(Str, V::V)>::empty());
        r
    }

    /// The keys of a map are strictly increasing.
    pub fn ordered(&self)
        ensures
            increasing(self.deep_view()),
    {
        proof {
            use_type_invariant(self);
            let m = self.deep_view();
            assert forall|i: int, j: int| 0 <= i < j < m.len() implies before(
                #[trigger] m[i].0,
                #[trigger] m[j].0,
            ) by {
                assert(m[i].0 == self.entries@[i].0@);
                assert(m[j].0 == self.entries@[j].0@);
            }
        }
    }

    pub fn len(&self) -> (n: usize)
        ensures
            n == self.deep_view().len(),
    {
        self.entries.len()
    }

    pub fn key_at(&self, i: usize) -> (k: &String)
        requires
            i < self.deep_view().len(),
        ensures
            k@ == self.deep_view()[i as int].0,
    {
        &self.entries[i].0
    }

    pub fn value_at(&self, i: usize) -> (v: &V)
        requires
            i < self.deep_view().len(),
        ensures
            v.deep_view() == self.deep_view()[i as int].1,
    {
        &self.entries[i].1
    }

    pub fn get(&self, k: &str) -> (r: Option<&V>)
        ensures
            match r {
                Some(v) => lookup(self.deep_view(), k@) == Some(v.deep_view()),
                None => lookup(self.deep_view(), k@) is None,
            },
    {
        let ghost m = self.deep_view();
        let mut i: usize = 0;
        assert(m.skip(0) =~= m);
        while i < self.entries.len()
            invariant
                i <= self.entries.len(),
                m == self.entries.deep_view(),
                lookup(m, k@) == lookup(m.skip(i as int), k@),
            decreases self.entries.len() - i,
        {
            assert(m.skip(i as int)[0] == m[i as int]);
            if same_text(self.entries[i].0.as_str(), k) {
                return Some(&self.entries[i].1);
            }
            assert(m.skip(i as int).drop_first() =~= m.skip(i + 1));
            i = i + 1;
        }
        None
    }

    pub fn contains_key(&self, k: &str) -> (r: bool)
        ensures
            r == (lookup(self.deep_view(), k@) is Some),
    {
        self.get(k).is_some()
    }

    pub fn insert(&mut self, k: String, v: V)
        ensures
            final(self).deep_view() == put(old(self).deep_view(), k@, v.deep_view()),
    {
        proof {
            use_type_invariant(&*self);
        }
        let ghost m = self.deep_view();
        let ghost w = v.deep_view();
        let ghost raw = self.entries@;
        self.ordered();
        let mut i: usize = 0;
        while i < self.entries.len() && text_before(self.entries[i].0.as_str(), k.as_str())
            invariant
                i <= self.entries.len(),
                m == self.entries.deep_view(),
                forall|j: int| 0 <= j < i ==> before(#[trigger] m[j].0, k@),
            decreases self.entries.len() - i,
        {
            i = i + 1;
        }
        proof {
            lemma_put_skips(m, k@, w, i as int);
            lemma_put_increasing(m, k@, w);
        }
        let mut work: Vec<(String, V)> = Vec::new();
        std::mem::swap(&mut work, &mut self.entries);
        if i < work.len() && work[i].0 == k {
            assert(m.skip(i as int)[0].0 == k@);
            assert(put(m, k@, w) =~= m.update(i as int, (k@, w)));
            work.set(i, (k, v));
            assert(work.deep_view() =~= m.update(i as int, (k@, w)));
        } else {
            proof {
                if i < m.len() {
                    assert(m.skip(i as int)[0] == m[i as int]);
                    lemma_before_total(m[i as int].0, k@);
                }
            }
            assert(put(m, k@, w) =~= m.take(i as int) + seq![(k@, w)] + m.skip(i as int));
            work.insert(i, (k, v));
            assert(work.deep_view() =~= m.insert(i as int, (k@, w)));
            assert(work.deep_view() =~= put(m, k@, w));
        }
        assert forall|a: int, b: int| 0 <= a < b < work@.len() implies before(
            #[trigger] work@[a].0@,
            #[trigger] work@[b].0@,
        ) by {
            assert(work.deep_view()[a].0 == work@[a].0@);
            assert(work.deep_view()[b].0 == work@[b].0@);
        }
        self.entries = work;
    }
}

impl<V: Dup> Dup for StrMap<V> {
    fn dup(&self) -> (r: Self) {
        proof {
            use_type_invariant(self);
        }
        let entries = self.entries.dup();
        assert forall|i: int, j: int| 0 <= i < j < entries@.len() implies before(
            #[trigger] entries@[i].0@,
            #[trigger] entries@[j].0@,
        ) by {
            assert(entries.deep_view()[i] == self.entries.deep_view()[i]);
            assert(entries.deep_view()[j] == self.entries.deep_view()[j]);
            assert(entries.deep_view().len() == self.entries.deep_view().len());
            assert(entries@[i].0@ == self.entries@[i].0@);
            assert(entries@[j].0@ == self.entries@[j].0@);
        }
        StrMap { entries }
    }
}

impl<V: Same> Same for StrMap<V> {
    fn same(&self, other: &Self) -> (r: bool) {
        self.entries.same(&other.entries)
    }
}

impl StrMap<String> {
    /// The same keys with other values.
    pub fn with_values(&self, values: &Vec<String>) -> (r: Self)
        requires
            values.len() == self.deep_view().len(),
        ensures
            r.deep_view() == Seq::new(
                values.len() as nat,
                |i: int| (self.deep_view()[i].0, values.deep_view()[i]),
            ),
    {
        let mut entries: Vec<(String, String)> = Vec::new();
        let mut i: usize = 0;
        proof {
            use_type_invariant(self);
        }
        while i < self.entries.len()
            invariant
                i <= self.entries.len(),
                values.len() == self.entries.len(),
                entries.len() == i,
                forall|j: int|
                    0 <= j < i ==> (#[trigger] entries@[j]).0@ == self.entries@[j].0@
                        && entries@[j].1@ == values@[j]@,
            decreases self.entries.len() - i,
        {
            entries.push((self.entries[i].0.clone(), values[i].clone()));
            i = i + 1;
        }
        assert forall|i: int, j: int| 0 <= i < j < entries@.len() implies before(
            #[trigger] entries@[i].0@,
            #[trigger] entries@[j].0@,
        ) by {
            assert(entries@[i].0@ == self.entries@[i].0@);
            assert(entries@[j].0@ == self.entries@[j].0@);
        }
        let r = StrMap { entries };
        assert(r.deep_view() =~= Seq::new(
            values.len() as nat,
            |i: int| (self.deep_view()[i].0, values.deep_view()[i]),
        ));
        r
    }
}

// ---------------------------------------------------------------------------
// Sets
// ---------------------------------------------------------------------------
/// `s` with `k` added, in order and without repetition.
pub open spec fn put_item(s: Seq<Str>, k: Str) -> Seq<Str>
    decreases s.len(),
{
    if s.len() == 0 {
        seq![k]
    } else if s[0] == k {
        s
    } else if before(k, s[0]) {
        seq![k] + s
    } else {
        seq![s[0]] + put_item(s.drop_first(), k)
    }
}

/// `s` with each item of `ks` added.
pub open spec fn put_items(s: Seq<Str>, ks: Seq<Str>) -> Seq<Str>
    decreases ks.len(),
{
    if ks.len() == 0 {
        s
    } else {
        put_item(put_items(s, ks.drop_last()), ks.last())
    }
}

/// The distinct items of `ks`, in order.
pub open spec fn sorted_set(ks: Seq<Str>) -> Seq<Str> {
    put_items(Seq::empty(), ks)
}

/// Whether `s` is strictly increasing.
pub open spec fn ascending(s: Seq<Str>) -> bool {
    forall|i: int, j: int| 0 <= i < j < s.len() ==> before(#[trigger] s[i], #[trigger] s[j])
}

/// Adding an item adds exactly that item.
pub proof fn lemma_put_item_contains(s: Seq<Str>, k: Str, q: Str)
    ensures
        put_item(s, k).contains(q) <==> (q == k || s.contains(q)),
    decreases s.len(),
{
    let p = put_item(s, k);
    if s.len() == 0 {
        assert(p[0] == k);
    } else if s[0] == k {
        assert(p[0] == k);
    } else if before(k, s[0]) {
        assert(p[0] == k);
        if s.contains(q) {
            let i = s.index_of(q);
            assert(p[i + 1] == q);
        }
        if p.contains(q) && q != k {
            let i = p.index_of(q);
            assert(s[i - 1] == q);
        }
    } else {
        let d = s.drop_first();
        let r = put_item(d, k);
        lemma_put_item_contains(d, k, q);
        if s.contains(q) {
            let i = s.index_of(q);
            if i == 0 {
                assert(p[0] == q);
            } else {
                assert(d[i - 1] == q);
            }
        }
        if r.contains(q) {
            let i = r.index_of(q);
            assert(p[i + 1] == q);
        }
        if p.contains(q) {
            let i = p.index_of(q);
            if i > 0 {
                assert(r[i - 1] == q);
            } else {
                assert(s[0] == q);
            }
        }
        if d.contains(q) {
            let i = d.index_of(q);
            assert(s[i + 1] == q);
        }
    }
}

/// The distinct items of `ks` are the items of `ks`.
pub proof fn lemma_put_items_contains(s: Seq<Str>, ks: Seq<Str>, q: Str)
    ensures
        put_items(s, ks).contains(q) <==> (s.contains(q) || ks.contains(q)),
    decreases ks.len(),
{
    if ks.len() > 0 {
        let d = ks.drop_last();
        lemma_put_items_contains(s, d, q);
        lemma_put_item_contains(put_items(s, d), ks.last(), q);
        if ks.contains(q) {
            let i = ks.index_of(q);
            if i < d.len() {
                assert(d[i] == q);
            }
        }
        if d.contains(q) {
            let i = d.index_of(q);
            assert(ks[i] == q);
        }
        assert(ks[ks.len() - 1] == ks.last());
    }
}

proof fn lemma_put_item_skips(s: Seq<Str>, k: Str, i: int)
    requires
        0 <= i <= s.len(),
        forall|j: int| 0 <= j < i ==> before(#[trigger] s[j], k),
    ensures
        put_item(s, k) == s.take(i) + put_item(s.skip(i), k),
    decreases i,
{
    if i == 0 {
        assert(s.skip(0) =~= s);
        assert(put_item(s, k) =~= s.take(0) + put_item(s.skip(0), k));
    } else {
        lemma_before_asymmetric(s[0], k);
        let d = s.drop_first();
        assert forall|j: int| 0 <= j < i - 1 implies before(#[trigger] d[j], k) by {
            assert(d[j] == s[j + 1]);
        }
        lemma_put_item_skips(d, k, i - 1);
        assert(d.skip(i - 1) =~= s.skip(i));
        assert(s.take(i) =~= seq![s[0]] + d.take(i - 1));
        assert(put_item(s, k) =~= s.take(i) + put_item(s.skip(i), k));
    }
}

/// Adding an item keeps the order.
pub proof fn lemma_put_item_ascending(s: Seq<Str>, k: Str)
    requires
        ascending(s),
    ensures
        ascending(put_item(s, k)),
    decreases s.len(),
{
    let p = put_item(s, k);
    if s.len() > 0 && s[0] != k {
        if before(k, s[0]) {
            assert forall|i: int, j: int| 0 <= i < j < p.len() implies before(
                #[trigger] p[i],
                #[trigger] p[j],
            ) by {
                assert(p[j] == s[j - 1]);
                if i > 0 {
                    assert(p[i] == s[i - 1]);
                } else if j > 1 {
                    lemma_before_transitive(k, s[0], s[j - 1]);
                }
            }
        } else {
            lemma_before_total(k, s[0]);
            let d = s.drop_first();
            assert(forall|j: int| 0 <= j < d.len() ==> #[trigger] d[j] == s[j + 1]);
            lemma_put_item_ascending(d, k);
            let q = put_item(d, k);
            assert forall|i: int, j: int| 0 <= i < j < p.len() implies before(
                #[trigger] p[i],
                #[trigger] p[j],
            ) by {
                assert(p[j] == q[j - 1]);
                if i > 0 {
                    assert(p[i] == q[i - 1]);
                } else {
                    lemma_put_item_contains(d, k, q[j - 1]);
                    assert(q.contains(q[j - 1]));
                    if q[j - 1] != k {
                        let x = d.index_of(q[j - 1]);
                        assert(s[x + 1] == q[j - 1]);
                    }
                }
            }
        }
    }
}

/// A set of text, kept in order.
#[derive(Debug)]
pub struct StrSet {
    items: Vec<String>,
}

impl DeepView for StrSet {
    type V = Seq<Str>;

    closed spec fn deep_view(&self) -> Seq<Str> {
        self.items.deep_view()
    }
}

impl StrSet {
    #[verifier::type_invariant]
    spec fn in_order(&self) -> bool {
        ascending(self.items.deep_view())
    }

    pub fn new() -> (r: Self)
        ensures
            r.deep_view() == Seq::<Str>::empty(),
    {
        let items: Vec<String> = Vec::new();
        assert(items.deep_view() =~= Seq::<Str>::empty());
        StrSet { items }
    }

    /// The items of a set are strictly increasing.
    pub fn ordered(&self)
        ensures
            ascending(self.deep_view()),
    {
        proof {
            use_type_invariant(self);
        }
    }

    pub fn len(&self) -> (n: usize)
        ensures
            n == self.deep_view().len(),
    {
        self.items.len()
    }

    pub fn item_at(&self, i: usize) -> (k: &String)
        requires
            i < self.deep_view().len(),
        ensures
            k@ == self.deep_view()[i as int],
    {
        &self.items[i]
    }

    /// The items, in order.
    pub fn to_vec(&self) -> (r: Vec<String>)
        ensures
            r.deep_view() == self.deep_view(),
    {
        self.items.dup()
    }

    pub fn contains(&self, k: &str) -> (r: bool)
        ensures
            r == self.deep_view().contains(k@),
    {
        let key = k.to_string();
        let mut i: usize = 0;
        while i < self.items.len()
            invariant
                i <= self.items.len(),
                key@ == k@,
                forall|j: int| 0 <= j < i ==> self.items.deep_view()[j] != k@,
            decreases self.items.len() - i,
        {
            if self.items[i] == key {
                assert(self.items.deep_view()[i as int] == k@);
                return true;
            }
            i = i + 1;
        }
        false
    }

    /// Adds an item; tells whether it was new.
    pub fn insert(&mut self, k: String) -> (fresh: bool)
        ensures
            final(self).deep_view() == put_item(old(self).deep_view(), k@),
            fresh == !old(self).deep_view().contains(k@),
    {
        proof {
            use_type_invariant(&*self);
        }
        let ghost s = self.deep_view();
        let ghost kv = k@;
        let mut i: usize = 0;
        while i < self.items.len() && text_before(self.items[i].as_str(), k.as_str())
            invariant
                i <= self.items.len(),
                s == self.items.deep_view(),
                forall|j: int| 0 <= j < i ==> before(#[trigger] s[j], k@),
            decreases self.items.len() - i,
        {
            i = i + 1;
        }
        proof {
            lemma_put_item_skips(s, kv, i as int);
            lemma_put_item_ascending(s, kv);
            assert forall|j: int| 0 <= j < i implies s[j] != kv by {
                lemma_before_asymmetric(s[j], kv);
            }
        }
        if i < self.items.len() && self.items[i] == k {
            assert(s.skip(i as int)[0] == kv);
            assert(put_item(s, kv) =~= s);
            assert(s[i as int] == kv);
            return false;
        }
        proof {
            if i < s.len() {
                assert(s.skip(i as int)[0] == s[i as int]);
                lemma_before_total(s[i as int], kv);
                assert forall|j: int| i <= j < s.len() implies s[j] != kv by {
                    lemma_before_asymmetric(kv, s[i as int]);
                    if j > i {
                        lemma_before_transitive(kv, s[i as int], s[j]);
                        lemma_before_asymmetric(kv, s[j]);
                    }
                }
            }
            assert(put_item(s, kv) =~= s.take(i as int) + seq![kv] + s.skip(i as int));
        }
        let mut work: Vec<String> = Vec::new();
        let ghost none = work.deep_view();
        assert(none =~= Seq::<Str>::empty());
        std::mem::swap(&mut work, &mut self.items);
        work.insert(i, k);
        assert(work.deep_view() =~= s.insert(i as int, kv));
        assert(work.deep_view() =~= put_item(s, kv));
        self.items = work;
        true
    }

    /// Adds every item of `ks`.
    pub fn insert_all(&mut self, ks: &Vec<String>)
        ensures
            final(self).deep_view() == put_items(old(self).deep_view(), ks.deep_view()),
    {
        let ghost s = self.deep_view();
        let ghost all = ks.deep_view();
        let mut i: usize = 0;
        while i < ks.len()
            invariant
                i <= ks.len(),
                all == ks.deep_view(),
                self.deep_view() == put_items(s, all.take(i as int)),
            decreases ks.len() - i,
        {
            assert(all.take(i + 1).drop_last() =~= all.take(i as int));
            self.insert(ks[i].clone());
            i = i + 1;
        }
        assert(all.take(all.len() as int) =~= all);
    }
}

impl Dup for StrSet {
    fn dup(&self) -> (r: Self) {
        proof {
            use_type_invariant(self);
        }
        StrSet { items: self.items.dup() }
    }
}

impl Same for StrSet {
    fn same(&self, other: &Self) -> (r: bool) {
        self.items.same(&other.items)
    }
}

// ---------------------------------------------------------------------------
// Sorting
// ---------------------------------------------------------------------------
/// `s` with `x` set before the first item that does not come before it.
pub open spec fn insert_text(s: Seq<Str>, x: Str) -> Seq<Str>
    decreases s.len(),
{
    if s.len() == 0 || !before(s[0], x) {
        seq![x] + s
    } else {
        seq![s[0]] + insert_text(s.drop_first(), x)
    }
}

/// The first `n` items of `s`, sorted.
pub open spec fn sorted_upto(s: Seq<Str>, n: int) -> Seq<Str>
    decreases n,
{
    if n <= 0 {
        Seq::empty()
    } else {
        insert_text(sorted_upto(s, n - 1), s[n - 1])
    }
}

/// The items of `s`, sorted; items that occur twice are kept twice.
pub open spec fn sorted_texts(s: Seq<Str>) -> Seq<Str> {
    sorted_upto(s, s.len() as int)
}

fn insert_sorted(v: &mut Vec<String>, x: String)
    ensures
        final(v).deep_view() == insert_text(old(v).deep_view(), x@),
{
    let ghost s = v.deep_view();
    let ghost k = x@;
    let mut i: usize = 0;
    assert(s.skip(0) =~= s);
    assert(s.take(0) + insert_text(s, k) =~= insert_text(s, k));
    while i < v.len() && text_before(v[i].as_str(), x.as_str())
        invariant
            i <= v.len(),
            s == v.deep_view(),
            k == x@,
            insert_text(s, k) == s.take(i as int) + insert_text(s.skip(i as int), k),
        decreases v.len() - i,
    {
        let ghost rest = s.skip(i as int);
        assert(rest[0] == s[i as int]);
        assert(rest.drop_first() =~= s.skip(i + 1));
        assert(insert_text(s, k) =~= s.take(i + 1) + insert_text(s.skip(i + 1), k));
        i = i + 1;
    }
    let ghost rest = s.skip(i as int);
    assert(i < s.len() ==> rest[0] == s[i as int]);
    assert(insert_text(rest, k) =~= seq![k] + rest);
    v.insert(i, x);
    assert(v.deep_view() =~= insert_text(s, k));
}

/// The items of `v`, sorted.
pub fn sort_texts(v: &Vec<String>) -> (r: Vec<String>)
    ensures
        r.deep_view() == sorted_texts(v.deep_view()),
{
    let mut out: Vec<String> = empty_vec();
    let mut i: usize = 0;
    while i < v.len()
        invariant
            i <= v.len(),
            out.deep_view() == sorted_upto(v.deep_view(), i as int),
        decreases v.len() - i,
    {
        insert_sorted(&mut out, v[i].clone());
        i = i + 1;
    }
    out
}

} // verus!
