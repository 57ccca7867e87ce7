//! Insertion-ordered tables and sets over text, held in `indexmap` collections.

use crate::ordered::{lookup, Dup};
use crate::text::Str;
use indexmap::{IndexMap, IndexSet};
use vstd::prelude::*;

verus! {

/// `indexmap::IndexMap`, carried as an opaque value.
#[verifier::external_type_specification]
#[verifier::external_body]
#[verifier::reject_recursive_types(K)]
#[verifier::reject_recursive_types(V)]
#[verifier::reject_recursive_types(S)]
pub struct ExIndexMap<K, V, S>(IndexMap<K, V, S>);

/// `indexmap::IndexSet`, carried as an opaque value.
#[verifier::external_type_specification]
#[verifier::external_body]
#[verifier::reject_recursive_types(T)]
#[verifier::reject_recursive_types(S)]
pub struct ExIndexSet<T, S>(IndexSet<T, S>);

/// The key-value pairs that an `IndexMap` holds, in its order.
pub uninterp spec fn entries_of(m: IndexMap<String, usize>) -> Seq<(String, usize)>;

/// The items that an `IndexSet` holds, in its order.
pub uninterp spec fn items_of(s: IndexSet<String>) -> Seq<String>;

/// What storing `v` under `k` makes of the pairs `m`: an equal key keeps its place and gets
/// the new value, a new key goes last.
pub open spec fn stored(m: Seq<(String, usize)>, k: String, v: usize) -> Seq<(String, usize)>
    decreases m.len(),
{
    if m.len() == 0 {
        seq![(k, v)]
    } else if m[0].0@ == k@ {
        seq![(m[0].0, v)] + m.drop_first()
    } else {
        seq![m[0]] + stored(m.drop_first(), k, v)
    }
}

/// Calls `IndexMap::new`: the map holds nothing.
#[verifier::external_body]
pub(crate) fn index_new() -> (m: IndexMap<String, usize>)
    ensures
        entries_of(m) == Seq::<(String, usize)>::empty(),
{
    IndexMap::new()
}

/// Calls `IndexMap::insert`: an equal key keeps its place and gets the new value, a new
/// key goes last.
#[verifier::external_body]
pub(crate) fn index_insert(m: &mut IndexMap<String, usize>, k: String, v: usize)
    ensures
        entries_of(*final(m)) == stored(entries_of(*old(m)), k, v),
{
    m.insert(k, v);
}

/// Calls `IndexMap::get`: the value of the pair whose key equals `k`, where there is one.
#[verifier::external_body]
pub(crate) fn index_get(m: &IndexMap<String, usize>, k: &str) -> (r: Option<usize>)
    ensures
        match r {
            Some(v) => exists|i: int|
                0 <= i < entries_of(*m).len() && (#[trigger] entries_of(*m)[i]).0@ == k@
                    && entries_of(*m)[i].1 == v,
            None => forall|i: int|
                0 <= i < entries_of(*m).len() ==> (#[trigger] entries_of(*m)[i]).0@ != k@,
        },
{
    m.get(k).copied()
}

/// Calls `IndexMap::get_index`: the pair at position `i` of the map's order.
#[verifier::external_body]
pub(crate) fn index_at(m: &IndexMap<String, usize>, i: usize) -> (r: Option<(&String, usize)>)
    ensures
        match r {
            Some(e) => i < entries_of(*m).len() && *e.0 == entries_of(*m)[i as int].0 && e.1
                == entries_of(*m)[i as int].1,
            None => i >= entries_of(*m).len(),
        },
{
    m.get_index(i).map(|e| (e.0, *e.1))
}

/// Calls `IndexSet::new`: the set holds nothing.
#[verifier::external_body]
pub(crate) fn set_new() -> (s: IndexSet<String>)
    ensures
        items_of(s) == Seq::<String>::empty(),
{
    IndexSet::new()
}

/// Calls `IndexSet::insert`: an equal item stays as it is and the answer is `false`, a new
/// item goes last and the answer is `true`.
#[verifier::external_body]
pub(crate) fn set_insert(s: &mut IndexSet<String>, k: String) -> (fresh: bool)
    ensures
        fresh == !texts_of(*old(s)).contains(k@),
        items_of(*final(s)) == (if fresh {
            items_of(*old(s)).push(k)
        } else {
            items_of(*old(s))
        }),
{
    s.insert(k)
}

/// Calls `IndexSet::contains`: whether an equal item is in the set.
#[verifier::external_body]
pub(crate) fn set_contains(s: &IndexSet<String>, k: &str) -> (r: bool)
    ensures
        r == texts_of(*s).contains(k@),
{
    s.contains(k)
}

/// The items of an `IndexSet` as text, in its order.
pub open spec fn texts_of(s: IndexSet<String>) -> Seq<Str> {
    Seq::new(items_of(s).len(), |i: int| items_of(s)[i]@)
}

// ---------------------------------------------------------------------------
// Tables
// ---------------------------------------------------------------------------
/// `m` with the entry for `k` set to `v`: an existing key keeps its place, a new one goes last.
pub open spec fn assigned<W>(m: Seq<(Str, W)>, k: Str, v: W) -> Seq<(Str, W)>
    decreases m.len(),
{
    if m.len() == 0 {
        seq![(k, v)]
    } else if m[0].0 == k {
        seq![(k, v)] + m.drop_first()
    } else {
        seq![m[0]] + assigned(m.drop_first(), k, v)
    }
}

/// Whether no key occurs twice.
pub open spec fn distinct_keys<W>(m: Seq<(Str, W)>) -> bool {
    forall|i: int, j: int| 0 <= i < j < m.len() ==> #[trigger] m[i].0 != #[trigger] m[j].0
}

pub proof fn lemma_lookup_at<W>(m: Seq<(Str, W)>, i: int)
    requires
        distinct_keys(m),
        0 <= i < m.len(),
    ensures
        lookup(m, m[i].0) == Some(m[i].1),
    decreases i,
{
    if i > 0 {
        let d = m.drop_first();
        assert(forall|j: int| 0 <= j < d.len() ==> #[trigger] d[j] == m[j + 1]);
        lemma_lookup_at(d, i - 1);
        assert(m[0].0 != m[i].0);
    }
}

proof fn lemma_lookup_none<W>(m: Seq<(Str, W)>, k: Str)
    requires
        forall|i: int| 0 <= i < m.len() ==> #[trigger] m[i].0 != k,
    ensures
        lookup(m, k) is None,
    decreases m.len(),
{
    if m.len() > 0 {
        assert(m[0].0 != k);
        let d = m.drop_first();
        assert(forall|j: int| 0 <= j < d.len() ==> #[trigger] d[j] == m[j + 1]);
        lemma_lookup_none(d, k);
    }
}

proof fn lemma_assigned_new<W>(m: Seq<(Str, W)>, k: Str, v: W)
    requires
        forall|i: int| 0 <= i < m.len() ==> #[trigger] m[i].0 != k,
    ensures
        assigned(m, k, v) == m.push((k, v)),
    decreases m.len(),
{
    if m.len() > 0 {
        assert(m[0].0 != k);
        let d = m.drop_first();
        assert(forall|j: int| 0 <= j < d.len() ==> #[trigger] d[j] == m[j + 1]);
        lemma_assigned_new(d, k, v);
    }
    assert(assigned(m, k, v) =~= m.push((k, v)));
}

pub proof fn lemma_assigned_old<W>(m: Seq<(Str, W)>, i: int, v: W)
    requires
        distinct_keys(m),
        0 <= i < m.len(),
    ensures
        assigned(m, m[i].0, v) == m.update(i, (m[i].0, v)),
    decreases i,
{
    if i > 0 {
        let d = m.drop_first();
        assert(forall|j: int| 0 <= j < d.len() ==> #[trigger] d[j] == m[j + 1]);
        lemma_assigned_old(d, i - 1, v);
        assert(m[0].0 != m[i].0);
    }
    assert(assigned(m, m[i].0, v) =~= m.update(i, (m[i].0, v)));
}

proof fn lemma_stored_new(m: Seq<(String, usize)>, k: String, v: usize)
    requires
        forall|i: int| 0 <= i < m.len() ==> (#[trigger] m[i]).0@ != k@,
    ensures
        stored(m, k, v) == m.push((k, v)),
    decreases m.len(),
{
    if m.len() > 0 {
        assert(m[0].0@ != k@);
        let d = m.drop_first();
        assert(forall|j: int| 0 <= j < d.len() ==> #[trigger] d[j] == m[j + 1]);
        lemma_stored_new(d, k, v);
    }
    assert(stored(m, k, v) =~= m.push((k, v)));
}

/// A map from text to values in order of first insertion. The keys and their places are held
/// in an `IndexMap`, the values beside it.
#[verifier::reject_recursive_types(V)]
#[derive(Debug)]
pub struct Table<V> {
    index: IndexMap<String, usize>,
    values: Vec<V>,
}

impl<V: DeepView> DeepView for Table<V> {
    type V = Seq<(Str, V::V)>;

    closed spec fn deep_view(&self) -> Seq<(Str, V::V)> {
        Seq::new(
            self.values@.len(),
            |i: int| (entries_of(self.index)[i].0@, self.values@[i].deep_view()),
        )
    }
}

impl<V> Table<V> {
    #[verifier::type_invariant]
    spec fn well_formed(&self) -> bool {
        let e = entries_of(self.index);
        &&& e.len() == self.values@.len()
        &&& forall|i: int| 0 <= i < e.len() ==> (#[trigger] e[i]).1 == i
        &&& forall|i: int, j: int|
            0 <= i < j < e.len() ==> (#[trigger] e[i]).0@ != (#[trigger] e[j]).0@
    }
}

impl<V: DeepView> Table<V> {
    pub fn new() -> (r: Self)
        ensures
            r.deep_view() == Seq::<(Str, V::V)>::empty(),
    {
        let r = Table { index: index_new(), values: Vec::new() };
        assert(r.deep_view() =~= Seq::<(Str, V::V)>::empty());
        r
    }

    /// No key of a table occurs twice.
    pub fn distinct(&self)
        ensures
            distinct_keys(self.deep_view()),
    {
        proof {
            use_type_invariant(self);
            let m = self.deep_view();
            assert forall|i: int, j: int| 0 <= i < j < m.len() implies #[trigger] m[i].0
                != #[trigger] m[j].0 by {
                assert(entries_of(self.index)[i].0@ != entries_of(self.index)[j].0@);
            }
        }
    }

    pub fn len(&self) -> (n: usize)
        ensures
            n == self.deep_view().len(),
    {
        self.values.len()
    }

    pub fn key_at(&self, i: usize) -> (k: &String)
        requires
            i < self.deep_view().len(),
        ensures
            k@ == self.deep_view()[i as int].0,
    {
        proof {
            use_type_invariant(self);
        }
        index_at(&self.index, i).unwrap().0
    }

    pub fn value_at(&self, i: usize) -> (v: &V)
        requires
            i < self.deep_view().len(),
        ensures
            v.deep_view() == self.deep_view()[i as int].1,
    {
        &self.values[i]
    }

    pub fn get(&self, k: &str) -> (r: Option<&V>)
        ensures
            match r {
                Some(v) => lookup(self.deep_view(), k@) == Some(v.deep_view()),
                None => lookup(self.deep_view(), k@) is None,
            },
    {
        proof {
            use_type_invariant(self);
        }
        self.distinct();
        let ghost m = self.deep_view();
        match index_get(&self.index, k) {
            Some(i) => {
                proof {
                    let e = entries_of(self.index);
                    let x = choose|x: int| 0 <= x < e.len() && (#[trigger] e[x]).0@ == k@ && e[x].1 == i;
                    assert(x == i);
                    assert(m[i as int].0 == k@);
                    lemma_lookup_at(m, i as int);
                }
                Some(&self.values[i])
            },
            None => {
                proof {
                    assert forall|i: int| 0 <= i < m.len() implies #[trigger] m[i].0 != k@ by {
                        assert(entries_of(self.index)[i].0@ != k@);
                    }
                    lemma_lookup_none(m, k@);
                }
                None
            },
        }
    }

    pub fn contains_key(&self, k: &str) -> (r: bool)
        ensures
            r == (lookup(self.deep_view(), k@) is Some),
    {
        self.get(k).is_some()
    }

    pub fn insert(&mut self, k: String, v: V)
        ensures
            final(self).deep_view() == assigned(old(self).deep_view(), k@, v.deep_view()),
    {
        proof {
            use_type_invariant(&*self);
        }
        self.distinct();
        let ghost m = self.deep_view();
        let ghost e = entries_of(self.index);
        let ghost kv = k@;
        let ghost w = v.deep_view();
        let slot = index_get(&self.index, k.as_str());
        let mut whole: Table<V> = Table::new();
        std::mem::swap(&mut whole, self);
        let Table { mut index, mut values } = whole;
        match slot {
            Some(i) => {
                proof {
                    let x = choose|x: int| 0 <= x < e.len() && (#[trigger] e[x]).0@ == kv && e[x].1 == i;
                    assert(x == i);
                    assert(m[i as int].0 == kv);
                    lemma_assigned_old(m, i as int, w);
                }
                values.set(i, v);
                *self = Table { index, values };
                assert(self.deep_view() =~= m.update(i as int, (kv, w)));
            },
            None => {
                proof {
                    assert forall|i: int| 0 <= i < m.len() implies #[trigger] m[i].0 != kv by {
                        assert(e[i].0@ != kv);
                    }
                    lemma_assigned_new(m, kv, w);
                    lemma_stored_new(e, k, values@.len() as usize);
                }
                let n = values.len();
                index_insert(&mut index, k, n);
                values.push(v);
                assert(entries_of(index) == e.push((k, n)));
                *self = Table { index, values };
                assert(self.deep_view() =~= m.push((kv, w)));
            },
        }
    }
}

impl<V: Dup> Dup for Table<V> {
    fn dup(&self) -> (r: Self) {
        let ghost m = self.deep_view();
        self.distinct();
        let mut out: Table<V> = Table::new();
        let mut i: usize = 0;
        assert(m.take(0) =~= Seq::empty());
        while i < self.len()
            invariant
                i <= m.len(),
                m == self.deep_view(),
                distinct_keys(m),
                out.deep_view() == m.take(i as int),
            decreases m.len() - i,
        {
            let ghost t = m.take(i as int);
            proof {
                assert forall|j: int| 0 <= j < t.len() implies #[trigger] t[j].0 != m[i as int].0 by {
                    assert(t[j] == m[j]);
                }
                lemma_assigned_new(t, m[i as int].0, m[i as int].1);
                assert(t.push(m[i as int]) =~= m.take(i + 1));
            }
            out.insert(self.key_at(i).clone(), self.value_at(i).dup());
            i = i + 1;
        }
        assert(m.take(m.len() as int) =~= m);
        out
    }
}

} // verus!
