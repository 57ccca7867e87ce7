//! How texts are searched, divided, trimmed and ordered.
use crate::ordered::{
    ascending, lemma_put_item_ascending, lemma_put_items_contains, put_items, sorted_set,
};
use crate::text::{
    before, cut, decimal, digit, found, found_from, head_piece, is_char, is_white, joined, pieces,
    replaced, stripped, tail_piece, trimmed, trimmed_back, trimmed_front, without_prefix, Str,
};
use vstd::prelude::*;

verus! {

/// Whether `p` stands in `s` at position `i`.
pub open spec fn stands_at(s: Str, p: Str, i: int) -> bool {
    0 <= i && i + p.len() <= s.len() && forall|k: int|
        0 <= k < p.len() ==> s[i + k] == #[trigger] p[k]
}

proof fn lemma_stands(s: Str, p: Str, i: int)
    ensures
        crate::text::occurs_at(s, p, i) <==> stands_at(s, p, i),
{
    if crate::text::occurs_at(s, p, i) {
        assert forall|k: int| 0 <= k < p.len() implies s[i + k] == #[trigger] p[k] by {
            assert(s.subrange(i, i + p.len())[k] == s[i + k]);
        }
    }
    if stands_at(s, p, i) {
        assert(s.subrange(i, i + p.len()) =~= p);
    }
}

proof fn lemma_found_first(s: Str, p: Str, i: int)
    requires
        0 <= i,
    ensures
        found_from(s, p, i) matches Some(j) ==> i <= j && stands_at(s, p, j) && forall|k: int|
            i <= k < j ==> !(#[trigger] stands_at(s, p, k)),
        found_from(s, p, i) is None ==> forall|k: int| i <= k ==> !(#[trigger] stands_at(s, p, k)),
    decreases s.len() + 1 - i,
{
    if i + p.len() <= s.len() {
        lemma_stands(s, p, i);
        if !stands_at(s, p, i) {
            lemma_found_first(s, p, i + 1);
        }
    }
}

/// A text is found at the first position where it stands, and not at all where it stands nowhere.
pub proof fn a_text_is_found_where_it_first_stands(s: Str, p: Str)
    ensures
        found(s, p) matches Some(i) ==> stands_at(s, p, i) && forall|k: int|
            k < i ==> !(#[trigger] stands_at(s, p, k)),
        found(s, p) is None <==> forall|k: int| !(#[trigger] stands_at(s, p, k)),
{
    lemma_found_first(s, p, 0);
}

/// Whether `p` first stands in `a + p + b` right behind `a`.
pub open spec fn first_behind(a: Str, p: Str, b: Str) -> bool {
    forall|k: int| 0 <= k < a.len() ==> !(#[trigger] stands_at(a + p + b, p, k))
}

proof fn lemma_found_behind(a: Str, p: Str, b: Str)
    requires
        first_behind(a, p, b),
    ensures
        found(a + p + b, p) == Some(a.len() as int),
        (a + p + b).take(a.len() as int) == a,
        (a + p + b).skip((a.len() + p.len()) as int) == b,
{
    let s = a + p + b;
    a_text_is_found_where_it_first_stands(s, p);
    assert(stands_at(s, p, a.len() as int));
    let i = found(s, p)->0;
    if i < a.len() {
        assert(stands_at(s, p, i));
    }
    assert(s.take(a.len() as int) =~= a);
    assert(s.skip((a.len() + p.len()) as int) =~= b);
}

/// A text is cut in two at the first place where the mark stands; without the mark it is not
/// cut.
pub proof fn a_cut_parts_a_text_at_its_first_mark(a: Str, p: Str, b: Str, s: Str)
    ensures
        first_behind(a, p, b) ==> cut(a + p + b, p) == Some((a, b)) && head_piece(a + p + b, p)
            == a,
        (forall|k: int| !(#[trigger] stands_at(s, p, k))) ==> cut(s, p) is None && head_piece(s, p)
            == s,
{
    if first_behind(a, p, b) {
        lemma_found_behind(a, p, b);
    }
    a_text_is_found_where_it_first_stands(s, p);
}

/// The pieces of a text are what stands before the first mark, and then the pieces of what
/// stands behind it; a text without a mark is one piece.
pub proof fn pieces_lie_between_marks(a: Str, p: Str, b: Str, s: Str)
    requires
        p.len() > 0,
    ensures
        first_behind(a, p, b) ==> pieces(a + p + b, p) == seq![a] + pieces(b, p),
        (forall|k: int| !(#[trigger] stands_at(s, p, k))) ==> pieces(s, p) == seq![s],
{
    if first_behind(a, p, b) {
        lemma_found_behind(a, p, b);
    }
    a_text_is_found_where_it_first_stands(s, p);
}

/// What stands behind the last of a character is the tail; without it the whole text is.
pub proof fn a_tail_stands_behind_the_last_mark(a: Str, c: char, b: Str)
    requires
        !b.contains(c),
    ensures
        tail_piece(a.push(c) + b, c) == b,
        tail_piece(b, c) == b,
    decreases b.len(),
{
    if b.len() == 0 {
        assert(a.push(c) + b =~= a.push(c));
        assert(tail_piece(a.push(c), c) =~= b);
        assert(tail_piece(b, c) =~= b);
    } else {
        let d = b.drop_last();
        assert(b.contains(b.last()));
        assert forall|x: char| d.contains(x) implies b.contains(x) by {
            let i = d.index_of(x);
            assert(b[i] == x);
        }
        a_tail_stands_behind_the_last_mark(a, c, d);
        assert((a.push(c) + b).drop_last() =~= a.push(c) + d);
        assert((a.push(c) + b).last() == b.last());
        assert(tail_piece(a.push(c) + b, c) =~= d.push(b.last()));
        assert(d.push(b.last()) =~= b);
        assert(tail_piece(b, c) =~= b);
    }
}

proof fn lemma_front(w: Str, m: Str, drop: spec_fn(char) -> bool)
    requires
        forall|i: int| 0 <= i < w.len() ==> drop(#[trigger] w[i]),
        m.len() == 0 || !drop(m[0]),
    ensures
        trimmed_front(w + m, drop) == m,
    decreases w.len(),
{
    if w.len() == 0 {
        assert(w + m =~= m);
    } else {
        assert((w + m).drop_first() =~= w.drop_first() + m);
        assert((w + m)[0] == w[0]);
        assert forall|i: int| 0 <= i < w.drop_first().len() implies drop(
            #[trigger] w.drop_first()[i],
        ) by {
            assert(w.drop_first()[i] == w[i + 1]);
        }
        lemma_front(w.drop_first(), m, drop);
    }
}

proof fn lemma_back(m: Str, w: Str, drop: spec_fn(char) -> bool)
    requires
        forall|i: int| 0 <= i < w.len() ==> drop(#[trigger] w[i]),
        m.len() == 0 || !drop(m.last()),
    ensures
        trimmed_back(m + w, drop) == m,
    decreases w.len(),
{
    if w.len() == 0 {
        assert(m + w =~= m);
    } else {
        assert((m + w).drop_last() =~= m + w.drop_last());
        assert((m + w).last() == w.last());
        assert(drop(w[w.len() - 1]));
        assert forall|i: int| 0 <= i < w.drop_last().len() implies drop(
            #[trigger] w.drop_last()[i],
        ) by {
            assert(w.drop_last()[i] == w[i]);
        }
        lemma_back(m, w.drop_last(), drop);
    }
}

proof fn lemma_both(v: Str, m: Str, w: Str, drop: spec_fn(char) -> bool)
    requires
        forall|i: int| 0 <= i < v.len() ==> drop(#[trigger] v[i]),
        forall|i: int| 0 <= i < w.len() ==> drop(#[trigger] w[i]),
        m.len() == 0 || (!drop(m[0]) && !drop(m.last())),
    ensures
        trimmed_back(trimmed_front(v + m + w, drop), drop) == m,
{
    if m.len() == 0 {
        let u = v + m + w;
        assert forall|i: int| 0 <= i < u.len() implies drop(#[trigger] u[i]) by {
            if i < v.len() {
                assert(u[i] == v[i]);
            } else {
                assert(u[i] == w[i - v.len()]);
            }
        }
        lemma_front(u, m, drop);
        assert(u + m =~= u);
        assert(trimmed_back(m, drop) =~= m);
    } else {
        assert(v + m + w =~= v + (m + w));
        assert((m + w)[0] == m[0]);
        lemma_front(v, m + w, drop);
        lemma_back(m, w, drop);
    }
}

/// White space is the blank, the tabs, the ends of lines and of pages, and the wider and the
/// narrower blanks of other scripts.
pub proof fn which_characters_are_white_space(c: char)
    ensures
        is_white(c) <==> c == ' ' || c == '\t' || c == '\n' || c == '\u{b}' || c == '\u{c}' || c
            == '\r' || c == '\u{85}' || c == '\u{a0}' || c == '\u{1680}' || ('\u{2000}' <= c && c
            <= '\u{200a}') || c == '\u{2028}' || c == '\u{2029}' || c == '\u{202f}' || c
            == '\u{205f}' || c == '\u{3000}',
{
}

/// Trimming takes away the white space on both sides, and nothing else.
pub proof fn trimming_takes_away_white_space(v: Str, m: Str, w: Str)
    requires
        forall|i: int| 0 <= i < v.len() ==> is_white(#[trigger] v[i]),
        forall|i: int| 0 <= i < w.len() ==> is_white(#[trigger] w[i]),
        m.len() == 0 || (!is_white(m[0]) && !is_white(m.last())),
    ensures
        trimmed(v + m + w) == m,
{
    lemma_both(v, m, w, |c: char| is_white(c));
}

/// Stripping takes away one character on both sides, and nothing else.
pub proof fn stripping_takes_away_one_character(v: Str, m: Str, w: Str, q: char)
    requires
        forall|i: int| 0 <= i < v.len() ==> #[trigger] v[i] == q,
        forall|i: int| 0 <= i < w.len() ==> #[trigger] w[i] == q,
        m.len() == 0 || (m[0] != q && m.last() != q),
    ensures
        stripped(v + m + w, q) == m,
{
    lemma_both(v, m, w, is_char(q));
}

/// A prefix is taken off where a text begins with it, and only there.
pub proof fn a_prefix_is_taken_off(p: Str, r: Str, s: Str)
    ensures
        without_prefix(p + r, p) == Some(r),
        without_prefix(s, p) is Some <==> stands_at(s, p, 0),
{
    assert((p + r).take(p.len() as int) =~= p);
    assert((p + r).skip(p.len() as int) =~= r);
    if stands_at(s, p, 0) {
        assert forall|k: int| 0 <= k < p.len() implies s[k] == #[trigger] p[k] by {
            assert(s[0 + k] == p[k]);
        }
        assert(s.take(p.len() as int) =~= p);
    }
    if without_prefix(s, p) is Some {
        assert forall|k: int| 0 <= k < p.len() implies s[0 + k] == #[trigger] p[k] by {
            assert(s.take(p.len() as int)[k] == s[k]);
        }
    }
}

/// A number is written with its last digit last, behind the number that the other digits make.
pub proof fn a_number_is_written_in_decimal(n: nat, d: nat)
    requires
        d < 10,
    ensures
        digit(d) as int == '0' as int + d,
        decimal(d) == seq![digit(d)],
        n > 0 ==> decimal(10 * n + d) == decimal(n).push(digit(d)),
{
    assert((10 * n + d) / 10 == n && (10 * n + d) % 10 == d) by (nonlinear_arith)
        requires
            d < 10,
    ;
}

/// One text comes before another where the two agree up to some position at which the first
/// has ended or has a smaller character.
pub proof fn texts_are_ordered_by_their_first_difference(a: Str, b: Str)
    ensures
        before(a, b) <==> exists|i: int|
            0 <= i <= a.len() && i < b.len() && (i == a.len() || a[i] < b[i]) && #[trigger] a.take(i)
                == b.take(i),
    decreases a.len(),
{
    if b.len() > 0 {
        if a.len() == 0 {
            assert(a.take(0) =~= b.take(0));
        } else if a[0] != b[0] {
            assert(a.take(0) =~= b.take(0));
            if exists|i: int|
                0 <= i <= a.len() && i < b.len() && (i == a.len() || a[i] < b[i])
                    && #[trigger] a.take(i) == b.take(i) {
                let i = choose|i: int|
                    0 <= i <= a.len() && i < b.len() && (i == a.len() || a[i] < b[i])
                        && #[trigger] a.take(i) == b.take(i);
                if i > 0 {
                    assert(a.take(i)[0] == b.take(i)[0]);
                }
            }
        } else {
            let c = a.drop_first();
            let d = b.drop_first();
            texts_are_ordered_by_their_first_difference(c, d);
            if before(c, d) {
                let i = choose|i: int|
                    0 <= i <= c.len() && i < d.len() && (i == c.len() || c[i] < d[i])
                        && #[trigger] c.take(i) == d.take(i);
                assert forall|k: int| 0 <= k < i + 1 implies a[k] == b[k] by {
                    if k > 0 {
                        assert(c.take(i)[k - 1] == d.take(i)[k - 1]);
                    }
                }
                assert(a.take(i + 1) =~= b.take(i + 1));
            }
            if exists|i: int|
                0 <= i <= a.len() && i < b.len() && (i == a.len() || a[i] < b[i])
                    && #[trigger] a.take(i) == b.take(i) {
                let i = choose|i: int|
                    0 <= i <= a.len() && i < b.len() && (i == a.len() || a[i] < b[i])
                        && #[trigger] a.take(i) == b.take(i);
                assert(i > 0);
                assert forall|k: int| 0 <= k < i - 1 implies c[k] == d[k] by {
                    assert(a.take(i)[k + 1] == b.take(i)[k + 1]);
                }
                assert(c.take(i - 1) =~= d.take(i - 1));
            }
        }
    }
}

/// Replacing a character leaves what comes before and after it, each replaced in turn.
pub proof fn replacing_works_on_each_part(a: Str, b: Str, c: char, d: char, by: Str)
    ensures
        replaced(a + b, c, by) == replaced(a, c, by) + replaced(b, c, by),
        replaced(seq![c], c, by) == by,
        c != d ==> replaced(seq![d], c, by) == seq![d],
        replaced(Seq::empty(), c, by) == Seq::<char>::empty(),
    decreases b.len(),
{
    assert(seq![c].drop_last() =~= Seq::<char>::empty());
    assert(seq![d].drop_last() =~= Seq::<char>::empty());
    assert(replaced(Seq::empty(), c, by) =~= Seq::<char>::empty());
    assert(replaced(seq![c], c, by) =~= by);
    if c != d {
        assert(replaced(seq![d], c, by) =~= seq![d]);
    }
    if b.len() == 0 {
        assert(a + b =~= a);
        assert(replaced(a, c, by) + replaced(b, c, by) =~= replaced(a, c, by));
    } else {
        replacing_works_on_each_part(a, b.drop_last(), c, d, by);
        assert((a + b).drop_last() =~= a + b.drop_last());
        assert((a + b).last() == b.last());
        assert(replaced(a + b, c, by) =~= replaced(a, c, by) + replaced(b, c, by));
    }
}

/// Texts are joined with the mark between every two, and nowhere else.
pub proof fn joining_puts_marks_between(parts: Seq<Str>, x: Str, sep: Str)
    ensures
        joined(Seq::empty(), sep) == Seq::<char>::empty(),
        joined(seq![x], sep) == x,
        parts.len() > 0 ==> joined(parts.push(x), sep) == joined(parts, sep) + sep + x,
{
    assert(parts.push(x).drop_last() =~= parts);
}

proof fn lemma_put_items_ascending(s: Seq<Str>, ks: Seq<Str>)
    requires
        ascending(s),
    ensures
        ascending(put_items(s, ks)),
    decreases ks.len(),
{
    if ks.len() > 0 {
        lemma_put_items_ascending(s, ks.drop_last());
        lemma_put_item_ascending(put_items(s, ks.drop_last()), ks.last());
    }
}

/// A sorted set holds the texts that it is made of, each once, in order.
pub proof fn a_sorted_set_holds_its_texts(ks: Seq<Str>, k: Str, i: int, j: int)
    ensures
        sorted_set(ks).contains(k) <==> ks.contains(k),
        0 <= i < j < sorted_set(ks).len() ==> before(sorted_set(ks)[i], sorted_set(ks)[j]),
{
    lemma_put_items_contains(Seq::empty(), ks, k);
    lemma_put_items_ascending(Seq::empty(), ks);
}

} // verus!
