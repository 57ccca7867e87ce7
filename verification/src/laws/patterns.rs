//! What patterns match, and what tables hold.
use crate::model::{classified, glob_matches, PatternView};
use crate::ordered::lookup;
use crate::text::Str;
use vstd::prelude::*;

verus! {

/// The empty pattern matches the empty text alone.
pub proof fn an_empty_pattern_matches_nothing_else(v: Str)
    ensures
        glob_matches(Seq::empty(), v) <==> v.len() == 0,
{
}

/// A star matches every text.
pub proof fn a_star_matches_everything(v: Str)
    ensures
        glob_matches(seq!['*'], v),
{
    let p = seq!['*'];
    assert(p.drop_first() =~= Seq::<char>::empty());
    assert(v.skip(v.len() as int) =~= Seq::<char>::empty());
    assert(glob_matches(p.drop_first(), v.skip(v.len() as int)));
}

/// A question mark matches every single character, and nothing else.
pub proof fn a_question_mark_matches_one_character(v: Str)
    ensures
        glob_matches(seq!['?'], v) <==> v.len() == 1,
{
    let p = seq!['?'];
    assert(p.drop_first() =~= Seq::<char>::empty());
    if v.len() > 0 {
        an_empty_pattern_matches_nothing_else(v.drop_first());
    }
}

/// Any other character matches itself, and nothing else.
pub proof fn a_plain_character_matches_itself(c: char, v: Str)
    requires
        c != '*' && c != '?',
    ensures
        glob_matches(seq![c], v) <==> v == seq![c],
{
    let p = seq![c];
    assert(p.drop_first() =~= Seq::<char>::empty());
    if v.len() > 0 {
        an_empty_pattern_matches_nothing_else(v.drop_first());
        if v.len() == 1 && v[0] == c {
            assert(v =~= seq![c]);
        }
    }
}

/// Two patterns in a row match what can be cut in two so that each matches its part.
pub proof fn patterns_in_a_row_match_texts_in_a_row(a: Str, b: Str, v: Str)
    ensures
        glob_matches(a + b, v) <==> exists|i: int|
            0 <= i <= v.len() && glob_matches(a, #[trigger] v.take(i)) && glob_matches(b, v.skip(i)),
    decreases a.len(),
{
    if a.len() == 0 {
        assert(a + b =~= b);
        assert(v.take(0).len() == 0);
        assert(v.skip(0) =~= v);
        if exists|i: int|
            0 <= i <= v.len() && glob_matches(a, #[trigger] v.take(i)) && glob_matches(
                b,
                v.skip(i),
            ) {
            let i = choose|i: int|
                0 <= i <= v.len() && glob_matches(a, #[trigger] v.take(i)) && glob_matches(
                    b,
                    v.skip(i),
                );
            assert(v.take(i).len() == i);
            assert(i == 0);
        }
    } else {
        let t = a.drop_first();
        assert((a + b).drop_first() =~= t + b);
        assert((a + b)[0] == a[0]);
        if a[0] == '*' {
            if glob_matches(a + b, v) {
                let j = choose|j: int|
                    0 <= j <= v.len() && glob_matches((a + b).drop_first(), #[trigger] v.skip(j));
                let w = v.skip(j);
                patterns_in_a_row_match_texts_in_a_row(t, b, w);
                let i = choose|i: int|
                    0 <= i <= w.len() && glob_matches(t, #[trigger] w.take(i)) && glob_matches(
                        b,
                        w.skip(i),
                    );
                assert(v.take(j + i).skip(j) =~= w.take(i));
                assert(v.skip(j + i) =~= w.skip(i));
                assert(glob_matches(a, v.take(j + i)));
            }
            if exists|i: int|
                0 <= i <= v.len() && glob_matches(a, #[trigger] v.take(i)) && glob_matches(
                    b,
                    v.skip(i),
                ) {
                let i = choose|i: int|
                    0 <= i <= v.len() && glob_matches(a, #[trigger] v.take(i)) && glob_matches(
                        b,
                        v.skip(i),
                    );
                let u = v.take(i);
                let j = choose|j: int|
                    0 <= j <= u.len() && glob_matches(a.drop_first(), #[trigger] u.skip(j));
                let w = v.skip(j);
                assert(w.take(i - j) =~= u.skip(j));
                assert(w.skip(i - j) =~= v.skip(i));
                patterns_in_a_row_match_texts_in_a_row(t, b, w);
                assert(glob_matches(t, w.take(i - j)));
                assert(glob_matches((a + b).drop_first(), v.skip(j)));
            }
        } else if v.len() > 0 {
            let w = v.drop_first();
            patterns_in_a_row_match_texts_in_a_row(t, b, w);
            if glob_matches(a + b, v) {
                let i = choose|i: int|
                    0 <= i <= w.len() && glob_matches(t, #[trigger] w.take(i)) && glob_matches(
                        b,
                        w.skip(i),
                    );
                assert(v.take(i + 1).drop_first() =~= w.take(i));
                assert(v.skip(i + 1) =~= w.skip(i));
                assert(glob_matches(a, v.take(i + 1)));
            }
            if exists|i: int|
                0 <= i <= v.len() && glob_matches(a, #[trigger] v.take(i)) && glob_matches(
                    b,
                    v.skip(i),
                ) {
                let i = choose|i: int|
                    0 <= i <= v.len() && glob_matches(a, #[trigger] v.take(i)) && glob_matches(
                        b,
                        v.skip(i),
                    );
                assert(i > 0);
                assert(v.take(i).drop_first() =~= w.take(i - 1));
                assert(v.skip(i) =~= w.skip(i - 1));
                assert(glob_matches(t, w.take(i - 1)));
            }
        } else {
            assert(!glob_matches(a + b, v));
            assert forall|i: int| 0 <= i <= v.len() implies !glob_matches(
                a,
                #[trigger] v.take(i),
            ) by {
                assert(v.take(i).len() == 0);
            }
        }
    }
}

/// A pattern without a wildcard matches itself, and nothing else.
pub proof fn a_plain_pattern_matches_itself(p: Str, v: Str)
    requires
        forall|i: int| 0 <= i < p.len() ==> #[trigger] p[i] != '*' && p[i] != '?',
    ensures
        glob_matches(p, v) <==> p == v,
    decreases p.len(),
{
    if p.len() > 0 {
        if v.len() > 0 {
            assert forall|i: int| 0 <= i < p.drop_first().len() implies #[trigger] p.drop_first()[i]
                != '*' && p.drop_first()[i] != '?' by {
                assert(p.drop_first()[i] == p[i + 1]);
            }
            a_plain_pattern_matches_itself(p.drop_first(), v.drop_first());
            if glob_matches(p, v) {
                assert(p[0] == v[0]);
                assert(p =~= seq![p[0]] + p.drop_first());
                assert(v =~= seq![v[0]] + v.drop_first());
            }
        }
    } else {
        if v.len() == 0 {
            assert(p =~= v);
        }
    }
}

/// A pattern that ends in its only star matches the texts that begin as it does.
pub proof fn a_trailing_star_matches_what_begins_so(p: Str, v: Str)
    requires
        forall|i: int| 0 <= i < p.len() ==> #[trigger] p[i] != '*' && p[i] != '?',
    ensures
        glob_matches(p.push('*'), v) <==> p.len() <= v.len() && v.take(p.len() as int) == p,
{
    assert(p.push('*') =~= p + seq!['*']);
    patterns_in_a_row_match_texts_in_a_row(p, seq!['*'], v);
    if exists|i: int|
        0 <= i <= v.len() && glob_matches(p, #[trigger] v.take(i)) && glob_matches(
            seq!['*'],
            v.skip(i),
        ) {
        let i = choose|i: int|
            0 <= i <= v.len() && glob_matches(p, #[trigger] v.take(i)) && glob_matches(
                seq!['*'],
                v.skip(i),
            );
        a_plain_pattern_matches_itself(p, v.take(i));
    }
    if p.len() <= v.len() && v.take(p.len() as int) == p {
        a_plain_pattern_matches_itself(p, v.take(p.len() as int));
        a_star_matches_everything(v.skip(p.len() as int));
    }
}

/// A dollar sign makes what follows the name of a variable; without one, a star makes a glob;
/// anything else stands for itself.
pub proof fn what_a_template_argument_says(raw: Str, name: Str)
    ensures
        classified(seq!['$'] + name) == PatternView::Var(name),
        raw.len() == 0 ==> classified(raw) == PatternView::Lit(raw),
        raw.len() > 0 && raw[0] != '$' && raw.contains('*') ==> classified(raw)
            == PatternView::Glob(raw),
        raw.len() > 0 && raw[0] != '$' && !raw.contains('*') ==> classified(raw)
            == PatternView::Lit(raw),
{
    assert((seq!['$'] + name).skip(1) =~= name);
}

/// Looking a key up gives the first value that is held for it, and nothing where there is none.
pub proof fn a_lookup_gives_the_first_value<W>(m: Seq<(Str, W)>, k: Str)
    ensures
        lookup(m, k) is None <==> forall|i: int| 0 <= i < m.len() ==> (#[trigger] m[i]).0 != k,
        lookup(m, k) matches Some(v) ==> exists|i: int|
            0 <= i < m.len() && #[trigger] m[i] == (k, v) && forall|j: int|
                0 <= j < i ==> (#[trigger] m[j]).0 != k,
    decreases m.len(),
{
    if m.len() > 0 && m[0].0 != k {
        let rest = m.drop_first();
        a_lookup_gives_the_first_value(rest, k);
        assert forall|i: int| 0 <= i < rest.len() implies #[trigger] rest[i] == m[i + 1] by {}
        if lookup(m, k) is Some {
            let v = lookup(m, k)->0;
            let i = choose|i: int|
                0 <= i < rest.len() && #[trigger] rest[i] == (k, v) && forall|j: int|
                    0 <= j < i ==> (#[trigger] rest[j]).0 != k;
            assert forall|j: int| 0 <= j < i + 1 implies (#[trigger] m[j]).0 != k by {
                if j > 0 {
                    assert(rest[j - 1] == m[j]);
                }
            }
            assert(m[i + 1] == (k, v));
        } else {
            assert forall|i: int| 0 <= i < m.len() implies (#[trigger] m[i]).0 != k by {
                if i > 0 {
                    assert(rest[i - 1] == m[i]);
                }
            }
        }
    } else if m.len() > 0 {
        assert(m[0] == (k, m[0].1));
    }
}

} // verus!
