//! When guards and constraints hold.
use crate::laws::texts::{
    a_cut_parts_a_text_at_its_first_mark, a_prefix_is_taken_off, first_behind,
    pieces_lie_between_marks, stands_at, trimming_takes_away_white_space,
};
use crate::matching::{
    clause_holds, clause_parts, compares, constraint_holds, guard_clause_holds, guard_holds,
    guard_side, side_of,
};
use crate::model::classified;
use crate::observation::EffectInstanceView;
use crate::ordered::lookup;
use crate::text::{
    cut, is_white, pieces, stripped, trimmed, trimmed_back, trimmed_front, without_prefix, Str,
};
use vstd::prelude::*;

verus! {

proof fn lemma_front_kept(s: Str, drop: spec_fn(char) -> bool)
    ensures
        trimmed_front(s, drop).len() == 0 || !drop(trimmed_front(s, drop)[0]),
    decreases s.len(),
{
    if s.len() > 0 && drop(s[0]) {
        lemma_front_kept(s.drop_first(), drop);
    }
}

proof fn lemma_back_kept(s: Str, drop: spec_fn(char) -> bool)
    ensures
        trimmed_back(s, drop).len() == 0 || (!drop(trimmed_back(s, drop).last()) && trimmed_back(
            s,
            drop,
        )[0] == s[0]),
    decreases s.len(),
{
    if s.len() > 0 && drop(s.last()) {
        lemma_back_kept(s.drop_last(), drop);
    }
}

/// Trimming a text again changes nothing.
pub proof fn trimming_again_changes_nothing(s: Str)
    ensures
        trimmed(trimmed(s)) == trimmed(s),
{
    let white = |c: char| is_white(c);
    let f = trimmed_front(s, white);
    let m = trimmed(s);
    lemma_front_kept(s, white);
    lemma_back_kept(f, white);
    if m.len() > 0 {
        assert(f.len() > 0) by {
            if f.len() == 0 {
                assert(trimmed_back(f, white) == f);
            }
        }
        assert(!is_white(m[0]));
        assert(!is_white(m.last()));
    }
    let none = Seq::<char>::empty();
    trimming_takes_away_white_space(none, m, none);
    assert(none + m + none =~= m);
}

/// Whether a text never holds a mark.
pub open spec fn lacks(s: Str, mark: Str) -> bool {
    forall|k: int| !(#[trigger] stands_at(s, mark, k))
}

// ---------------------------------------------------------------------------
// Guards
// ---------------------------------------------------------------------------
/// What a side of a guard stands for: a variable for its value, a text with a star for itself,
/// and any other for what stands between its quotes.
pub open spec fn reads(side: Str, env: Seq<(Str, Str)>) -> Option<Str> {
    let t = trimmed(side);
    if t.len() > 0 && t[0] == '$' {
        lookup(env, t.skip(1))
    } else if t.contains('*') {
        Some(t)
    } else {
        Some(stripped(t, '"'))
    }
}

proof fn lemma_reads(side: Str, env: Seq<(Str, Str)>)
    ensures
        guard_side(trimmed(side), env) == reads(side, env),
{
    trimming_again_changes_nothing(side);
}

/// A guard of two parts holds where both do.
pub proof fn a_guard_holds_where_its_parts_do(a: Str, b: Str, env: Seq<(Str, Str)>)
    requires
        first_behind(a, "&&"@, b),
        lacks(a, "&&"@),
    ensures
        guard_holds(a + "&&"@ + b, env) <==> guard_holds(a, env) && guard_holds(b, env),
{
    reveal_strlit("&&");
    pieces_lie_between_marks(a, "&&"@, b, a);
    let all = pieces(a + "&&"@ + b, "&&"@);
    let rest = pieces(b, "&&"@);
    assert(all == seq![a] + rest);
    assert(pieces(a, "&&"@) == seq![a]);
    if guard_holds(a + "&&"@ + b, env) {
        assert(all[0] == a);
        assert forall|i: int| 0 <= i < seq![a].len() implies guard_clause_holds(
            trimmed(#[trigger] seq![a][i]),
            env,
        ) by {
            assert(guard_clause_holds(trimmed(all[0]), env));
        }
        assert forall|i: int| 0 <= i < rest.len() implies guard_clause_holds(
            trimmed(#[trigger] rest[i]),
            env,
        ) by {
            assert(all[i + 1] == rest[i]);
        }
    }
    if guard_holds(a, env) && guard_holds(b, env) {
        assert(seq![a][0] == a);
        assert(guard_clause_holds(trimmed(pieces(a, "&&"@)[0]), env));
        assert forall|i: int| 0 <= i < all.len() implies guard_clause_holds(
            trimmed(#[trigger] all[i]),
            env,
        ) by {
            if i > 0 {
                assert(all[i] == rest[i - 1]);
            }
        }
    }
}

proof fn lemma_one_clause(g: Str, env: Seq<(Str, Str)>)
    requires
        lacks(g, "&&"@),
    ensures
        guard_holds(g, env) <==> guard_clause_holds(trimmed(g), env),
{
    reveal_strlit("&&");
    pieces_lie_between_marks(g, "&&"@, g, g);
    assert(pieces(g, "&&"@) == seq![g]);
    assert(seq![g][0] == g);
    if guard_clause_holds(trimmed(g), env) {
        assert forall|i: int| 0 <= i < seq![g].len() implies guard_clause_holds(
            trimmed(#[trigger] seq![g][i]),
            env,
        ) by {}
    }
    if guard_holds(g, env) {
        assert(guard_clause_holds(trimmed(pieces(g, "&&"@)[0]), env));
    }
}

/// A guard that asks for equality holds where both sides have a value, and the same; one that
/// asks for difference holds where both have a value, and not the same. A guard that asks for
/// neither holds.
pub proof fn a_guard_compares_two_sides(a: Str, b: Str, g: Str, env: Seq<(Str, Str)>)
    ensures
        lacks(a + "=="@ + b, "&&"@) && first_behind(a, "=="@, b) && trimmed(a + "=="@ + b) == a
            + "=="@ + b ==> (guard_holds(a + "=="@ + b, env) <==> reads(a, env) is Some && reads(
            a,
            env,
        ) == reads(b, env)),
        lacks(a + "!="@ + b, "&&"@) && lacks(a + "!="@ + b, "=="@) && first_behind(a, "!="@, b)
            && trimmed(a + "!="@ + b) == a + "!="@ + b ==> (guard_holds(a + "!="@ + b, env)
            <==> reads(a, env) is Some && reads(b, env) is Some && reads(a, env) != reads(b, env)),
        lacks(g, "&&"@) && lacks(trimmed(g), "=="@) && lacks(trimmed(g), "!="@) ==> guard_holds(
            g,
            env,
        ),
{
    lemma_reads(a, env);
    lemma_reads(b, env);
    let same = a + "=="@ + b;
    let other = a + "!="@ + b;
    if lacks(same, "&&"@) && first_behind(a, "=="@, b) && trimmed(same) == same {
        lemma_one_clause(same, env);
        a_cut_parts_a_text_at_its_first_mark(a, "=="@, b, same);
        assert(clause_parts(same) == Some((trimmed(a), true, trimmed(b))));
    }
    if lacks(other, "&&"@) && lacks(other, "=="@) && first_behind(a, "!="@, b) && trimmed(other)
        == other {
        lemma_one_clause(other, env);
        a_cut_parts_a_text_at_its_first_mark(a, "!="@, b, other);
        a_cut_parts_a_text_at_its_first_mark(a, "=="@, b, other);
        assert(clause_parts(other) == Some((trimmed(a), false, trimmed(b))));
    }
    if lacks(g, "&&"@) && lacks(trimmed(g), "=="@) && lacks(trimmed(g), "!="@) {
        lemma_one_clause(g, env);
        a_cut_parts_a_text_at_its_first_mark(a, "=="@, b, trimmed(g));
        a_cut_parts_a_text_at_its_first_mark(a, "!="@, b, trimmed(g));
    }
}

// ---------------------------------------------------------------------------
// Constraints
// ---------------------------------------------------------------------------
/// What a side of a constraint stands for: an argument of the effect that an edge leaves, one of
/// the effect that it leads to, or what stands between quotes.
pub open spec fn names(
    side: Str,
    from: EffectInstanceView,
    to: EffectInstanceView,
) -> Option<Str> {
    let t = trimmed(side);
    if stands_at(t, "from."@, 0) {
        lookup(from.args, t.skip(5))
    } else if stands_at(t, "to."@, 0) {
        lookup(to.args, t.skip(3))
    } else {
        Some(stripped(t, '"'))
    }
}

proof fn lemma_names(side: Str, from: EffectInstanceView, to: EffectInstanceView)
    ensures
        side_of(trimmed(side), from, to) == names(side, from, to),
{
    trimming_again_changes_nothing(side);
    reveal_strlit("from.");
    reveal_strlit("to.");
    let t = trimmed(side);
    a_prefix_is_taken_off("from."@, t, t);
    a_prefix_is_taken_off("to."@, t, t);
}

/// A constraint of two parts holds where both do.
pub proof fn a_constraint_holds_where_its_parts_do(
    a: Str,
    b: Str,
    from: EffectInstanceView,
    to: EffectInstanceView,
)
    requires
        first_behind(a, "&&"@, b),
        lacks(a, "&&"@),
    ensures
        constraint_holds(a + "&&"@ + b, from, to) <==> constraint_holds(a, from, to)
            && constraint_holds(b, from, to),
{
    reveal_strlit("&&");
    pieces_lie_between_marks(a, "&&"@, b, a);
    let all = pieces(a + "&&"@ + b, "&&"@);
    let rest = pieces(b, "&&"@);
    assert(all == seq![a] + rest);
    assert(pieces(a, "&&"@) == seq![a]);
    if constraint_holds(a + "&&"@ + b, from, to) {
        assert(all[0] == a);
        assert forall|i: int| 0 <= i < seq![a].len() implies clause_holds(
            trimmed(#[trigger] seq![a][i]),
            from,
            to,
        ) by {
            assert(clause_holds(trimmed(all[0]), from, to));
        }
        assert forall|i: int| 0 <= i < rest.len() implies clause_holds(
            trimmed(#[trigger] rest[i]),
            from,
            to,
        ) by {
            assert(all[i + 1] == rest[i]);
        }
    }
    if constraint_holds(a, from, to) && constraint_holds(b, from, to) {
        assert(seq![a][0] == a);
        assert(clause_holds(trimmed(pieces(a, "&&"@)[0]), from, to));
        assert forall|i: int| 0 <= i < all.len() implies clause_holds(
            trimmed(#[trigger] all[i]),
            from,
            to,
        ) by {
            if i > 0 {
                assert(all[i] == rest[i - 1]);
            }
        }
    }
}

proof fn lemma_one_condition(c: Str, from: EffectInstanceView, to: EffectInstanceView)
    requires
        lacks(c, "&&"@),
    ensures
        constraint_holds(c, from, to) <==> clause_holds(trimmed(c), from, to),
{
    reveal_strlit("&&");
    pieces_lie_between_marks(c, "&&"@, c, c);
    assert(pieces(c, "&&"@) == seq![c]);
    assert(seq![c][0] == c);
    if clause_holds(trimmed(c), from, to) {
        assert forall|i: int| 0 <= i < seq![c].len() implies clause_holds(
            trimmed(#[trigger] seq![c][i]),
            from,
            to,
        ) by {}
    }
    if constraint_holds(c, from, to) {
        assert(clause_holds(trimmed(pieces(c, "&&"@)[0]), from, to));
    }
}

/// A constraint that asks for equality holds where both sides have a value, and the same; one
/// that asks for difference holds where both have a value, and not the same. A constraint that
/// asks for neither holds.
pub proof fn a_constraint_compares_two_sides(
    a: Str,
    b: Str,
    c: Str,
    from: EffectInstanceView,
    to: EffectInstanceView,
)
    ensures
        lacks(a + "=="@ + b, "&&"@) && first_behind(a, "=="@, b) && trimmed(a + "=="@ + b) == a
            + "=="@ + b ==> (constraint_holds(a + "=="@ + b, from, to) <==> names(a, from, to)
            is Some && names(a, from, to) == names(b, from, to)),
        lacks(a + "!="@ + b, "&&"@) && lacks(a + "!="@ + b, "=="@) && first_behind(a, "!="@, b)
            && trimmed(a + "!="@ + b) == a + "!="@ + b ==> (constraint_holds(
            a + "!="@ + b,
            from,
            to,
        ) <==> names(a, from, to) is Some && names(b, from, to) is Some && names(a, from, to)
            != names(b, from, to)),
        lacks(c, "&&"@) && lacks(trimmed(c), "=="@) && lacks(trimmed(c), "!="@)
            ==> constraint_holds(c, from, to),
{
    lemma_names(a, from, to);
    lemma_names(b, from, to);
    let same = a + "=="@ + b;
    let other = a + "!="@ + b;
    if lacks(same, "&&"@) && first_behind(a, "=="@, b) && trimmed(same) == same {
        lemma_one_condition(same, from, to);
        a_cut_parts_a_text_at_its_first_mark(a, "=="@, b, same);
        assert(clause_parts(same) == Some((trimmed(a), true, trimmed(b))));
    }
    if lacks(other, "&&"@) && lacks(other, "=="@) && first_behind(a, "!="@, b) && trimmed(other)
        == other {
        lemma_one_condition(other, from, to);
        a_cut_parts_a_text_at_its_first_mark(a, "!="@, b, other);
        a_cut_parts_a_text_at_its_first_mark(a, "=="@, b, other);
        assert(clause_parts(other) == Some((trimmed(a), false, trimmed(b))));
    }
    if lacks(c, "&&"@) && lacks(trimmed(c), "=="@) && lacks(trimmed(c), "!="@) {
        lemma_one_condition(c, from, to);
        a_cut_parts_a_text_at_its_first_mark(a, "=="@, b, trimmed(c));
        a_cut_parts_a_text_at_its_first_mark(a, "!="@, b, trimmed(c));
    }
}

} // verus!
