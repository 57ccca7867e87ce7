//! How a specification becomes a net, and how its tokens move.
use crate::index::{assigned, distinct_keys, lemma_assigned_old, lemma_lookup_at};
use crate::model::{BindMode, PlaceView, SpecView};
use crate::net::{
    attested_upto, compiled, index_upto, initial_token, is_final_marking, joined_token,
    joined_tokens, lacking_from, made_token, occurrences, positions, NetView,
};
use crate::ordered::{a_lookup_gives_back_what_was_put, keys_of, lookup, put};
use crate::search::{lemma_push_contains, minted, unattested_from};
use crate::text::Str;
use vstd::prelude::*;

verus! {

// ---------------------------------------------------------------------------
// The net of a specification
// ---------------------------------------------------------------------------
/// Whether no two places have the same name.
pub open spec fn places_differ(spec: SpecView) -> bool {
    forall|i: int, j: int|
        0 <= i < j < spec.places.len() ==> (#[trigger] spec.places[i]).id != (
        #[trigger] spec.places[j]).id
}

/// Whether one of the places has this name.
pub open spec fn is_place(ps: Seq<PlaceView>, name: Str) -> bool {
    exists|i: int| 0 <= i < ps.len() && (#[trigger] ps[i]).id == name
}

proof fn lemma_index(ps: Seq<PlaceView>, n: int)
    requires
        0 <= n <= ps.len() <= usize::MAX,
        forall|i: int, j: int|
            0 <= i < j < ps.len() ==> (#[trigger] ps[i]).id != (#[trigger] ps[j]).id,
    ensures
        index_upto(ps, n).len() == n,
        forall|i: int| 0 <= i < n ==> #[trigger] index_upto(ps, n)[i] == (ps[i].id, i as usize),
    decreases n,
{
    if n > 0 {
        lemma_index(ps, n - 1);
        let m = index_upto(ps, n - 1);
        lemma_assigned_last(m, ps[n - 1].id, (n - 1) as usize);
    }
}

proof fn lemma_assigned_last(m: Seq<(Str, usize)>, k: Str, v: usize)
    requires
        forall|i: int| 0 <= i < m.len() ==> (#[trigger] m[i]).0 != k,
    ensures
        assigned(m, k, v) == m.push((k, v)),
    decreases m.len(),
{
    if m.len() > 0 {
        assert(m[0].0 != k);
        let d = m.drop_first();
        assert(forall|j: int| 0 <= j < d.len() ==> #[trigger] d[j] == m[j + 1]);
        lemma_assigned_last(d, k, v);
        assert(assigned(m, k, v) =~= m.push((k, v)));
    } else {
        assert(assigned(m, k, v) =~= m.push((k, v)));
    }
}

proof fn lemma_place_at(ps: Seq<PlaceView>, i: int)
    requires
        0 <= i < ps.len() <= usize::MAX,
        forall|i: int, j: int|
            0 <= i < j < ps.len() ==> (#[trigger] ps[i]).id != (#[trigger] ps[j]).id,
    ensures
        lookup(index_upto(ps, ps.len() as int), ps[i].id) == Some(i as usize),
{
    let m = index_upto(ps, ps.len() as int);
    lemma_index(ps, ps.len() as int);
    assert(distinct_keys(m)) by {
        assert forall|a: int, b: int| 0 <= a < b < m.len() implies (#[trigger] m[a]).0 != (
        #[trigger] m[b]).0 by {
            assert(ps[a].id != ps[b].id);
        }
    }
    lemma_lookup_at(m, i);
}

proof fn lemma_positions(ps: Seq<PlaceView>, names: Seq<Str>, n: int)
    requires
        ps.len() <= usize::MAX,
        0 <= n <= names.len(),
        forall|i: int, j: int|
            0 <= i < j < ps.len() ==> (#[trigger] ps[i]).id != (#[trigger] ps[j]).id,
        forall|k: int|
            0 <= k < names.len() ==> is_place(ps, #[trigger] names[k]),
    ensures
        positions(index_upto(ps, ps.len() as int), names, n).len() == n,
        forall|k: int|
            0 <= k < n ==> (#[trigger] positions(
                index_upto(ps, ps.len() as int),
                names,
                n,
            )[k]) < ps.len() && ps[positions(
                index_upto(ps, ps.len() as int),
                names,
                n,
            )[k] as int].id == names[k],
    decreases n,
{
    if n > 0 {
        lemma_positions(ps, names, n - 1);
        assert(is_place(ps, names[n - 1]));
        let i = choose|i: int| 0 <= i < ps.len() && (#[trigger] ps[i]).id == names[n - 1];
        lemma_place_at(ps, i);
    }
}

/// A net has the places of its specification, with their names, what they carry and as many
/// tokens as are declared, and its transitions, with their names, principals, guards and
/// effects. A transition takes from and puts into the places that it names, one for each time
/// that it names one; the final places are the ones that are named final.
pub proof fn a_net_is_what_is_declared(spec: SpecView, t: int, k: int, p: int)
    requires
        spec.places.len() <= usize::MAX,
        places_differ(spec),
        0 <= t < spec.transitions.len(),
    ensures
        ({
            let net = compiled(spec);
            let tv = spec.transitions[t];
            let ct = net.transitions[t];
            &&& net.spec == spec
            &&& net.transitions.len() == spec.transitions.len()
            &&& net.place_names.len() == spec.places.len()
            &&& net.initial.len() == spec.places.len()
            &&& net.place_carries.len() == spec.places.len()
            &&& 0 <= p < spec.places.len() ==> net.place_names[p] == spec.places[p].id
                && net.place_carries[p] == spec.places[p].carries && net.initial[p].len()
                == spec.places[p].tokens.len()
            &&& t <= usize::MAX ==> ct.index == t
            &&& ct.id == tv.id && ct.principal == tv.principal && ct.guard == tv.guard && ct.emits
                == tv.emits
            &&& ct.binds.len() == tv.binds.len()
            &&& 0 <= k < tv.binds.len() ==> ct.binds[k] == tv.binds[k].0
            &&& (forall|c: int|
                0 <= c < tv.consumes.len() ==> is_place(spec.places, #[trigger] tv.consumes[c])) ==> ct.consumes.len() == tv.consumes.len()
                && (0 <= k < tv.consumes.len() ==> ct.consumes[k] < spec.places.len()
                && spec.places[ct.consumes[k] as int].id == tv.consumes[k])
            &&& (forall|c: int|
                0 <= c < tv.produces.len() ==> is_place(spec.places, #[trigger] tv.produces[c])) ==> ct.produces.len() == tv.produces.len()
                && (0 <= k < tv.produces.len() ==> ct.produces[k] < spec.places.len()
                && spec.places[ct.produces[k] as int].id == tv.produces[k])
            &&& (forall|c: int|
                0 <= c < spec.final_places.len() ==> is_place(spec.places, #[trigger] spec.final_places[c])) ==> net.finals.len()
                == spec.final_places.len() && (0 <= k < spec.final_places.len() ==> net.finals[k]
                < spec.places.len() && spec.places[net.finals[k] as int].id
                == spec.final_places[k])
        }),
{
    let net = compiled(spec);
    let tv = spec.transitions[t];
    let ps = spec.places;
    if forall|c: int|
        0 <= c < tv.consumes.len() ==> is_place(ps, #[trigger] tv.consumes[c]) {
        lemma_positions(ps, tv.consumes, tv.consumes.len() as int);
    }
    if forall|c: int|
        0 <= c < tv.produces.len() ==> is_place(ps, #[trigger] tv.produces[c]) {
        lemma_positions(ps, tv.produces, tv.produces.len() as int);
    }
    if forall|c: int|
        0 <= c < spec.final_places.len() ==> is_place(ps, #[trigger] spec.final_places[c]) {
        lemma_positions(ps, spec.final_places, spec.final_places.len() as int);
    }
}

proof fn lemma_attested_names(binds: Seq<(Str, BindMode)>, n: int, x: Str)
    requires
        0 <= n <= binds.len(),
    ensures
        attested_upto(binds, n).contains(x) <==> exists|k: int|
            0 <= k < n && #[trigger] binds[k] == (x, BindMode::Attested),
    decreases n,
{
    if n > 0 {
        lemma_attested_names(binds, n - 1, x);
        lemma_push_contains(attested_upto(binds, n - 1), binds[n - 1].0, x);
    }
}

/// A transition takes from evidence what it binds as attested, and nothing else; a token of the
/// start holds its type and its value.
pub proof fn what_a_net_takes_from_evidence(spec: SpecView, t: int, x: Str, p: int, k: int)
    requires
        0 <= t < spec.transitions.len(),
    ensures
        compiled(spec).transitions[t].attested.contains(x) <==> exists|i: int|
            0 <= i < spec.transitions[t].binds.len() && #[trigger] spec.transitions[t].binds[i] == (
                x,
                BindMode::Attested,
            ),
        0 <= p < spec.places.len() && 0 <= k < spec.places[p].tokens.len() ==> lookup(
            compiled(spec).initial[p][k],
            "_type"@,
        ) == Some(spec.places[p].tokens[k].ty) && lookup(compiled(spec).initial[p][k], "_value"@)
            == Some(spec.places[p].tokens[k].value),
        compiled(spec).evidence.len() == 0,
{
    let binds = spec.transitions[t].binds;
    lemma_attested_names(binds, binds.len() as int, x);
    if 0 <= p < spec.places.len() && 0 <= k < spec.places[p].tokens.len() {
        let token = spec.places[p].tokens[k];
        reveal_strlit("_type");
        reveal_strlit("_value");
        assert("_type"@ != "_value"@) by {
            assert("_type"@.len() == 5);
            assert("_value"@.len() == 6);
        }
        let first = put(Seq::<(Str, Str)>::empty(), "_type"@, token.ty);
        a_lookup_gives_back_what_was_put(Seq::<(Str, Str)>::empty(), "_type"@, token.ty, "_type"@);
        a_lookup_gives_back_what_was_put(first, "_value"@, token.value, "_type"@);
        a_lookup_gives_back_what_was_put(first, "_value"@, token.value, "_value"@);
    }
}

// ---------------------------------------------------------------------------
// Tokens
// ---------------------------------------------------------------------------
/// A transition lacks a token where some place holds fewer than it takes from there; the first
/// such place is told.
pub proof fn what_a_transition_lacks(
    m: Seq<Seq<Seq<(Str, Str)>>>,
    consumes: Seq<usize>,
    p: int,
)
    requires
        0 <= p,
    ensures
        lacking_from(m, consumes, p) is None <==> forall|q: int|
            p <= q < m.len() ==> (#[trigger] m[q]).len() >= occurrences(
                consumes,
                q,
                consumes.len() as int,
            ),
        lacking_from(m, consumes, p) matches Some(q) ==> p <= q < m.len() && m[q].len()
            < occurrences(consumes, q, consumes.len() as int) && forall|r: int|
            p <= r < q ==> (#[trigger] m[r]).len() >= occurrences(
                consumes,
                r,
                consumes.len() as int,
            ),
    decreases m.len() - p,
{
    if p < m.len() && m[p].len() >= occurrences(consumes, p, consumes.len() as int) {
        what_a_transition_lacks(m, consumes, p + 1);
    }
}

/// A place is counted once for each time that it stands in a list.
pub proof fn places_are_counted_one_by_one(ps: Seq<usize>, q: usize, p: int)
    ensures
        occurrences(Seq::empty(), p, 0) == 0,
        occurrences(ps.push(q), p, (ps.len() + 1) as int) == occurrences(ps, p, ps.len() as int) + (if q
            == p {
            1nat
        } else {
            0nat
        }),
{
    lemma_occurrences_same(ps, ps.push(q), p, ps.len() as int);
}

proof fn lemma_occurrences_same(a: Seq<usize>, b: Seq<usize>, p: int, n: int)
    requires
        n <= a.len(),
        n <= b.len(),
        forall|i: int| 0 <= i < n ==> a[i] == b[i],
    ensures
        occurrences(a, p, n) == occurrences(b, p, n),
    decreases n,
{
    if n > 0 {
        lemma_occurrences_same(a, b, p, n - 1);
    }
}

/// Whether an entry of a token is one that a transition sees.
pub open spec fn is_seen(entry: (Str, Str)) -> bool {
    !(entry.0.len() > 0 && entry.0[0] == '_')
}

proof fn lemma_hidden(k: Str)
    ensures
        crate::text::has_prefix(k, "_"@) <==> k.len() > 0 && k[0] == '_',
{
    reveal_strlit("_");
    if k.len() > 0 && k[0] == '_' {
        assert(k.take(1) =~= "_"@);
    }
    if crate::text::has_prefix(k, "_"@) {
        assert(k.take(1)[0] == '_');
    }
}

proof fn lemma_joined_token(env: Seq<(Str, Str)>, token: Seq<(Str, Str)>, n: int)
    requires
        0 <= n <= token.len(),
    ensures
        joined_token(env, token, n) matches Some(out) ==> (forall|x: Str|
            (#[trigger] lookup(env, x)) is Some ==> lookup(out, x) == lookup(env, x)) && (forall|
            i: int,
        |
            0 <= i < n && is_seen(#[trigger] token[i]) ==> lookup(out, token[i].0) == Some(
                token[i].1,
            )) && (forall|x: Str|
            (#[trigger] lookup(out, x)) is Some && lookup(env, x) is None ==> exists|i: int|
                0 <= i < n && is_seen(#[trigger] token[i]) && token[i].0 == x),
    decreases n,
{
    if n > 0 {
        lemma_joined_token(env, token, n - 1);
        lemma_hidden(token[n - 1].0);
        if joined_token(env, token, n) is Some {
            let e = joined_token(env, token, n - 1)->0;
            let out = joined_token(env, token, n)->0;
            let k = token[n - 1].0;
            let v = token[n - 1].1;
            if is_seen(token[n - 1]) {
                assert forall|x: Str| (#[trigger] lookup(out, x)) == (if x == k {
                    Some(v)
                } else {
                    lookup(e, x)
                }) by {
                    a_lookup_gives_back_what_was_put(e, k, v, x);
                }
                assert forall|x: Str| (#[trigger] lookup(env, x)) is Some implies lookup(out, x)
                    == lookup(env, x) by {
                    assert(lookup(e, x) == lookup(env, x));
                }
                assert forall|i: int| 0 <= i < n && is_seen(#[trigger] token[i]) implies lookup(
                    out,
                    token[i].0,
                ) == Some(token[i].1) by {
                    if i < n - 1 {
                        assert(lookup(e, token[i].0) == Some(token[i].1));
                    }
                }
                assert forall|x: Str|
                    (#[trigger] lookup(out, x)) is Some && lookup(env, x) is None implies exists|
                    i: int,
                |
                    0 <= i < n && is_seen(#[trigger] token[i]) && token[i].0 == x by {
                    if x == k {
                        assert(is_seen(token[n - 1]));
                    } else {
                        assert(lookup(e, x) is Some);
                    }
                }
            }
        }
    }
}

proof fn lemma_unjoined_token(env: Seq<(Str, Str)>, token: Seq<(Str, Str)>, n: int)
    requires
        0 <= n <= token.len(),
        joined_token(env, token, n) is None,
    ensures
        exists|i: int| 0 <= i < n && is_seen(#[trigger] token[i]) && clashes(env, token, i),
    decreases n,
{
    if n > 0 {
        if joined_token(env, token, n - 1) is None {
            lemma_unjoined_token(env, token, n - 1);
        } else {
            lemma_joined_token(env, token, n - 1);
            lemma_hidden(token[n - 1].0);
            let e = joined_token(env, token, n - 1)->0;
            let k = token[n - 1].0;
            assert(lookup(e, k) is Some && lookup(e, k)->0 != token[n - 1].1);
            assert(is_seen(token[n - 1]));
            if lookup(env, k) is Some {
                assert(lookup(e, k) == lookup(env, k));
                assert(clashes(env, token, n - 1));
            } else {
                let i = choose|i: int|
                    0 <= i < n - 1 && is_seen(#[trigger] token[i]) && token[i].0 == k;
                assert(lookup(e, k) == Some(token[i].1));
                assert(clashes(env, token, n - 1));
            }
        }
    }
}

/// Whether an entry of a token has another value than what is known already, or than another
/// entry of the same name.
pub open spec fn clashes(env: Seq<(Str, Str)>, token: Seq<(Str, Str)>, i: int) -> bool {
    ||| lookup(env, token[i].0) is Some && lookup(env, token[i].0)->0 != token[i].1
    ||| exists|j: int|
        0 <= j < token.len() && is_seen(#[trigger] token[j]) && token[j].0 == token[i].0
            && token[j].1 != token[i].1
}

/// A token and what is known already go together where no entry that a transition sees has two
/// values; what is known then is what was known and what the token holds, and nothing else.
pub proof fn tokens_join_where_they_agree(env: Seq<(Str, Str)>, token: Seq<(Str, Str)>)
    ensures
        joined_token(env, token, token.len() as int) matches Some(out) ==> (forall|x: Str|
            (#[trigger] lookup(env, x)) is Some ==> lookup(out, x) == lookup(env, x)) && (forall|
            i: int,
        |
            0 <= i < token.len() && is_seen(#[trigger] token[i]) ==> lookup(out, token[i].0)
                == Some(token[i].1)) && (forall|x: Str|
            (#[trigger] lookup(out, x)) is Some && lookup(env, x) is None ==> exists|i: int|
                0 <= i < token.len() && is_seen(#[trigger] token[i]) && token[i].0 == x),
        joined_token(env, token, token.len() as int) is None <==> exists|i: int|
            0 <= i < token.len() && is_seen(#[trigger] token[i]) && clashes(env, token, i),
{
    let n = token.len() as int;
    lemma_joined_token(env, token, n);
    if joined_token(env, token, n) is None {
        lemma_unjoined_token(env, token, n);
    } else {
        let out = joined_token(env, token, n)->0;
        assert forall|i: int| 0 <= i < token.len() && is_seen(#[trigger] token[i]) implies !clashes(
            env,
            token,
            i,
        ) by {
            assert(lookup(out, token[i].0) == Some(token[i].1));
        }
    }
}

/// The tokens that a transition takes give what each of them holds, one after the other, from
/// nothing.
pub proof fn tokens_are_joined_one_by_one(
    m: Seq<Seq<Seq<(Str, Str)>>>,
    consumes: Seq<usize>,
    choice: Seq<usize>,
    n: int,
)
    requires
        0 <= n < consumes.len(),
        choice.len() == consumes.len(),
    ensures
        joined_tokens(m, consumes, choice, 0) == Some(Seq::<(Str, Str)>::empty()),
        joined_tokens(m, consumes, choice, n + 1) is Some <==> joined_tokens(m, consumes, choice, n)
            is Some && joined_token(
            joined_tokens(m, consumes, choice, n)->0,
            m[consumes[n] as int][choice[n] as int],
            m[consumes[n] as int][choice[n] as int].len() as int,
        ) is Some,
        joined_tokens(m, consumes, choice, n + 1) is Some ==> joined_tokens(
            m,
            consumes,
            choice,
            n + 1,
        ) == joined_token(
            joined_tokens(m, consumes, choice, n)->0,
            m[consumes[n] as int][choice[n] as int],
            m[consumes[n] as int][choice[n] as int].len() as int,
        ),
{
}

/// A token that a transition makes holds the values of what its place carries, and nothing else.
pub proof fn a_made_token_holds_what_its_place_carries(
    carries: Seq<Str>,
    env: Seq<(Str, Str)>,
    n: int,
    k: Str,
)
    requires
        0 <= n <= carries.len(),
    ensures
        lookup(made_token(carries, env, n), k) == (if exists|i: int|
            0 <= i < n && #[trigger] carries[i] == k {
            lookup(env, k)
        } else {
            None
        }),
    decreases n,
{
    if n > 0 {
        a_made_token_holds_what_its_place_carries(carries, env, n - 1, k);
        match lookup(env, carries[n - 1]) {
            Some(v) => {
                a_lookup_gives_back_what_was_put(
                    made_token(carries, env, n - 1),
                    carries[n - 1],
                    v,
                    k,
                );
            },
            None => {},
        }
        if k == carries[n - 1] {
            assert(carries[n - 1] == k);
        }
    }
}

/// A marking is final where some final place holds a token.
pub proof fn a_marking_is_final_by_its_tokens(
    finals: Seq<usize>,
    m: Seq<Seq<Seq<(Str, Str)>>>,
    i: int,
)
    ensures
        0 <= i < finals.len() && m[finals[i] as int].len() > 0 ==> is_final_marking(finals, m),
        is_final_marking(finals, m) ==> exists|k: int|
            0 <= k < finals.len() && m[(#[trigger] finals[k]) as int].len() > 0,
{
}

// ---------------------------------------------------------------------------
// Values
// ---------------------------------------------------------------------------
/// Minting gives a value to each variable that has none, from the names in turn, and leaves all
/// others alone: what is bound already stays, and no two variables share a minted name.
pub proof fn minting_gives_values_where_there_are_none(
    env: Seq<(Str, Str)>,
    binds: Seq<Str>,
    names: Seq<Str>,
    n: int,
    x: Str,
)
    requires
        0 <= n <= binds.len(),
    ensures
        minted(env, binds, names, n).1 <= n,
        lookup(env, x) is Some ==> lookup(minted(env, binds, names, n).0, x) == lookup(env, x),
        lookup(env, x) is None && !(exists|k: int| 0 <= k < n && #[trigger] binds[k] == x)
            ==> lookup(minted(env, binds, names, n).0, x) is None,
        lookup(env, x) is None && (exists|k: int| 0 <= k < n && #[trigger] binds[k] == x)
            ==> exists|j: int|
            0 <= j < minted(env, binds, names, n).1 && lookup(minted(env, binds, names, n).0, x)
                == Some(#[trigger] names[j]),
    decreases n,
{
    if n > 0 {
        minting_gives_values_where_there_are_none(env, binds, names, n - 1, x);
        let p = minted(env, binds, names, n - 1);
        let b = binds[n - 1];
        a_lookup_gives_back_what_was_put(p.0, b, names[p.1 as int], x);
        if lookup(env, x) is None && exists|k: int| 0 <= k < n && #[trigger] binds[k] == x {
            if exists|k: int| 0 <= k < n - 1 && #[trigger] binds[k] == x {
                let j = choose|j: int| 0 <= j < p.1 && lookup(p.0, x) == Some(#[trigger] names[j]);
                assert(0 <= j < minted(env, binds, names, n).1);
                assert(lookup(minted(env, binds, names, n).0, x) == Some(names[j]));
            } else {
                assert(b == x);
                assert(lookup(p.0, x) is None);
                assert(lookup(minted(env, binds, names, n).0, x) == Some(names[p.1 as int]));
            }
        }
    }
}

/// Evidence is lacking for a variable that has no value, or one that nothing attests; the first
/// such variable is told.
pub proof fn what_lacks_evidence(
    names: Seq<Str>,
    env: Seq<(Str, Str)>,
    evidence: Seq<Str>,
    i: int,
)
    requires
        0 <= i,
    ensures
        unattested_from(names, env, evidence, i) is None <==> forall|k: int|
            i <= k < names.len() ==> (lookup(env, #[trigger] names[k]) matches Some(v)
                && evidence.contains(v)),
        unattested_from(names, env, evidence, i) matches Some(p) ==> exists|k: int|
            i <= k < names.len() && p.0 == #[trigger] names[k] && (match lookup(env, names[k]) {
                Some(v) => p.1 == v && !evidence.contains(v),
                None => p.1 == "no value"@,
            }) && forall|j: int|
                i <= j < k ==> (lookup(env, #[trigger] names[j]) matches Some(v)
                    && evidence.contains(v)),
    decreases names.len() - i,
{
    if i < names.len() {
        what_lacks_evidence(names, env, evidence, i + 1);
        if unattested_from(names, env, evidence, i) is Some {
            let p = unattested_from(names, env, evidence, i)->0;
            if lookup(env, names[i]) is Some && evidence.contains(lookup(env, names[i])->0) {
                let k = choose|k: int|
                    i + 1 <= k < names.len() && p.0 == #[trigger] names[k] && (match lookup(
                        env,
                        names[k],
                    ) {
                        Some(v) => p.1 == v && !evidence.contains(v),
                        None => p.1 == "no value"@,
                    }) && forall|j: int|
                        i + 1 <= j < k ==> (lookup(env, #[trigger] names[j]) matches Some(v)
                            && evidence.contains(v));
                assert(p.0 == names[k]);
            } else {
                assert(p.0 == names[i]);
            }
        }
    }
}

} // verus!
