//! How the names of jobs are brought into one form, and what provenance a run claims.
use crate::adapters::{provenance_edge, AdapterMapView};
use crate::github::{
    claim_of, claimed_edges, counts_as, fact_from, gathered, normalized_run, record_of, rule_for,
    slug_of, slugged, FactView, JobView, JobsView, RunView,
};
use crate::laws::bundles::{creates_artifact, provenance_leads_to_what_created_the_artifact};
use crate::laws::importing::{counts, lemma_gathered_seen};
use crate::laws::texts::stripping_takes_away_one_character;
use crate::observation::{all_effects, ObservedEdgeView, RecordView};
use crate::search::lemma_concat_contains;
use crate::text::{ascii_lower, decimal, is_alphanumeric, Str};
use vstd::prelude::*;

verus! {

/// Whether a character is a letter or a digit.
pub open spec fn is_word(c: char) -> bool {
    ('a' <= c && c <= 'z') || ('A' <= c && c <= 'Z') || ('0' <= c && c <= '9')
}

/// Whether a text is made of letters and digits alone.
pub open spec fn all_words(s: Str) -> bool {
    forall|i: int| 0 <= i < s.len() ==> is_word(#[trigger] s[i])
}

/// Whether a text holds no letter and no digit.
pub open spec fn no_words(s: Str) -> bool {
    forall|i: int| 0 <= i < s.len() ==> !is_word(#[trigger] s[i])
}

/// A text with its capitals made small.
pub open spec fn small(s: Str) -> Str {
    Seq::new(
        s.len(),
        |i: int|
            if 'A' <= s[i] && s[i] <= 'Z' {
                (s[i] as u8 + 32) as char
            } else {
                s[i]
            },
    )
}

proof fn lemma_run(name: Str, i: int, j: int)
    requires
        0 <= i < j <= name.len(),
        forall|k: int| i <= k < j ==> !is_word(#[trigger] name[k]),
    ensures
        slugged(name, j).1,
        slugged(name, i).1 ==> slugged(name, j).0 == slugged(name, i).0,
        !slugged(name, i).1 ==> slugged(name, j).0 == slugged(name, i).0.push('_'),
    decreases j - i,
{
    assert(!is_word(name[j - 1]));
    assert(is_alphanumeric(name[j - 1]) == is_word(name[j - 1]));
    if j > i + 1 {
        lemma_run(name, i, j - 1);
    }
}

proof fn lemma_word(name: Str, i: int, j: int)
    requires
        0 <= i < j <= name.len(),
        forall|k: int| i <= k < j ==> is_word(#[trigger] name[k]),
    ensures
        !slugged(name, j).1,
        slugged(name, j).0 == slugged(name, i).0 + small(name.subrange(i, j)),
    decreases j - i,
{
    assert(is_word(name[j - 1]));
    assert(is_alphanumeric(name[j - 1]) == is_word(name[j - 1]));
    let w = name.subrange(i, j);
    if j > i + 1 {
        lemma_word(name, i, j - 1);
        let v = name.subrange(i, j - 1);
        assert(w =~= v.push(name[j - 1]));
        assert(small(w) =~= small(v).push(ascii_lower(name[j - 1])));
        assert(slugged(name, j).0 =~= slugged(name, i).0 + small(w));
    } else {
        assert(w =~= seq![name[i]]);
        assert(small(w) =~= seq![ascii_lower(name[i])]);
        assert(slugged(name, j).0 =~= slugged(name, i).0 + small(w));
    }
}

proof fn lemma_small_ends(w: Str)
    requires
        all_words(w),
        w.len() > 0,
    ensures
        small(w).len() == w.len(),
        small(w)[0] != '_',
        small(w).last() != '_',
{
    assert(is_word(w[0]));
    assert(is_word(w[w.len() - 1]));
    assert('_' as int == 95);
    if 'A' <= w[0] && w[0] <= 'Z' {
        assert((w[0] as u8 + 32) as char as int == w[0] as int + 32);
    }
    let l = w[w.len() - 1];
    if 'A' <= l && l <= 'Z' {
        assert((l as u8 + 32) as char as int == l as int + 32);
    }
}

/// The slug of a single word, with anything around it that is no word, is the word in small
/// letters.
pub proof fn the_slug_of_a_word(p: Str, w: Str, q: Str)
    requires
        no_words(p),
        all_words(w),
        no_words(q),
        w.len() > 0,
    ensures
        slug_of(p + w + q) == small(w),
{
    let name = p + w + q;
    let a = p.len() as int;
    let b = a + w.len();
    let n = name.len() as int;
    let none = Seq::<char>::empty();
    assert(name.subrange(a, b) =~= w);
    assert forall|k: int| 0 <= k < a implies !is_word(#[trigger] name[k]) by {
        assert(name[k] == p[k]);
    }
    assert forall|k: int| a <= k < b implies is_word(#[trigger] name[k]) by {
        assert(name[k] == w[k - a]);
    }
    assert forall|k: int| b <= k < n implies !is_word(#[trigger] name[k]) by {
        assert(name[k] == q[k - b]);
    }
    let front = slugged(name, a).0;
    if a > 0 {
        lemma_run(name, 0, a);
        assert(front =~= seq!['_']);
    } else {
        assert(front =~= none);
    }
    lemma_word(name, a, b);
    let back: Str = if b < n {
        seq!['_']
    } else {
        none
    };
    if b < n {
        lemma_run(name, b, n);
    }
    assert(slugged(name, n).0 =~= front + small(w) + back);
    lemma_small_ends(w);
    stripping_takes_away_one_character(front, small(w), back, '_');
}

/// The slug of two words, with anything around and between them that is no word, is the two in
/// small letters with one underscore between them.
pub proof fn the_slug_of_two_words(p: Str, v: Str, s: Str, w: Str, q: Str)
    requires
        no_words(p),
        all_words(v),
        no_words(s),
        all_words(w),
        no_words(q),
        v.len() > 0,
        s.len() > 0,
        w.len() > 0,
    ensures
        slug_of(p + v + s + w + q) == small(v) + seq!['_'] + small(w),
{
    let name = p + v + s + w + q;
    let a = p.len() as int;
    let b = a + v.len();
    let c = b + s.len();
    let d = c + w.len();
    let n = name.len() as int;
    let none = Seq::<char>::empty();
    assert(name.subrange(a, b) =~= v);
    assert(name.subrange(c, d) =~= w);
    assert forall|k: int| 0 <= k < a implies !is_word(#[trigger] name[k]) by {
        assert(name[k] == p[k]);
    }
    assert forall|k: int| a <= k < b implies is_word(#[trigger] name[k]) by {
        assert(name[k] == v[k - a]);
    }
    assert forall|k: int| b <= k < c implies !is_word(#[trigger] name[k]) by {
        assert(name[k] == s[k - b]);
    }
    assert forall|k: int| c <= k < d implies is_word(#[trigger] name[k]) by {
        assert(name[k] == w[k - c]);
    }
    assert forall|k: int| d <= k < n implies !is_word(#[trigger] name[k]) by {
        assert(name[k] == q[k - d]);
    }
    let front = slugged(name, a).0;
    if a > 0 {
        lemma_run(name, 0, a);
        assert(front =~= seq!['_']);
    } else {
        assert(front =~= none);
    }
    lemma_word(name, a, b);
    lemma_run(name, b, c);
    lemma_word(name, c, d);
    let back: Str = if d < n {
        seq!['_']
    } else {
        none
    };
    if d < n {
        lemma_run(name, d, n);
    }
    let middle = small(v) + seq!['_'] + small(w);
    assert(slugged(name, n).0 =~= front + middle + back);
    lemma_small_ends(v);
    lemma_small_ends(w);
    assert(middle[0] == small(v)[0]);
    assert(middle.last() == small(w).last());
    stripping_takes_away_one_character(front, middle, back, '_');
}

// ---------------------------------------------------------------------------
// Provenance
// ---------------------------------------------------------------------------
proof fn lemma_claims_grow(
    run: RunView,
    jobs: Seq<JobView>,
    facts: Seq<FactView>,
    map: AdapterMapView,
    n: int,
    i: int,
    claim: (Str, Str),
)
    requires
        0 <= i < n <= jobs.len(),
        counts(map, jobs, i),
        claim_of(
            facts,
            jobs[i],
            record_of(run, map, facts, jobs[i], rule_for(map, jobs[i].name)->0),
        ).contains(claim),
    ensures
        gathered(run, jobs, facts, map, n).claims.contains(claim),
    decreases n,
{
    let g = gathered(run, jobs, facts, map, n - 1);
    let job = jobs[n - 1];
    if rule_for(map, job.name) is Some {
        let rule = rule_for(map, job.name)->0;
        lemma_gathered_seen(run, jobs, facts, map, n - 1, rule.step);
        lemma_concat_contains(
            g.claims,
            claim_of(facts, job, record_of(run, map, facts, job, rule)),
            claim,
        );
    }
    if i < n - 1 {
        lemma_claims_grow(run, jobs, facts, map, n - 1, i, claim);
    }
}

proof fn lemma_claimed_edges(
    rs: Seq<RecordView>,
    claims: Seq<(Str, Str)>,
    n: int,
    c: int,
    e: ObservedEdgeView,
)
    requires
        0 <= c < n <= claims.len(),
        provenance_edge(rs, claims[c].0, claims[c].1).contains(e),
    ensures
        claimed_edges(rs, claims, n).contains(e),
    decreases n,
{
    lemma_concat_contains(
        claimed_edges(rs, claims, n - 1),
        provenance_edge(rs, claims[n - 1].0, claims[n - 1].1),
        e,
    );
    if c < n - 1 {
        lemma_claimed_edges(rs, claims, n - 1, c, e);
    }
}

/// Where the fact of a job that counts claims provenance from a digest, and something observed
/// creates the artifact of that digest, an edge leads from the first effect of the job to what
/// created it.
pub proof fn claimed_provenance_gives_an_edge(
    run: RunView,
    jobs: JobsView,
    facts: Seq<FactView>,
    map: AdapterMapView,
    i: int,
    k: int,
)
    requires
        0 <= i < jobs.jobs.len(),
        counts(map, jobs.jobs, i),
        rule_for(map, jobs.jobs[i].name)->0.effects.len() > 0,
        fact_from(facts, jobs.jobs[i].name, 0) is Some,
        fact_from(facts, jobs.jobs[i].name, 0)->0.provenance is Some,
        ({
            let rs = gathered(run, jobs.jobs, facts, map, jobs.jobs.len() as int).records;
            0 <= k < all_effects(rs).len() && creates_artifact(
                all_effects(rs)[k],
                fact_from(facts, jobs.jobs[i].name, 0)->0.provenance->0.build_digest,
            )
        }),
    ensures
        exists|e: ObservedEdgeView| #[trigger]
            normalized_run(run, jobs, facts, map).edges.contains(e) && e.ty == "derives_from"@
                && e.from == "gha-"@ + decimal(jobs.jobs[i].id as nat) + "."@ + decimal(0),
{
    let js = jobs.jobs;
    let n = js.len() as int;
    let g = gathered(run, js, facts, map, n);
    let rule = rule_for(map, js[i].name)->0;
    let r = record_of(run, map, facts, js[i], rule);
    let digest = fact_from(facts, js[i].name, 0)->0.provenance->0.build_digest;
    let claim = (r.effects[0].id, digest);
    let claims = claim_of(facts, js[i], r);
    assert(r.effects.len() > 0);
    assert(claims[0] == claim);
    assert(claims.contains(claim));
    lemma_claims_grow(run, js, facts, map, n, i, claim);
    let c = g.claims.index_of(claim);
    provenance_leads_to_what_created_the_artifact(g.records, claim.0, claim.1);
    let found = provenance_edge(g.records, claim.0, claim.1);
    assert(creates_artifact(all_effects(g.records)[k], digest));
    assert(found.len() == 1);
    assert(found.contains(found[0]));
    lemma_claimed_edges(g.records, g.claims, g.claims.len() as int, c, found[0]);
    assert(normalized_run(run, jobs, facts, map).edges.contains(found[0]));
}

} // verus!
