//! Text as sequences of characters: comparison, searching, splitting, trimming, joining
//! and decimal rendering, each proved against a specification over `Seq<char>`.

use vstd::prelude::*;
use vstd::utf8::{encode_utf8, encode_utf8_decode_utf8};

verus! {

/// The characters of a piece of text.
pub type Str = Seq<char>;

/// `String::push` appends one character to the end of the text.
pub assume_specification[ String::push ](s: &mut String, c: char)
    ensures
        final(s)@ == old(s)@.push(c),
;

/// Whether a character has the Unicode `White_Space` property.
pub open spec fn is_white(c: char) -> bool {
    let n = c as u32;
    ||| 0x9 <= n <= 0xd
    ||| n == 0x20
    ||| n == 0x85
    ||| n == 0xa0
    ||| n == 0x1680
    ||| 0x2000 <= n <= 0x200a
    ||| n == 0x2028
    ||| n == 0x2029
    ||| n == 0x202f
    ||| n == 0x205f
    ||| n == 0x3000
}

/// Calls `char::is_whitespace`, which tells whether the character has the Unicode
/// `White_Space` property: whether it is one of those that [`is_white`] lists.
#[verifier::external_body]
fn char_is_white(c: char) -> (r: bool)
    ensures
        r == is_white(c),
{
    c.is_whitespace()
}

/// The Unicode lower-case mapping of a piece of text.
pub uninterp spec fn lowercase(s: Str) -> Str;

/// Calls `str::to_lowercase`; the result depends on the text alone.
#[verifier::external_body]
pub(crate) fn lowercase_text(s: &str) -> (r: String)
    ensures
        r@ == lowercase(s@),
{
    s.to_lowercase()
}

// ---------------------------------------------------------------------------
// Conversions
// ---------------------------------------------------------------------------
/// The characters of `s`, in order.
pub fn chars_of(s: &str) -> (r: Vec<char>)
    ensures
        r@ == s@,
{
    let mut out: Vec<char> = Vec::new();
    for c in it: s.chars()
        invariant
            out@ == s@.take(it.index() as int),
            it.seq() == s@,
    {
        out.push(c);
    }
    assert(s@.take(s@.len() as int) =~= s@);
    out
}

/// The text made of the characters `v[from..to]`.
pub fn string_between(v: &Vec<char>, from: usize, to: usize) -> (r: String)
    requires
        from <= to <= v.len(),
    ensures
        r@ == v@.subrange(from as int, to as int),
{
    let mut out = String::new();
    let mut i: usize = from;
    assert(v@.subrange(from as int, from as int) =~= Seq::<char>::empty());
    while i < to
        invariant
            from <= i <= to <= v.len(),
            out@ == v@.subrange(from as int, i as int),
        decreases to - i,
    {
        out.push(v[i]);
        assert(v@.subrange(from as int, i + 1) =~= v@.subrange(from as int, i as int).push(
            v@[i as int],
        ));
        i = i + 1;
    }
    out
}

/// The text made of the characters `v`.
pub fn string_of(v: &Vec<char>) -> (r: String)
    ensures
        r@ == v@,
{
    let r = string_between(v, 0, v.len());
    assert(v@.subrange(0, v@.len() as int) =~= v@);
    r
}

// ---------------------------------------------------------------------------
// Equality and order
// ---------------------------------------------------------------------------
/// Whether two pieces of text hold the same characters.
pub fn same_text(a: &str, b: &str) -> (r: bool)
    ensures
        r == (a@ == b@),
{
    proof {
        encode_utf8_decode_utf8(a@);
        encode_utf8_decode_utf8(b@);
    }
    let x = a.as_bytes();
    let y = b.as_bytes();
    if x.len() != y.len() {
        return false;
    }
    let mut i: usize = 0;
    while i < x.len()
        invariant
            i <= x.len(),
            x.len() == y.len(),
            x@ == encode_utf8(a@),
            y@ == encode_utf8(b@),
            forall|k: int| 0 <= k < i ==> #[trigger] x@[k] == y@[k],
        decreases x.len() - i,
    {
        if x[i] != y[i] {
            return false;
        }
        i = i + 1;
    }
    assert(x@ =~= y@);
    true
}

/// Lexicographic order by code point: the order in which the standard library sorts text.
pub open spec fn before(a: Str, b: Str) -> bool
    decreases a.len(),
{
    if b.len() == 0 {
        false
    } else if a.len() == 0 {
        true
    } else if a[0] != b[0] {
        a[0] < b[0]
    } else {
        before(a.drop_first(), b.drop_first())
    }
}

/// Whether `a` comes strictly before `b`.
pub fn text_before(a: &str, b: &str) -> (r: bool)
    ensures
        r == before(a@, b@),
{
    let mut y = b.chars();
    assert(a@.skip(0) =~= a@ && b@.skip(0) =~= b@);
    for c in it: a.chars()
        invariant
            it.seq() == a@,
            it.index() <= b@.len(),
            vstd::std_specs::iter::IteratorSpec::remaining(&y) == b@.skip(it.index() as int),
            before(a@, b@) == before(a@.skip(it.index() as int), b@.skip(it.index() as int)),
    {
        let ghost k = it.index() as int;
        assert(a@.skip(k)[0] == a@[k]);
        assert(a@.skip(k).drop_first() =~= a@.skip(k + 1));
        match y.next() {
            Some(d) => {
                assert(b@.skip(k)[0] == d);
                assert(b@.skip(k).drop_first() =~= b@.skip(k + 1));
                if c != d {
                    return c < d;
                }
            },
            None => {
                return false;
            },
        }
    }
    match y.next() {
        Some(_) => true,
        None => false,
    }
}

pub proof fn lemma_before_irreflexive(a: Str)
    ensures
        !before(a, a),
    decreases a.len(),
{
    if a.len() > 0 {
        lemma_before_irreflexive(a.drop_first());
    }
}

pub proof fn lemma_before_transitive(a: Str, b: Str, c: Str)
    requires
        before(a, b),
        before(b, c),
    ensures
        before(a, c),
    decreases a.len(),
{
    if a.len() > 0 && a[0] == b[0] && b[0] == c[0] {
        lemma_before_transitive(a.drop_first(), b.drop_first(), c.drop_first());
    }
}

pub proof fn lemma_before_total(a: Str, b: Str)
    ensures
        a == b || before(a, b) || before(b, a),
    decreases a.len(),
{
    if a.len() > 0 && b.len() > 0 && a[0] == b[0] {
        lemma_before_total(a.drop_first(), b.drop_first());
        if a.drop_first() == b.drop_first() {
            assert(a =~= seq![a[0]] + a.drop_first());
            assert(b =~= seq![b[0]] + b.drop_first());
        }
    } else if a.len() == 0 && b.len() == 0 {
        assert(a =~= b);
    }
}

pub proof fn lemma_before_asymmetric(a: Str, b: Str)
    requires
        before(a, b),
    ensures
        !before(b, a),
        a != b,
{
    lemma_before_irreflexive(a);
    if before(b, a) {
        lemma_before_transitive(a, b, a);
    }
}

// ---------------------------------------------------------------------------
// Concatenation
// ---------------------------------------------------------------------------
pub fn cat2(a: &str, b: &str) -> (r: String)
    ensures
        r@ == a@ + b@,
{
    let mut s = a.to_string();
    s.append(b);
    s
}

pub fn cat3(a: &str, b: &str, c: &str) -> (r: String)
    ensures
        r@ == a@ + b@ + c@,
{
    let mut s = cat2(a, b);
    s.append(c);
    s
}

pub fn cat4(a: &str, b: &str, c: &str, d: &str) -> (r: String)
    ensures
        r@ == a@ + b@ + c@ + d@,
{
    let mut s = cat3(a, b, c);
    s.append(d);
    s
}

pub fn cat5(a: &str, b: &str, c: &str, d: &str, e: &str) -> (r: String)
    ensures
        r@ == a@ + b@ + c@ + d@ + e@,
{
    let mut s = cat4(a, b, c, d);
    s.append(e);
    s
}

pub fn cat7(a: &str, b: &str, c: &str, d: &str, e: &str, f: &str, g: &str) -> (r: String)
    ensures
        r@ == a@ + b@ + c@ + d@ + e@ + f@ + g@,
{
    let mut s = cat5(a, b, c, d, e);
    s.append(f);
    s.append(g);
    s
}

pub fn cat9(
    a: &str,
    b: &str,
    c: &str,
    d: &str,
    e: &str,
    f: &str,
    g: &str,
    h: &str,
    i: &str,
) -> (r: String)
    ensures
        r@ == a@ + b@ + c@ + d@ + e@ + f@ + g@ + h@ + i@,
{
    let mut s = cat7(a, b, c, d, e, f, g);
    s.append(h);
    s.append(i);
    s
}

/// `parts` with `sep` between neighbours.
pub open spec fn joined(parts: Seq<Str>, sep: Str) -> Str
    decreases parts.len(),
{
    if parts.len() == 0 {
        Seq::empty()
    } else if parts.len() == 1 {
        parts[0]
    } else {
        joined(parts.drop_last(), sep) + sep + parts.last()
    }
}

/// Joins `parts` with `sep` between neighbours.
pub fn join(parts: &Vec<String>, sep: &str) -> (r: String)
    ensures
        r@ == joined(parts.deep_view(), sep@),
{
    let ghost all = parts.deep_view();
    let mut out = String::new();
    let mut i: usize = 0;
    assert(all.take(0) =~= Seq::empty());
    while i < parts.len()
        invariant
            i <= parts.len(),
            all == parts.deep_view(),
            out@ == joined(all.take(i as int), sep@),
        decreases parts.len() - i,
    {
        assert(all.take(i + 1).drop_last() =~= all.take(i as int));
        assert(all[i as int] == parts[i as int]@);
        if i > 0 {
            out.append(sep);
            out.append(parts[i].as_str());
        } else {
            out = parts[i].clone();
        }
        i = i + 1;
    }
    assert(all.take(all.len() as int) =~= all);
    out
}

// ---------------------------------------------------------------------------
// Decimal numbers
// ---------------------------------------------------------------------------
pub open spec fn digit(d: nat) -> char {
    if d == 0 {
        '0'
    } else if d == 1 {
        '1'
    } else if d == 2 {
        '2'
    } else if d == 3 {
        '3'
    } else if d == 4 {
        '4'
    } else if d == 5 {
        '5'
    } else if d == 6 {
        '6'
    } else if d == 7 {
        '7'
    } else if d == 8 {
        '8'
    } else {
        '9'
    }
}

/// The decimal numeral of `n`, without leading zeros.
pub open spec fn decimal(n: nat) -> Str
    decreases n,
{
    if n < 10 {
        seq![digit(n)]
    } else {
        decimal(n / 10).push(digit(n % 10))
    }
}

fn digit_char(d: u64) -> (c: char)
    requires
        d < 10,
    ensures
        c == digit(d as nat),
{
    match d {
        0 => '0',
        1 => '1',
        2 => '2',
        3 => '3',
        4 => '4',
        5 => '5',
        6 => '6',
        7 => '7',
        8 => '8',
        _ => '9',
    }
}

/// The decimal numeral of `n`.
pub fn decimal_text(n: u64) -> (r: String)
    ensures
        r@ == decimal(n as nat),
    decreases n,
{
    if n < 10 {
        let mut s = String::new();
        s.push(digit_char(n));
        assert(s@ =~= decimal(n as nat));
        s
    } else {
        let mut s = decimal_text(n / 10);
        s.push(digit_char(n % 10));
        s
    }
}

// ---------------------------------------------------------------------------
// Searching and splitting
// ---------------------------------------------------------------------------
/// Whether `p` occurs in `s` at position `i`.
pub open spec fn occurs_at(s: Str, p: Str, i: int) -> bool {
    0 <= i && i + p.len() <= s.len() && s.subrange(i, i + p.len()) == p
}

/// The first position at or after `i` at which `p` occurs in `s`.
pub open spec fn found_from(s: Str, p: Str, i: int) -> Option<int>
    decreases s.len() + 1 - i,
{
    if i < 0 || i + p.len() > s.len() {
        None
    } else if occurs_at(s, p, i) {
        Some(i)
    } else {
        found_from(s, p, i + 1)
    }
}

/// The first position at which `p` occurs in `s`.
pub open spec fn found(s: Str, p: Str) -> Option<int> {
    found_from(s, p, 0)
}

/// The two sides of the first occurrence of `p` in `s`.
pub open spec fn cut(s: Str, p: Str) -> Option<(Str, Str)> {
    match found(s, p) {
        Some(i) => Some((s.take(i), s.skip(i + p.len()))),
        None => None,
    }
}

/// `s` divided at each successive occurrence of the non-empty text `p`.
pub open spec fn pieces(s: Str, p: Str) -> Seq<Str>
    decreases s.len(),
{
    if p.len() == 0 {
        seq![s]
    } else {
        match found(s, p) {
            Some(i) => if 0 <= i && i + p.len() <= s.len() {
                seq![s.take(i)] + pieces(s.skip(i + p.len()), p)
            } else {
                seq![s]
            },
            None => seq![s],
        }
    }
}

/// What stands before the first occurrence of `p`, or the whole text.
pub open spec fn head_piece(s: Str, p: Str) -> Str {
    match cut(s, p) {
        Some(c) => c.0,
        None => s,
    }
}

/// What stands after the last occurrence of the character `c`, or the whole text.
pub open spec fn tail_piece(s: Str, c: char) -> Str
    decreases s.len(),
{
    if s.len() == 0 || s.last() == c {
        Seq::empty()
    } else {
        tail_piece(s.drop_last(), c).push(s.last())
    }
}

pub proof fn lemma_found_from(s: Str, p: Str, i: int)
    ensures
        found_from(s, p, i) matches Some(j) ==> i <= j && occurs_at(s, p, j),
    decreases s.len() + 1 - i,
{
    if i >= 0 && i + p.len() <= s.len() && !occurs_at(s, p, i) {
        lemma_found_from(s, p, i + 1);
    }
}

fn chars_occur_at(s: &Vec<char>, p: &Vec<char>, i: usize) -> (r: bool)
    requires
        i <= s.len(),
    ensures
        r == occurs_at(s@, p@, i as int),
{
    if s.len() - i < p.len() {
        return false;
    }
    let mut j: usize = 0;
    while j < p.len()
        invariant
            i + p.len() <= s.len(),
            j <= p.len(),
            forall|k: int| 0 <= k < j ==> s[i + k] == p[k],
        decreases p.len() - j,
    {
        if s[i + j] != p[j] {
            assert(s@.subrange(i as int, i + p.len())[j as int] != p@[j as int]);
            return false;
        }
        j = j + 1;
    }
    assert(s@.subrange(i as int, i + p.len()) =~= p@);
    true
}

/// The first position at or after `from` at which `p` occurs in `s`.
pub fn find_chars(s: &Vec<char>, p: &Vec<char>, from: usize) -> (r: Option<usize>)
    requires
        from <= s.len(),
    ensures
        match r {
            Some(i) => found_from(s@, p@, from as int) == Some(i as int) && occurs_at(
                s@,
                p@,
                i as int,
            ) && from <= i,
            None => found_from(s@, p@, from as int) is None,
        },
{
    let mut i: usize = from;
    while i < s.len()
        invariant
            from <= i <= s.len(),
            found_from(s@, p@, from as int) == found_from(s@, p@, i as int),
        decreases s.len() - i,
    {
        if chars_occur_at(s, p, i) {
            return Some(i);
        }
        if s.len() - i < p.len() {
            return None;
        }
        i = i + 1;
    }
    if chars_occur_at(s, p, i) {
        Some(i)
    } else {
        assert(found_from(s@, p@, i + 1) is None);
        None
    }
}

/// Whether `p` occurs in `s`.
pub fn contains_text(s: &str, p: &str) -> (r: bool)
    ensures
        r == (found(s@, p@) is Some),
{
    let v = chars_of(s);
    let q = chars_of(p);
    find_chars(&v, &q, 0).is_some()
}

/// Divides `s` at the first occurrence of `p`.
pub fn cut_text(s: &str, p: &str) -> (r: Option<(String, String)>)
    ensures
        match r {
            Some(c) => cut(s@, p@) == Some((c.0@, c.1@)),
            None => cut(s@, p@) is None,
        },
{
    let v = chars_of(s);
    let q = chars_of(p);
    match find_chars(&v, &q, 0) {
        Some(i) => {
            assert(i + q.len() <= v.len());
            let left = string_between(&v, 0, i);
            let right = string_between(&v, i + q.len(), v.len());
            assert(left@ =~= s@.take(i as int));
            assert(right@ =~= s@.skip(i + q.len()));
            Some((left, right))
        },
        None => None,
    }
}

/// Divides `s` at each successive occurrence of `p`.
pub fn split_text(s: &str, p: &str) -> (r: Vec<String>)
    requires
        p@.len() > 0,
    ensures
        r.deep_view() == pieces(s@, p@),
{
    let v = chars_of(s);
    let q = chars_of(p);
    let mut out: Vec<String> = Vec::new();
    let mut rest: Vec<char> = v;
    loop
        invariant
            q@ == p@,
            p@.len() > 0,
            out.deep_view() + pieces(rest@, p@) =~= pieces(s@, p@),
        decreases rest.len(),
    {
        match find_chars(&rest, &q, 0) {
            Some(i) => {
                let ghost before_out = out.deep_view();
                let ghost whole = rest@;
                let left = string_between(&rest, 0, i);
                assert(left@ =~= whole.take(i as int));
                let right = string_between(&rest, i + q.len(), rest.len());
                assert(right@ =~= whole.skip(i + q.len()));
                rest = chars_of(right.as_str());
                out.push(left);
                assert(out.deep_view() =~= before_out.push(whole.take(i as int)));
                assert(pieces(whole, p@) =~= seq![whole.take(i as int)] + pieces(rest@, p@));
            },
            None => {
                let ghost before_out = out.deep_view();
                assert(pieces(rest@, p@) =~= seq![rest@]);
                out.push(string_of(&rest));
                assert(out.deep_view() =~= before_out.push(rest@));
                return out;
            },
        }
    }
}

/// What stands before the first occurrence of `p`, or the whole text.
pub fn head_text(s: &str, p: &str) -> (r: String)
    ensures
        r@ == head_piece(s@, p@),
{
    match cut_text(s, p) {
        Some(c) => c.0,
        None => s.to_string(),
    }
}

proof fn lemma_tail_piece(s: Str, c: char, i: int)
    requires
        0 <= i <= s.len(),
        forall|k: int| i <= k < s.len() ==> s[k] != c,
        i == 0 || s[i - 1] == c,
    ensures
        tail_piece(s, c) == s.skip(i),
    decreases s.len(),
{
    if i == s.len() {
        assert(s.skip(i) =~= Seq::empty());
    } else {
        let d = s.drop_last();
        assert forall|k: int| i <= k < d.len() implies d[k] != c by {}
        lemma_tail_piece(d, c, i);
        assert(s.skip(i) =~= d.skip(i).push(s.last()));
    }
}

/// What stands after the last occurrence of `c`, or the whole text.
pub fn tail_text(s: &str, c: char) -> (r: String)
    ensures
        r@ == tail_piece(s@, c),
{
    let v = chars_of(s);
    let mut i: usize = v.len();
    while i > 0 && v[i - 1] != c
        invariant
            i <= v.len(),
            forall|k: int| i <= k < v.len() ==> v[k] != c,
        decreases i,
    {
        i = i - 1;
    }
    proof {
        lemma_tail_piece(v@, c, i as int);
    }
    let r = string_between(&v, i, v.len());
    assert(r@ =~= s@.skip(i as int));
    r
}

/// What follows the prefix `p` of `s`.
pub open spec fn without_prefix(s: Str, p: Str) -> Option<Str> {
    if p.len() <= s.len() && s.take(p.len() as int) == p {
        Some(s.skip(p.len() as int))
    } else {
        None
    }
}

/// What follows the prefix `p` of `s`, if `s` begins with it.
pub fn strip_prefix_text(s: &str, p: &str) -> (r: Option<String>)
    ensures
        match r {
            Some(t) => without_prefix(s@, p@) == Some(t@),
            None => without_prefix(s@, p@) is None,
        },
{
    let v = chars_of(s);
    let q = chars_of(p);
    if chars_occur_at(&v, &q, 0) {
        assert(s@.take(p@.len() as int) =~= s@.subrange(0, p@.len() as int));
        let t = string_between(&v, q.len(), v.len());
        assert(t@ =~= s@.skip(p@.len() as int));
        Some(t)
    } else {
        assert(p@.len() <= s@.len() ==> s@.take(p@.len() as int) =~= s@.subrange(
            0,
            p@.len() as int,
        ));
        None
    }
}

/// Whether `s` begins with `p`.
pub open spec fn has_prefix(s: Str, p: Str) -> bool {
    without_prefix(s, p) is Some
}

/// Whether `s` begins with `p`.
pub fn starts_with_text(s: &str, p: &str) -> (r: bool)
    ensures
        r == has_prefix(s@, p@),
{
    let n = p.unicode_len();
    if s.unicode_len() < n {
        return false;
    }
    let mut i: usize = 0;
    while i < n
        invariant
            i <= n,
            n == p@.len(),
            n <= s@.len(),
            forall|j: int| 0 <= j < i ==> s@[j] == p@[j],
        decreases n - i,
    {
        if s.get_char(i) != p.get_char(i) {
            assert(s@.take(p@.len() as int)[i as int] != p@[i as int]);
            return false;
        }
        i = i + 1;
    }
    assert(s@.take(p@.len() as int) =~= p@);
    true
}

// ---------------------------------------------------------------------------
// Trimming and replacing
// ---------------------------------------------------------------------------
/// `s` without the leading characters that satisfy `drop`.
pub open spec fn trimmed_front(s: Str, drop: spec_fn(char) -> bool) -> Str
    decreases s.len(),
{
    if s.len() > 0 && drop(s[0]) {
        trimmed_front(s.drop_first(), drop)
    } else {
        s
    }
}

/// `s` without the trailing characters that satisfy `drop`.
pub open spec fn trimmed_back(s: Str, drop: spec_fn(char) -> bool) -> Str
    decreases s.len(),
{
    if s.len() > 0 && drop(s.last()) {
        trimmed_back(s.drop_last(), drop)
    } else {
        s
    }
}

/// `s` without leading and trailing white space.
pub open spec fn trimmed(s: Str) -> Str {
    trimmed_back(trimmed_front(s, |c: char| is_white(c)), |c: char| is_white(c))
}

/// The predicate that holds of the character `q` alone.
pub open spec fn is_char(q: char) -> spec_fn(char) -> bool {
    |c: char| c == q
}

/// `s` without leading and trailing occurrences of `q`.
pub open spec fn stripped(s: Str, q: char) -> Str {
    trimmed_back(trimmed_front(s, is_char(q)), is_char(q))
}

/// Removes white space from both ends.
pub fn trim_text(s: &str) -> (r: String)
    ensures
        r@ == trimmed(s@),
{
    let v = chars_of(s);
    let ghost w = |c: char| is_white(c);
    let mut i: usize = 0;
    assert(v@.skip(0) =~= v@);
    while i < v.len() && char_is_white(v[i])
        invariant
            i <= v.len(),
            w == |c: char| is_white(c),
            trimmed_front(v@, w) == trimmed_front(v@.skip(i as int), w),
        decreases v.len() - i,
    {
        assert(w(v@.skip(i as int)[0]));
        assert(v@.skip(i as int).drop_first() =~= v@.skip(i + 1));
        i = i + 1;
    }
    assert(i < v.len() ==> !w(v@.skip(i as int)[0]));
    let ghost f = v@.skip(i as int);
    assert(trimmed_front(v@, w) == f);
    let mut j: usize = v.len();
    assert(v@.subrange(i as int, j as int) =~= f);
    while j > i && char_is_white(v[j - 1])
        invariant
            i <= j <= v.len(),
            w == |c: char| is_white(c),
            trimmed_back(f, w) == trimmed_back(v@.subrange(i as int, j as int), w),
        decreases j,
    {
        assert(w(v@.subrange(i as int, j as int).last()));
        assert(v@.subrange(i as int, j as int).drop_last() =~= v@.subrange(i as int, j - 1));
        j = j - 1;
    }
    assert(j > i ==> !w(v@.subrange(i as int, j as int).last()));
    string_between(&v, i, j)
}

/// Removes the character `q` from both ends.
pub fn strip_char_text(s: &str, q: char) -> (r: String)
    ensures
        r@ == stripped(s@, q),
{
    let v = chars_of(s);
    let ghost w = is_char(q);
    let mut i: usize = 0;
    assert(v@.skip(0) =~= v@);
    while i < v.len() && v[i] == q
        invariant
            i <= v.len(),
            w == is_char(q),
            trimmed_front(v@, w) == trimmed_front(v@.skip(i as int), w),
        decreases v.len() - i,
    {
        assert(w(v@.skip(i as int)[0]));
        assert(v@.skip(i as int).drop_first() =~= v@.skip(i + 1));
        i = i + 1;
    }
    assert(i < v.len() ==> !w(v@.skip(i as int)[0]));
    let ghost f = v@.skip(i as int);
    assert(trimmed_front(v@, w) == f);
    let mut j: usize = v.len();
    assert(v@.subrange(i as int, j as int) =~= f);
    while j > i && v[j - 1] == q
        invariant
            i <= j <= v.len(),
            w == is_char(q),
            trimmed_back(f, w) == trimmed_back(v@.subrange(i as int, j as int), w),
        decreases j,
    {
        assert(w(v@.subrange(i as int, j as int).last()));
        assert(v@.subrange(i as int, j as int).drop_last() =~= v@.subrange(i as int, j - 1));
        j = j - 1;
    }
    assert(j > i ==> !w(v@.subrange(i as int, j as int).last()));
    string_between(&v, i, j)
}

/// `s` with each occurrence of the character `c` replaced by `by`.
pub open spec fn replaced(s: Str, c: char, by: Str) -> Str
    decreases s.len(),
{
    if s.len() == 0 {
        Seq::empty()
    } else if s.last() == c {
        replaced(s.drop_last(), c, by) + by
    } else {
        replaced(s.drop_last(), c, by).push(s.last())
    }
}

/// Replaces each occurrence of the character `c` by `by`.
pub fn replace_text(s: &str, c: char, by: &str) -> (r: String)
    ensures
        r@ == replaced(s@, c, by@),
{
    let v = chars_of(s);
    let mut out = String::new();
    let mut i: usize = 0;
    while i < v.len()
        invariant
            i <= v.len(),
            out@ == replaced(v@.take(i as int), c, by@),
        decreases v.len() - i,
    {
        assert(v@.take(i + 1).drop_last() =~= v@.take(i as int));
        if v[i] == c {
            out.append(by);
        } else {
            out.push(v[i]);
        }
        i = i + 1;
    }
    assert(v@.take(v@.len() as int) =~= v@);
    out
}

// ---------------------------------------------------------------------------
// ASCII letters and digits
// ---------------------------------------------------------------------------
pub open spec fn is_ascii_upper(c: char) -> bool {
    'A' <= c && c <= 'Z'
}

pub open spec fn is_alphanumeric(c: char) -> bool {
    is_ascii_upper(c) || ('a' <= c && c <= 'z') || ('0' <= c && c <= '9')
}

/// The lower-case form of an ASCII letter; any other character as it is.
pub open spec fn ascii_lower(c: char) -> char {
    if is_ascii_upper(c) {
        (c as u8 + 32) as char
    } else {
        c
    }
}

pub fn is_alphanumeric_char(c: char) -> (r: bool)
    ensures
        r == is_alphanumeric(c),
{
    ('A' <= c && c <= 'Z') || ('a' <= c && c <= 'z') || ('0' <= c && c <= '9')
}

pub fn ascii_lower_char(c: char) -> (r: char)
    ensures
        r == ascii_lower(c),
{
    if 'A' <= c && c <= 'Z' {
        (c as u8 + 32) as char
    } else {
        c
    }
}

} // verus!
