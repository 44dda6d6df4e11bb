//! Byte-sequence helpers shared by the robots extractor, the sitemap
//! parser, the resolver and the pipeline: substring search, equality,
//! slicing, whitespace handling and first-occurrence deduplication over
//! `Vec<u8>` values.

use vstd::prelude::*;

verus! {

/// ASCII whitespace, as a line is split into tokens: space, tab,
/// line feed, form feed, carriage return.
pub open spec fn is_ascii_ws(b: u8) -> bool {
    b == 32 || b == 9 || b == 10 || b == 12 || b == 13
}

/// `needle` occurs as a contiguous run inside `hay`.
pub open spec fn contains_seq(hay: Seq<u8>, needle: Seq<u8>) -> bool {
    exists|i: int|
        0 <= i && i + needle.len() <= hay.len() && #[trigger] hay.subrange(i, i + needle.len())
            == needle
}

/// The views of a list of byte vectors.
pub open spec fn views(v: Seq<Vec<u8>>) -> Seq<Seq<u8>> {
    v.map_values(|x: Vec<u8>| x@)
}

/// `acc` extended with the members of `xs` not yet present, in order:
/// each value keeps its first occurrence only.
pub open spec fn append_new(acc: Seq<Seq<u8>>, xs: Seq<Seq<u8>>) -> Seq<Seq<u8>>
    decreases xs.len(),
{
    if xs.len() == 0 {
        acc
    } else {
        let acc2 = if acc.contains(xs[0]) {
            acc
        } else {
            acc.push(xs[0])
        };
        append_new(acc2, xs.skip(1))
    }
}

/// No URL occurs twice.
pub open spec fn distinct(s: Seq<Seq<u8>>) -> bool {
    forall|i: int, j: int| 0 <= i < j < s.len() ==> s[i] != s[j]
}

pub proof fn lemma_append_new_distinct(acc: Seq<Seq<u8>>, xs: Seq<Seq<u8>>)
    requires
        distinct(acc),
    ensures
        distinct(append_new(acc, xs)),
    decreases xs.len(),
{
    if xs.len() > 0 {
        let acc2 = if acc.contains(xs[0]) {
            acc
        } else {
            acc.push(xs[0])
        };
        if !acc.contains(xs[0]) {
            assert forall|i: int, j: int| 0 <= i < j < acc2.len() implies acc2[i] != acc2[j] by {
                if j < acc2.len() - 1 {
                } else {
                    assert(acc2[j] == xs[0]);
                    assert(acc2[i] == acc[i]);
                    assert(!acc.contains(xs[0]));
                }
            }
        }
        lemma_append_new_distinct(acc2, xs.skip(1));
    }
}

pub proof fn lemma_append_new_len(acc: Seq<Seq<u8>>, xs: Seq<Seq<u8>>)
    ensures
        append_new(acc, xs).len() >= acc.len(),
        xs.len() > 0 ==> append_new(acc, xs).len() >= 1,
    decreases xs.len(),
{
    if xs.len() > 0 {
        let acc2 = if acc.contains(xs[0]) {
            acc
        } else {
            acc.push(xs[0])
        };
        lemma_append_new_len(acc2, xs.skip(1));
        if acc.len() == 0 {
            assert(!acc.contains(xs[0]));
        }
    }
}

/// Deduplication folds over concatenation.
pub proof fn lemma_append_new_app(acc: Seq<Seq<u8>>, xs: Seq<Seq<u8>>, ys: Seq<Seq<u8>>)
    ensures
        append_new(acc, xs + ys) == append_new(append_new(acc, xs), ys),
    decreases xs.len(),
{
    if xs.len() == 0 {
        assert(xs + ys =~= ys);
    } else {
        let acc2 = if acc.contains(xs[0]) {
            acc
        } else {
            acc.push(xs[0])
        };
        assert((xs + ys)[0] == xs[0]);
        assert((xs + ys).skip(1) =~= xs.skip(1) + ys);
        lemma_append_new_app(acc2, xs.skip(1), ys);
    }
}

/// On an already-distinct list with nothing of it gathered before,
/// deduplication changes nothing.
pub proof fn lemma_append_new_of_distinct(acc: Seq<Seq<u8>>, xs: Seq<Seq<u8>>)
    requires
        distinct(acc + xs),
    ensures
        append_new(acc, xs) == acc + xs,
    decreases xs.len(),
{
    if xs.len() == 0 {
        assert(acc + xs =~= acc);
    } else {
        assert(!acc.contains(xs[0])) by {
            if acc.contains(xs[0]) {
                let i = choose|i: int| 0 <= i < acc.len() && acc[i] == xs[0];
                assert((acc + xs)[i] == acc[i]);
                assert((acc + xs)[acc.len() as int] == xs[0]);
            }
        }
        let acc2 = acc.push(xs[0]);
        assert(acc2 + xs.skip(1) =~= acc + xs);
        lemma_append_new_of_distinct(acc2, xs.skip(1));
        assert(acc2 + xs.skip(1) == acc + xs);
    }
}

/// Whether `u` already stands in the list `v`, by exact byte equality.
pub fn contains_url(v: &Vec<Vec<u8>>, u: &Vec<u8>) -> (r: bool)
    ensures
        r == views(v@).contains(u@),
{
    let n = v.len();
    let mut i: usize = 0;
    while i < n
        invariant
            0 <= i <= n == v@.len(),
            forall|k: int| 0 <= k < i ==> views(v@)[k] != u@,
        decreases n - i,
    {
        if bytes_eq(v[i].as_slice(), u.as_slice()) {
            assert(views(v@)[i as int] == u@);
            return true;
        }
        i = i + 1;
    }
    assert(forall|k: int| 0 <= k < views(v@).len() ==> views(v@)[k] != u@);
    false
}

/// Index of the first occurrence of `b` at or after `i`, or `s.len()`
/// if there is none.
pub open spec fn find_pos(s: Seq<u8>, i: int, b: u8) -> int
    decreases s.len() - i,
{
    if i < 0 || i >= s.len() {
        s.len() as int
    } else if s[i] == b {
        i
    } else {
        find_pos(s, i + 1, b)
    }
}

pub proof fn lemma_find_pos_bounds(s: Seq<u8>, i: int, b: u8)
    requires
        0 <= i <= s.len(),
    ensures
        i <= find_pos(s, i, b) <= s.len(),
        find_pos(s, i, b) < s.len() ==> s[find_pos(s, i, b)] == b,
        forall|k: int| i <= k < find_pos(s, i, b) ==> s[k] != b,
    decreases s.len() - i,
{
    if i < s.len() && s[i] != b {
        lemma_find_pos_bounds(s, i + 1, b);
    }
}

/// `l` with trailing ASCII whitespace removed.
pub open spec fn trim_trailing_ws(l: Seq<u8>) -> Seq<u8>
    decreases l.len(),
{
    if l.len() > 0 && is_ascii_ws(l.last()) {
        trim_trailing_ws(l.drop_last())
    } else {
        l
    }
}

/// `l` with leading ASCII whitespace removed.
pub open spec fn trim_leading_ws(l: Seq<u8>) -> Seq<u8>
    decreases l.len(),
{
    if l.len() > 0 && is_ascii_ws(l[0]) {
        trim_leading_ws(l.skip(1))
    } else {
        l
    }
}

/// `l` with whitespace removed at both ends.
pub open spec fn trim_ws(l: Seq<u8>) -> Seq<u8> {
    trim_trailing_ws(trim_leading_ws(l))
}

pub proof fn lemma_trim_trailing_is(l: Seq<u8>, e: int)
    requires
        0 <= e <= l.len(),
        forall|k: int| e <= k < l.len() ==> is_ascii_ws(l[k]),
        e > 0 ==> !is_ascii_ws(l[e - 1]),
    ensures
        trim_trailing_ws(l) == l.take(e),
    decreases l.len(),
{
    if e == l.len() {
        assert(l.take(e) =~= l);
    } else {
        assert(is_ascii_ws(l.last()));
        assert forall|k: int| e <= k < l.drop_last().len() implies is_ascii_ws(
            l.drop_last()[k],
        ) by {
            assert(l.drop_last()[k] == l[k]);
        }
        lemma_trim_trailing_is(l.drop_last(), e);
        assert(l.drop_last().take(e) =~= l.take(e));
    }
}

pub proof fn lemma_trim_leading_is(l: Seq<u8>, s: int)
    requires
        0 <= s <= l.len(),
        forall|k: int| 0 <= k < s ==> is_ascii_ws(l[k]),
        s < l.len() ==> !is_ascii_ws(l[s]),
    ensures
        trim_leading_ws(l) == l.skip(s),
    decreases s,
{
    if s == 0 {
        assert(l.skip(0) =~= l);
    } else {
        assert(is_ascii_ws(l[0]));
        assert forall|k: int| 0 <= k < s - 1 implies is_ascii_ws(l.skip(1)[k]) by {
            assert(l.skip(1)[k] == l[k + 1]);
        }
        assert(s - 1 < l.skip(1).len() ==> !is_ascii_ws(l.skip(1)[s - 1]));
        lemma_trim_leading_is(l.skip(1), s - 1);
        assert(l.skip(1).skip(s - 1) =~= l.skip(s));
    }
}

/// The byte `b`, searched from `from` on: the first index holding it, or
/// the length if there is none.
pub fn find_byte(v: &Vec<u8>, from: usize, b: u8) -> (r: usize)
    requires
        from <= v@.len(),
    ensures
        from <= r <= v@.len(),
        forall|k: int| from <= k < r ==> v@[k] != b,
        r < v@.len() ==> v@[r as int] == b,
        r == find_pos(v@, from as int, b),
{
    let n = v.len();
    let mut i: usize = from;
    while i < n
        invariant
            from <= i <= n == v@.len(),
            forall|k: int| from <= k < i ==> v@[k] != b,
        decreases n - i,
    {
        if v[i] == b {
            proof {
                lemma_find_pos_agrees(v@, from as int, i as int, b);
            }
            return i;
        }
        i = i + 1;
    }
    proof {
        lemma_find_pos_agrees(v@, from as int, n as int, b);
    }
    i
}

proof fn lemma_find_pos_agrees(s: Seq<u8>, from: int, r: int, b: u8)
    requires
        0 <= from <= r <= s.len(),
        forall|k: int| from <= k < r ==> s[k] != b,
        r < s.len() ==> s[r] == b,
    ensures
        find_pos(s, from, b) == r,
    decreases r - from,
{
    if from < r {
        lemma_find_pos_agrees(s, from + 1, r, b);
    }
}

/// Copy of `v` with whitespace trimmed at both ends.
pub fn trim_ws_vec(v: &Vec<u8>) -> (r: Vec<u8>)
    ensures
        r@ == trim_ws(v@),
{
    let n = v.len();
    let mut b: usize = 0;
    while b < n && is_ws(v[b])
        invariant
            0 <= b <= n == v@.len(),
            forall|k: int| 0 <= k < b ==> is_ascii_ws(v@[k]),
        decreases n - b,
    {
        b = b + 1;
    }
    let mut e: usize = n;
    while e > b && is_ws(v[e - 1])
        invariant
            b <= e <= n == v@.len(),
            forall|k: int| e <= k < n ==> is_ascii_ws(v@[k]),
        decreases e,
    {
        e = e - 1;
    }
    proof {
        lemma_trim_leading_is(v@, b as int);
        let t = v@.skip(b as int);
        assert forall|k: int| (e - b) <= k < t.len() implies is_ascii_ws(t[k]) by {
            assert(t[k] == v@[b + k]);
        }
        if e > b {
            assert(t[e - b - 1] == v@[e - 1]);
        }
        lemma_trim_trailing_is(t, e - b);
        assert(t.take(e - b) =~= v@.subrange(b as int, e as int));
    }
    sub_bytes(v, b, e)
}

pub fn is_ws(b: u8) -> (r: bool)
    ensures
        r == is_ascii_ws(b),
{
    b == 32 || b == 9 || b == 10 || b == 12 || b == 13
}

pub fn bytes_eq(a: &[u8], b: &[u8]) -> (r: bool)
    ensures
        r == (a@ == b@),
{
    if a.len() != b.len() {
        assert(a@.len() != b@.len());
        return false;
    }
    let n = a.len();
    let mut i: usize = 0;
    while i < n
        invariant
            n == a@.len() == b@.len(),
            0 <= i <= n,
            forall|k: int| 0 <= k < i ==> a@[k] == b@[k],
        decreases n - i,
    {
        if a[i] != b[i] {
            assert(a@ != b@);
            return false;
        }
        i = i + 1;
    }
    assert(a@ =~= b@);
    true
}

/// `hay` matches `needle` starting at position `at`.
fn matches_at(hay: &Vec<u8>, needle: &[u8], at: usize) -> (r: bool)
    requires
        at + needle@.len() <= hay@.len(),
    ensures
        r == (hay@.subrange(at as int, at + needle@.len()) == needle@),
{
    let hay_len = hay.len();
    assert(hay@.len() == hay_len <= usize::MAX);
    let n = needle.len();
    let mut i: usize = 0;
    while i < n
        invariant
            n == needle@.len(),
            at + n <= hay@.len(),
            hay@.len() <= usize::MAX,
            0 <= i <= n,
            forall|k: int| 0 <= k < i ==> hay@[at + k] == needle@[k],
        decreases n - i,
    {
        if hay[at + i] != needle[i] {
            assert(hay@.subrange(at as int, at + needle@.len())[i as int] != needle@[i as int]);
            return false;
        }
        i = i + 1;
    }
    assert(hay@.subrange(at as int, at + needle@.len()) =~= needle@);
    true
}

pub fn contains_subseq(hay: &Vec<u8>, needle: &[u8]) -> (r: bool)
    ensures
        r == contains_seq(hay@, needle@),
{
    if needle.len() == 0 {
        proof {
            assert(hay@.subrange(0, 0 + needle@.len() as int) =~= needle@);
            assert(contains_seq(hay@, needle@));
        }
        return true;
    }
    if needle.len() > hay.len() {
        return false;
    }
    let last = hay.len() - needle.len();
    let mut i: usize = 0;
    while i <= last
        invariant
            1 <= needle@.len() <= hay@.len(),
            hay@.len() <= usize::MAX,
            last == hay@.len() - needle@.len(),
            0 <= i <= last + 1,
            forall|k: int|
                0 <= k < i ==> #[trigger] hay@.subrange(k, k + needle@.len()) != needle@,
        decreases last + 1 - i,
    {
        if matches_at(hay, needle, i) {
            assert(hay@.subrange(i as int, i + needle@.len()) == needle@);
            return true;
        }
        i = i + 1;
    }
    false
}

/// Index of the first occurrence of `t` inside `s`; meaningful only
/// when `s` contains `t`.
pub open spec fn first_match(s: Seq<u8>, t: Seq<u8>) -> int
    decreases s.len(),
{
    if s.len() == 0 || s.len() < t.len() {
        0
    } else if s.subrange(0, t.len() as int) == t {
        0
    } else {
        1 + first_match(s.skip(1), t)
    }
}

proof fn lemma_first_match_is(s: Seq<u8>, t: Seq<u8>, i: int)
    requires
        0 <= i,
        i + t.len() <= s.len(),
        s.subrange(i, i + t.len()) == t,
        forall|k: int| 0 <= k < i ==> #[trigger] s.subrange(k, k + t.len()) != t,
    ensures
        first_match(s, t) == i,
    decreases i,
{
    if i == 0 {
        assert(s.subrange(0, t.len() as int) == t);
    } else {
        assert(s.subrange(0, 0 + t.len() as int) != t);
        assert(s.subrange(0, t.len() as int) != t);
        let s1 = s.skip(1);
        assert(s1.subrange(i - 1, i - 1 + t.len()) =~= s.subrange(i, i + t.len()));
        assert forall|k: int| 0 <= k < i - 1 implies #[trigger] s1.subrange(k, k + t.len())
            != t by {
            assert(s1.subrange(k, k + t.len()) =~= s.subrange(k + 1, k + 1 + t.len()));
        }
        lemma_first_match_is(s1, t, i - 1);
    }
}

/// The first occurrence of `needle` inside `hay`, or `None` when there
/// is none.
pub fn find_subseq(hay: &Vec<u8>, needle: &[u8]) -> (r: Option<usize>)
    ensures
        match r {
            Some(i) => contains_seq(hay@, needle@) && i == first_match(hay@, needle@) && i
                + needle@.len() <= hay@.len() && hay@.subrange(i as int, i + needle@.len())
                == needle@,
            None => !contains_seq(hay@, needle@),
        },
{
    if needle.len() == 0 {
        proof {
            assert(hay@.subrange(0, 0 + needle@.len() as int) =~= needle@);
            assert(contains_seq(hay@, needle@));
            lemma_first_match_is(hay@, needle@, 0);
        }
        return Some(0);
    }
    if needle.len() > hay.len() {
        return None;
    }
    let last = hay.len() - needle.len();
    let mut i: usize = 0;
    while i <= last
        invariant
            1 <= needle@.len() <= hay@.len(),
            hay@.len() <= usize::MAX,
            last == hay@.len() - needle@.len(),
            0 <= i <= last + 1,
            forall|k: int|
                0 <= k < i ==> #[trigger] hay@.subrange(k, k + needle@.len()) != needle@,
        decreases last + 1 - i,
    {
        if matches_at(hay, needle, i) {
            proof {
                assert(hay@.subrange(i as int, i + needle@.len()) == needle@);
                lemma_first_match_is(hay@, needle@, i as int);
            }
            return Some(i);
        }
        i = i + 1;
    }
    None
}

/// Copy of `v[from..to]`.
pub fn sub_bytes(v: &Vec<u8>, from: usize, to: usize) -> (r: Vec<u8>)
    requires
        from <= to <= v@.len(),
    ensures
        r@ == v@.subrange(from as int, to as int),
{
    let mut r: Vec<u8> = Vec::new();
    let mut i: usize = from;
    while i < to
        invariant
            from <= i <= to <= v@.len(),
            r@ == v@.subrange(from as int, i as int),
        decreases to - i,
    {
        r.push(v[i]);
        assert(r@ =~= v@.subrange(from as int, i + 1));
        i = i + 1;
    }
    r
}

pub fn clone_bytes(v: &Vec<u8>) -> (r: Vec<u8>)
    ensures
        r@ == v@,
{
    let mut r: Vec<u8> = Vec::new();
    let mut i: usize = 0;
    while i < v.len()
        invariant
            0 <= i <= v@.len(),
            r@ == v@.subrange(0, i as int),
        decreases v@.len() - i,
    {
        r.push(v[i]);
        assert(r@ =~= v@.subrange(0, i + 1));
        i = i + 1;
    }
    assert(r@ =~= v@);
    r
}

} // verus!
