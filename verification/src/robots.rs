//! Robots directive extractor: the ordered list of sitemap URLs that a
//! robots-exclusion document declares. A line declares a sitemap when it
//! contains the case-sensitive token `Sitemap: `; the declared URL is the
//! last whitespace-delimited token of that line.

use vstd::prelude::*;

use crate::bytes::{
    append_new, contains_seq, contains_subseq, contains_url, distinct, find_byte, is_ascii_ws,
    is_ws, lemma_append_new_app, lemma_append_new_distinct, lemma_append_new_len,
    lemma_append_new_of_distinct, lemma_trim_trailing_is, sub_bytes, trim_trailing_ws, views,
};

verus! {

/// The token `Sitemap: ` that marks a declaring line.
pub open spec fn sitemap_token() -> Seq<u8> {
    seq![83u8, 105u8, 116u8, 101u8, 109u8, 97u8, 112u8, 58u8, 32u8]
}

/// Index of the first line feed in `s`, or `s.len()` if there is none.
pub open spec fn first_newline(s: Seq<u8>) -> int
    decreases s.len(),
{
    if s.len() == 0 {
        0
    } else if s[0] == 10 {
        0
    } else {
        1 + first_newline(s.skip(1))
    }
}

pub proof fn lemma_first_newline_bounds(s: Seq<u8>)
    ensures
        0 <= first_newline(s) <= s.len(),
        first_newline(s) < s.len() ==> s[first_newline(s)] == 10,
        forall|k: int| 0 <= k < first_newline(s) ==> s[k] != 10,
    decreases s.len(),
{
    if s.len() > 0 && s[0] != 10 {
        lemma_first_newline_bounds(s.skip(1));
        let i = first_newline(s);
        assert(i == 1 + first_newline(s.skip(1)));
        if i < s.len() {
            assert(s.skip(1)[i - 1] == s[i]);
        }
        assert forall|k: int| 0 <= k < i implies s[k] != 10 by {
            if k > 0 {
                assert(s.skip(1)[k - 1] == s[k]);
            }
        }
    }
}

/// A line as `str::lines` yields it: a trailing carriage return is
/// stripped.
pub open spec fn strip_cr(l: Seq<u8>) -> Seq<u8> {
    if l.len() > 0 && l.last() == 13 {
        l.drop_last()
    } else {
        l
    }
}

/// The lines of `s`, separated by line feeds; a trailing line feed does
/// not open an empty final line.
pub open spec fn lines_of(s: Seq<u8>) -> Seq<Seq<u8>>
    decreases s.len(),
    via lines_of_dec
{
    if s.len() == 0 {
        seq![]
    } else {
        let i = first_newline(s);
        let line = strip_cr(s.take(i));
        if i == s.len() {
            seq![line]
        } else {
            seq![line] + lines_of(s.skip(i + 1))
        }
    }
}

#[via_fn]
proof fn lines_of_dec(s: Seq<u8>) {
    lemma_first_newline_bounds(s);
}

/// The line declares a sitemap.
pub open spec fn is_sitemap_line(l: Seq<u8>) -> bool {
    contains_seq(l, sitemap_token())
}

/// The longest suffix of `l` free of ASCII whitespace.
pub open spec fn last_run(l: Seq<u8>) -> Seq<u8>
    decreases l.len(),
{
    if l.len() == 0 {
        l
    } else if is_ascii_ws(l.last()) {
        seq![]
    } else {
        last_run(l.drop_last()).push(l.last())
    }
}

/// The last whitespace-delimited token of a line; empty when the line
/// holds only whitespace.
pub open spec fn last_token(l: Seq<u8>) -> Seq<u8> {
    last_run(trim_trailing_ws(l))
}

/// The declared sitemap URLs of `s`: the last token of every declaring
/// line, in file order.
pub open spec fn sitemap_entries(s: Seq<u8>) -> Seq<Seq<u8>>
    decreases s.len(),
    via sitemap_entries_dec
{
    if s.len() == 0 {
        seq![]
    } else {
        let i = first_newline(s);
        let line = strip_cr(s.take(i));
        let head: Seq<Seq<u8>> = if is_sitemap_line(line) {
            seq![last_token(line)]
        } else {
            seq![]
        };
        let rest: Seq<Seq<u8>> = if i == s.len() {
            seq![]
        } else {
            sitemap_entries(s.skip(i + 1))
        };
        head + rest
    }
}

#[via_fn]
proof fn sitemap_entries_dec(s: Seq<u8>) {
    lemma_first_newline_bounds(s);
}

/// The distinct declared sitemap URLs: the per-line list with each
/// value kept at its first occurrence only.
pub open spec fn distinct_sitemap_entries(s: Seq<u8>) -> Seq<Seq<u8>> {
    append_new(Seq::<Seq<u8>>::empty(), sitemap_entries(s))
}

/// On a document whose declaring lines name pairwise distinct URLs,
/// deduplication changes nothing: the extractor returns exactly those
/// URLs, in file order.
pub proof fn lemma_distinct_entries_unchanged(s: Seq<u8>)
    requires
        distinct(sitemap_entries(s)),
    ensures
        distinct_sitemap_entries(s) == sitemap_entries(s),
{
    assert(Seq::<Seq<u8>>::empty() + sitemap_entries(s) =~= sitemap_entries(s));
    lemma_append_new_of_distinct(Seq::<Seq<u8>>::empty(), sitemap_entries(s));
}

/// The extraction per line list: the last token of each declaring line.
pub open spec fn entries_of_lines(ls: Seq<Seq<u8>>) -> Seq<Seq<u8>>
    decreases ls.len(),
{
    if ls.len() == 0 {
        seq![]
    } else {
        let head: Seq<Seq<u8>> = if is_sitemap_line(ls[0]) {
            seq![last_token(ls[0])]
        } else {
            seq![]
        };
        head + entries_of_lines(ls.skip(1))
    }
}

/// The extractor walks the document line by line: its result is exactly
/// the last token of each line that declares a sitemap, in file order.
pub proof fn lemma_entries_follow_lines(s: Seq<u8>)
    ensures
        sitemap_entries(s) == entries_of_lines(lines_of(s)),
    decreases s.len(),
{
    lemma_first_newline_bounds(s);
    if s.len() == 0 {
    } else {
        let i = first_newline(s);
        let line = strip_cr(s.take(i));
        let ghost head: Seq<Seq<u8>> = if is_sitemap_line(line) {
            seq![last_token(line)]
        } else {
            seq![]
        };
        if i == s.len() {
            let ls = lines_of(s);
            assert(ls == seq![line]);
            assert(ls[0] == line);
            assert(ls.skip(1) =~= Seq::<Seq<u8>>::empty());
            assert(entries_of_lines(Seq::<Seq<u8>>::empty()) == Seq::<Seq<u8>>::empty());
            assert(entries_of_lines(ls) == head + Seq::<Seq<u8>>::empty());
            assert(sitemap_entries(s) == head + Seq::<Seq<u8>>::empty());
        } else {
            lemma_entries_follow_lines(s.skip(i + 1));
            let ls = lines_of(s);
            assert(ls == seq![line] + lines_of(s.skip(i + 1)));
            assert(ls[0] == line);
            assert(ls.skip(1) =~= lines_of(s.skip(i + 1)));
            assert(entries_of_lines(ls) == head + entries_of_lines(lines_of(s.skip(i + 1))));
            assert(sitemap_entries(s) == head + sitemap_entries(s.skip(i + 1)));
        }
    }
}

/// A document in which no line declares a sitemap yields no entries, and
/// conversely.
pub proof fn lemma_no_declaring_line_no_entries(s: Seq<u8>)
    ensures
        (sitemap_entries(s).len() == 0) <==> (forall|i: int|
            0 <= i < lines_of(s).len() ==> !is_sitemap_line(#[trigger] lines_of(s)[i])),
{
    lemma_entries_follow_lines(s);
    lemma_entries_of_lines_empty(lines_of(s));
}

proof fn lemma_entries_of_lines_empty(ls: Seq<Seq<u8>>)
    ensures
        (entries_of_lines(ls).len() == 0) <==> (forall|i: int|
            0 <= i < ls.len() ==> !is_sitemap_line(#[trigger] ls[i])),
    decreases ls.len(),
{
    if ls.len() > 0 {
        lemma_entries_of_lines_empty(ls.skip(1));
        if entries_of_lines(ls).len() == 0 {
            assert(!is_sitemap_line(ls[0]));
            assert(forall|i: int|
                0 <= i < ls.len() ==> !is_sitemap_line(#[trigger] ls[i])) by {
                assert forall|i: int| 0 <= i < ls.len() implies !is_sitemap_line(
                    #[trigger] ls[i],
                ) by {
                    if i > 0 {
                        assert(ls[i] == ls.skip(1)[i - 1]);
                    }
                }
            }
        } else {
            if forall|i: int| 0 <= i < ls.len() ==> !is_sitemap_line(#[trigger] ls[i]) {
                assert forall|i: int| 0 <= i < ls.skip(1).len() implies !is_sitemap_line(
                    #[trigger] ls.skip(1)[i],
                ) by {
                    assert(ls.skip(1)[i] == ls[i + 1]);
                }
                assert(entries_of_lines(ls).len() == 0);
            }
        }
    }
}

fn sitemap_token_vec() -> (r: Vec<u8>)
    ensures
        r@ == sitemap_token(),
{
    let mut r: Vec<u8> = Vec::new();
    r.push(83);
    r.push(105);
    r.push(116);
    r.push(101);
    r.push(109);
    r.push(97);
    r.push(112);
    r.push(58);
    r.push(32);
    assert(r@ =~= sitemap_token());
    r
}

proof fn lemma_first_newline_is(s: Seq<u8>, i: int)
    requires
        0 <= i <= s.len(),
        forall|k: int| 0 <= k < i ==> s[k] != 10,
        i < s.len() ==> s[i] == 10,
    ensures
        first_newline(s) == i,
    decreases i,
{
    if s.len() == 0 {
    } else if i == 0 {
    } else {
        assert(s[0] != 10);
        assert forall|k: int| 0 <= k < i - 1 implies s.skip(1)[k] != 10 by {
            assert(s.skip(1)[k] == s[k + 1]);
        }
        assert(i - 1 < s.skip(1).len() ==> s.skip(1)[i - 1] == 10);
        lemma_first_newline_is(s.skip(1), i - 1);
    }
}

proof fn lemma_last_run_is(l: Seq<u8>, b: int, e: int)
    requires
        0 <= b <= e <= l.len(),
        forall|k: int| b <= k < e ==> !is_ascii_ws(l[k]),
        b > 0 ==> is_ascii_ws(l[b - 1]),
    ensures
        last_run(l.take(e)) == l.subrange(b, e),
    decreases e - b,
{
    let t = l.take(e);
    if b == e {
        if e == 0 {
            assert(last_run(t) =~= l.subrange(b, e));
        } else {
            assert(is_ascii_ws(t.last()));
            assert(last_run(t) =~= l.subrange(b, e));
        }
    } else {
        assert(t.last() == l[e - 1]);
        assert(!is_ascii_ws(t.last()));
        assert(t.drop_last() =~= l.take(e - 1));
        lemma_last_run_is(l, b, e - 1);
        assert(last_run(t) == last_run(l.take(e - 1)).push(l[e - 1]));
        assert(l.subrange(b, e - 1).push(l[e - 1]) =~= l.subrange(b, e));
    }
}

/// The last whitespace-delimited token of `line`.
pub fn last_token_of(line: &Vec<u8>) -> (r: Vec<u8>)
    ensures
        r@ == last_token(line@),
{
    let n = line.len();
    let mut e: usize = n;
    while e > 0 && is_ws(line[e - 1])
        invariant
            0 <= e <= n == line@.len(),
            forall|k: int| e <= k < n ==> is_ascii_ws(line@[k]),
        decreases e,
    {
        e = e - 1;
    }
    let mut b: usize = e;
    while b > 0 && !is_ws(line[b - 1])
        invariant
            0 <= b <= e <= line@.len(),
            forall|k: int| b <= k < e ==> !is_ascii_ws(line@[k]),
        decreases b,
    {
        b = b - 1;
    }
    proof {
        lemma_trim_trailing_is(line@, e as int);
        lemma_last_run_is(line@, b as int, e as int);
    }
    sub_bytes(line, b, e)
}

/// Extract a line `[from, to)` of `text`, a trailing carriage return
/// stripped.
fn line_at(text: &Vec<u8>, from: usize, to: usize) -> (r: Vec<u8>)
    requires
        from <= to <= text@.len(),
    ensures
        r@ == strip_cr(text@.subrange(from as int, to as int)),
{
    if to > from && text[to - 1] == 13 {
        let r = sub_bytes(text, from, to - 1);
        proof {
            let raw = text@.subrange(from as int, to as int);
            assert(raw.last() == 13);
            assert(raw.drop_last() =~= text@.subrange(from as int, to - 1));
        }
        r
    } else {
        sub_bytes(text, from, to)
    }
}

/// The sitemap URLs declared in the text of a robots-exclusion document:
/// the distinct last whitespace-delimited tokens of the lines containing
/// the token `Sitemap: `, in file order, each value kept at its first
/// occurrence only; `None` when no line declares one. Parsing cannot
/// fail.
pub fn sitemaps_from_robots_txt(text: &Vec<u8>) -> (r: Option<Vec<Vec<u8>>>)
    ensures
        match r {
            Some(v) => views(v@) == distinct_sitemap_entries(text@) && v@.len() > 0
                && distinct(views(v@)),
            None => sitemap_entries(text@).len() == 0,
        },
{
    let token = sitemap_token_vec();
    let n = text.len();
    let mut acc: Vec<Vec<u8>> = Vec::new();
    let mut pos: usize = 0;
    proof {
        assert(text@.skip(0) =~= text@);
        assert(views(acc@) =~= Seq::<Seq<u8>>::empty());
    }
    while pos < n
        invariant
            0 <= pos <= n == text@.len(),
            token@ == sitemap_token(),
            append_new(views(acc@), sitemap_entries(text@.skip(pos as int)))
                == distinct_sitemap_entries(text@),
        decreases n - pos,
    {
        let ghost old_pos = pos as int;
        let ghost a0 = views(acc@);
        let ghost u = text@.skip(old_pos);
        let e = find_byte(text, pos, 10);
        let ghost i = e - old_pos;
        proof {
            assert forall|k: int| 0 <= k < i implies u[k] != 10 by {
                assert(u[k] == text@[old_pos + k]);
            }
            assert(i < u.len() ==> u[i] == 10);
            lemma_first_newline_is(u, i);
            assert(u.take(i) =~= text@.subrange(old_pos, e as int));
        }
        let line = line_at(text, pos, e);
        let ghost lv = strip_cr(u.take(i));
        let ghost head: Seq<Seq<u8>> = if is_sitemap_line(lv) {
            seq![last_token(lv)]
        } else {
            seq![]
        };
        if contains_subseq(&line, token.as_slice()) {
            let tok = last_token_of(&line);
            let already = contains_url(&acc, &tok);
            if !already {
                acc.push(tok);
            }
            proof {
                assert(line@ == lv);
                assert(is_sitemap_line(lv));
                assert(tok@ == last_token(lv));
                assert(head[0] == last_token(lv));
                assert(head.skip(1) =~= Seq::<Seq<u8>>::empty());
                let acc2: Seq<Seq<u8>> = if a0.contains(head[0]) {
                    a0
                } else {
                    a0.push(head[0])
                };
                assert(append_new(acc2, head.skip(1)) == acc2);
                assert(append_new(a0, head) == acc2);
                if already {
                    assert(a0.contains(head[0]));
                    assert(append_new(a0, head) == views(acc@));
                } else {
                    assert(!a0.contains(head[0]));
                    assert(views(acc@) =~= a0.push(tok@));
                    assert(append_new(a0, head) == views(acc@));
                }
            }
        } else {
            proof {
                assert(line@ == lv);
                assert(!is_sitemap_line(lv));
                assert(append_new(a0, head) == views(acc@));
            }
        }
        if e == n {
            pos = n;
            proof {
                assert(i == u.len());
                assert(sitemap_entries(u) == head + Seq::<Seq<u8>>::empty());
                assert(head + Seq::<Seq<u8>>::empty() =~= head);
                assert(append_new(a0, sitemap_entries(u)) == views(acc@));
                assert(text@.skip(pos as int) =~= Seq::<u8>::empty());
                assert(sitemap_entries(Seq::<u8>::empty()) =~= Seq::<Seq<u8>>::empty());
                assert(append_new(views(acc@), sitemap_entries(text@.skip(pos as int)))
                    == views(acc@));
            }
        } else {
            pos = e + 1;
            proof {
                assert(i < u.len());
                let rest = sitemap_entries(u.skip(i + 1));
                assert(sitemap_entries(u) == head + rest);
                lemma_append_new_app(a0, head, rest);
                assert(u.skip(i + 1) =~= text@.skip(pos as int));
                assert(append_new(views(acc@), sitemap_entries(text@.skip(pos as int)))
                    == append_new(a0, sitemap_entries(u)));
            }
        }
    }
    proof {
        assert(text@.skip(n as int) =~= Seq::<u8>::empty());
        assert(sitemap_entries(Seq::<u8>::empty()) =~= Seq::<Seq<u8>>::empty());
        assert(views(acc@) == distinct_sitemap_entries(text@));
        assert(distinct(Seq::<Seq<u8>>::empty()));
        lemma_append_new_distinct(Seq::<Seq<u8>>::empty(), sitemap_entries(text@));
        lemma_append_new_len(Seq::<Seq<u8>>::empty(), sitemap_entries(text@));
    }
    if acc.len() > 0 {
        Some(acc)
    } else {
        None
    }
}

} // verus!
