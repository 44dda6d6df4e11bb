//! Streaming sitemap-XML parser. A document is read as a stream of
//! events — start-tag, text, end of document — without building a tree.
//! A small state machine follows the stream: a `sitemap` start-tag opens
//! a nested sitemap reference, a `url` start-tag opens a leaf page
//! entry, a `loc` start-tag arms capture of the next text node. A
//! `urlset` start-tag carries no state of its own: the leaf entries of a
//! urlset document are its `url`/`loc` values.
//!
//! The scanner is minimal: a tag runs from `<` to the first `>`; a tag
//! opened by `</`, `<!` or `<?`, a self-closing tag, and a tag with an
//! empty name are not start-tags; text between tags is trimmed of
//! whitespace and an all-whitespace run is no text node. A `<` that no
//! `>` follows is malformed and the document is rejected.

use vstd::prelude::*;

use crate::bytes::{
    bytes_eq, find_byte, find_pos, is_ascii_ws, is_ws, lemma_find_pos_bounds, sub_bytes,
    trim_ws, trim_ws_vec, views,
};
use crate::ParseError;

verus! {

/// Which element the walk is inside: a `sitemap` entry of a sitemap
/// index, a `url` entry of a urlset, or anything else.
#[derive(Clone, Copy, Debug, PartialEq, Eq, Structural)]
pub enum ParserState {
    Index,
    Entry,
    Other,
}

/// The tag name `sitemap`.
pub open spec fn sitemap_name() -> Seq<u8> {
    seq![115u8, 105u8, 116u8, 101u8, 109u8, 97u8, 112u8]
}

/// The tag name `url`.
pub open spec fn url_name() -> Seq<u8> {
    seq![117u8, 114u8, 108u8]
}

/// The tag name `loc`.
pub open spec fn loc_name() -> Seq<u8> {
    seq![108u8, 111u8, 99u8]
}

/// Length of the leading tag name of `t`: the run before the first
/// whitespace or `/`.
pub open spec fn name_len(t: Seq<u8>) -> int
    decreases t.len(),
{
    if t.len() == 0 {
        0
    } else if is_ascii_ws(t[0]) || t[0] == 47 {
        0
    } else {
        1 + name_len(t.skip(1))
    }
}

pub proof fn lemma_name_len_bounds(t: Seq<u8>)
    ensures
        0 <= name_len(t) <= t.len(),
        forall|k: int| 0 <= k < name_len(t) ==> !(is_ascii_ws(t[k]) || t[k] == 47),
        name_len(t) < t.len() ==> (is_ascii_ws(t[name_len(t)]) || t[name_len(t)] == 47),
    decreases t.len(),
{
    if t.len() > 0 && !(is_ascii_ws(t[0]) || t[0] == 47) {
        lemma_name_len_bounds(t.skip(1));
        let n = name_len(t);
        assert forall|k: int| 0 <= k < n implies !(is_ascii_ws(t[k]) || t[k] == 47) by {
            if k > 0 {
                assert(t.skip(1)[k - 1] == t[k]);
            }
        }
        if n < t.len() {
            assert(t.skip(1)[n - 1] == t[n]);
        }
    }
}

/// The tag name of the tag content `t`.
pub open spec fn tag_name(t: Seq<u8>) -> Seq<u8> {
    t.take(name_len(t))
}

/// The walk over the event stream of document `s` from position `i` on,
/// in state `st` with capture flag `to_read`, having gathered the
/// nested sitemap references `nested` and the leaf page URLs `leaves`.
/// `None` is a malformed document.
pub open spec fn scan_doc(
    s: Seq<u8>,
    i: int,
    st: ParserState,
    to_read: bool,
    nested: Seq<Seq<u8>>,
    leaves: Seq<Seq<u8>>,
) -> Option<(Seq<Seq<u8>>, Seq<Seq<u8>>)>
    decreases s.len() - i,
    via scan_doc_dec
{
    if i < 0 {
        None
    } else {
        let j = find_pos(s, i, 60);
        let text = trim_ws(s.subrange(i, j));
        let capture = text.len() > 0 && to_read && (st == ParserState::Index || st
            == ParserState::Entry);
        let nested2 = if capture && st == ParserState::Index {
            nested.push(text)
        } else {
            nested
        };
        let leaves2 = if capture && st == ParserState::Entry {
            leaves.push(text)
        } else {
            leaves
        };
        let to_read2 = if capture {
            false
        } else {
            to_read
        };
        if j == s.len() {
            Some((nested2, leaves2))
        } else {
            let k = find_pos(s, j + 1, 62);
            if k == s.len() {
                None
            } else {
                let t = s.subrange(j + 1, k);
                if t.len() == 0 || t[0] == 47 || t[0] == 33 || t[0] == 63 || t.last() == 47 {
                    scan_doc(s, k + 1, st, to_read2, nested2, leaves2)
                } else {
                    let name = tag_name(t);
                    if name == url_name() {
                        scan_doc(s, k + 1, ParserState::Entry, to_read2, nested2, leaves2)
                    } else if name == sitemap_name() {
                        scan_doc(s, k + 1, ParserState::Index, to_read2, nested2, leaves2)
                    } else if name == loc_name() {
                        scan_doc(s, k + 1, st, true, nested2, leaves2)
                    } else {
                        scan_doc(s, k + 1, ParserState::Other, to_read2, nested2, leaves2)
                    }
                }
            }
        }
    }
}

#[via_fn]
proof fn scan_doc_dec(
    s: Seq<u8>,
    i: int,
    st: ParserState,
    to_read: bool,
    nested: Seq<Seq<u8>>,
    leaves: Seq<Seq<u8>>,
) {
    if 0 <= i <= s.len() {
        lemma_find_pos_bounds(s, i, 60);
        let j = find_pos(s, i, 60);
        if j < s.len() {
            lemma_find_pos_bounds(s, j + 1, 62);
        }
    }
}

/// The parse of a whole sitemap document: its nested sitemap references
/// and its leaf page URLs, in document order; `None` when malformed.
pub open spec fn parse_doc(s: Seq<u8>) -> Option<(Seq<Seq<u8>>, Seq<Seq<u8>>)> {
    scan_doc(s, 0, ParserState::Other, false, seq![], seq![])
}

/// What one sitemap document yields: the sitemap references of its
/// index entries and the page URLs of its urlset entries.
#[derive(Debug)]
pub struct ParsedSitemap {
    pub nested: Vec<Vec<u8>>,
    pub leaves: Vec<Vec<u8>>,
}

fn sitemap_name_vec() -> (r: Vec<u8>)
    ensures
        r@ == sitemap_name(),
{
    let mut r: Vec<u8> = Vec::new();
    r.push(115);
    r.push(105);
    r.push(116);
    r.push(101);
    r.push(109);
    r.push(97);
    r.push(112);
    assert(r@ =~= sitemap_name());
    r
}

fn url_name_vec() -> (r: Vec<u8>)
    ensures
        r@ == url_name(),
{
    let mut r: Vec<u8> = Vec::new();
    r.push(117);
    r.push(114);
    r.push(108);
    assert(r@ =~= url_name());
    r
}

fn loc_name_vec() -> (r: Vec<u8>)
    ensures
        r@ == loc_name(),
{
    let mut r: Vec<u8> = Vec::new();
    r.push(108);
    r.push(111);
    r.push(99);
    assert(r@ =~= loc_name());
    r
}

/// Length of the leading tag name of `t`.
fn name_len_of(t: &Vec<u8>) -> (r: usize)
    ensures
        r == name_len(t@),
{
    let n = t.len();
    let mut i: usize = 0;
    while i < n && !is_ws(t[i]) && t[i] != 47
        invariant
            0 <= i <= n == t@.len(),
            forall|k: int| 0 <= k < i ==> !(is_ascii_ws(t@[k]) || t@[k] == 47),
        decreases n - i,
    {
        i = i + 1;
    }
    proof {
        lemma_name_len_agrees(t@, i as int);
    }
    i
}

proof fn lemma_name_len_agrees(t: Seq<u8>, i: int)
    requires
        0 <= i <= t.len(),
        forall|k: int| 0 <= k < i ==> !(is_ascii_ws(t[k]) || t[k] == 47),
        i < t.len() ==> (is_ascii_ws(t[i]) || t[i] == 47),
    ensures
        name_len(t) == i,
    decreases i,
{
    if t.len() == 0 || i == 0 {
    } else {
        assert forall|k: int| 0 <= k < i - 1 implies !(is_ascii_ws(t.skip(1)[k]) || t.skip(1)[k]
            == 47) by {
            assert(t.skip(1)[k] == t[k + 1]);
        }
        assert(i - 1 < t.skip(1).len() ==> (is_ascii_ws(t.skip(1)[i - 1]) || t.skip(1)[i - 1]
            == 47));
        lemma_name_len_agrees(t.skip(1), i - 1);
    }
}

/// Parse one sitemap document into its nested sitemap references and
/// its leaf page URLs. A document without a single `>` after some `<`
/// is malformed; a document with no recognizable tags yields empty
/// lists, not an error.
pub fn parse_sitemap_doc(body: &Vec<u8>) -> (r: Result<ParsedSitemap, ParseError>)
    ensures
        match r {
            Ok(p) => parse_doc(body@) == Some((views(p.nested@), views(p.leaves@))),
            Err(_) => parse_doc(body@) is None,
        },
{
    let url_tag = url_name_vec();
    let sitemap_tag = sitemap_name_vec();
    let loc_tag = loc_name_vec();
    let n = body.len();
    let mut pos: usize = 0;
    let mut st = ParserState::Other;
    let mut to_read = false;
    let mut nested: Vec<Vec<u8>> = Vec::new();
    let mut leaves: Vec<Vec<u8>> = Vec::new();
    proof {
        assert(views(nested@) =~= Seq::<Seq<u8>>::empty());
        assert(views(leaves@) =~= Seq::<Seq<u8>>::empty());
        assert(scan_doc(body@, 0, st, to_read, views(nested@), views(leaves@)) == parse_doc(
            body@,
        ));
    }
    loop
        invariant
            0 <= pos <= n == body@.len(),
            url_tag@ == url_name(),
            sitemap_tag@ == sitemap_name(),
            loc_tag@ == loc_name(),
            scan_doc(body@, pos as int, st, to_read, views(nested@), views(leaves@))
                == parse_doc(body@),
        decreases n - pos + 1,
    {
        let ghost old_pos = pos as int;
        let ghost old_nested = views(nested@);
        let ghost old_leaves = views(leaves@);
        let ghost old_st = st;
        let ghost old_to_read = to_read;
        let j = find_byte(body, pos, 60);
        let raw = sub_bytes(body, pos, j);
        let text = trim_ws_vec(&raw);
        let ghost tview = trim_ws(body@.subrange(old_pos, j as int));
        proof {
            assert(text@ == tview);
        }
        let capture = text.len() > 0 && to_read && (matches!(st, ParserState::Index)
            || matches!(st, ParserState::Entry));
        if capture {
            if matches!(st, ParserState::Index) {
                nested.push(text);
                proof {
                    assert(views(nested@) =~= old_nested.push(tview));
                }
            } else {
                leaves.push(text);
                proof {
                    assert(views(leaves@) =~= old_leaves.push(tview));
                }
            }
            to_read = false;
        }
        if j == n {
            proof {
                assert(scan_doc(body@, old_pos, old_st, old_to_read, old_nested, old_leaves)
                    == Some((views(nested@), views(leaves@))));
            }
            return Ok(ParsedSitemap { nested, leaves });
        }
        let k = find_byte(body, j + 1, 62);
        if k == n {
            proof {
                assert(scan_doc(body@, old_pos, old_st, old_to_read, old_nested, old_leaves)
                    is None);
            }
            return Err(ParseError::UnclosedTag);
        }
        let t = sub_bytes(body, j + 1, k);
        let ghost tagv = body@.subrange(j + 1, k as int);
        if t.len() == 0 || t[0] == 47 || t[0] == 33 || t[0] == 63 || t[t.len() - 1] == 47 {
            // an end tag, a declaration, a comment, or self-closing:
            // no state change
        } else {
            let nl = name_len_of(&t);
            proof {
                lemma_name_len_bounds(tagv);
            }
            let name = sub_bytes(&t, 0, nl);
            proof {
                assert(name@ =~= tag_name(tagv));
            }
            if bytes_eq(name.as_slice(), url_tag.as_slice()) {
                st = ParserState::Entry;
            } else if bytes_eq(name.as_slice(), sitemap_tag.as_slice()) {
                st = ParserState::Index;
            } else if bytes_eq(name.as_slice(), loc_tag.as_slice()) {
                to_read = true;
            } else {
                st = ParserState::Other;
            }
        }
        pos = k + 1;
        proof {
            assert(scan_doc(body@, old_pos, old_st, old_to_read, old_nested, old_leaves)
                == scan_doc(body@, pos as int, st, to_read, views(nested@), views(leaves@)));
        }
    }
}

} // verus!
