//! Sitemap resolution: from candidate sitemap URLs to a deduplicated
//! list of leaf page URLs, in discovery order. A sitemap index's
//! entries are resolved depth-first before the rest of the outer
//! document's entries. Every sitemap URL is fetched and parsed at most
//! once — a visited list guards against self-referential and cyclic
//! indices — and a document budget bounds the walk as a whole;
//! exhausting it stops resolution with what was gathered, a recoverable
//! outcome, not a crash. A document that cannot be fetched or parsed is
//! skipped and resolution continues.

use vstd::prelude::*;

use crate::bytes::{
    append_new, bytes_eq, clone_bytes, contains_url, distinct, lemma_append_new_distinct,
    lemma_append_new_of_distinct, views,
};
use crate::sitemap::{parse_doc, parse_sitemap_doc};
use crate::ParseError;

verus! {

/// The body filed under `url` in `docs`, by exact byte equality; the
/// first match wins.
pub open spec fn lookup_doc(docs: Seq<(Seq<u8>, Seq<u8>)>, url: Seq<u8>) -> Option<Seq<u8>>
    decreases docs.len(),
{
    if docs.len() == 0 {
        None
    } else if docs[0].0 == url {
        Some(docs[0].1)
    } else {
        lookup_doc(docs.skip(1), url)
    }
}

/// `p` with its leading already-visited URLs dropped.
pub open spec fn drop_visited(p: Seq<Seq<u8>>, vis: Seq<Seq<u8>>) -> Seq<Seq<u8>>
    decreases p.len(),
{
    if p.len() == 0 {
        p
    } else if vis.contains(p[0]) {
        drop_visited(p.skip(1), vis)
    } else {
        p
    }
}

/// The whole resolution walk: take the first pending URL; skip it when
/// already visited; otherwise mark it visited, spend one unit of the
/// document budget, look its body up and parse it, prepending its
/// nested sitemap references to the pending list and appending its
/// unseen leaf URLs to the output; a URL without a body or with a
/// malformed one is skipped. The walk ends when nothing is pending, or
/// when the budget is exhausted with an unvisited URL at hand.
pub open spec fn resolve_spec(
    docs: Seq<(Seq<u8>, Seq<u8>)>,
    pending: Seq<Seq<u8>>,
    visited: Seq<Seq<u8>>,
    acc: Seq<Seq<u8>>,
    fuel: nat,
) -> Seq<Seq<u8>>
    decreases fuel, pending.len(),
{
    if pending.len() == 0 {
        acc
    } else {
        let url = pending[0];
        let rest = pending.skip(1);
        if visited.contains(url) {
            resolve_spec(docs, rest, visited, acc, fuel)
        } else if fuel == 0 {
            acc
        } else {
            let visited2 = visited.push(url);
            match lookup_doc(docs, url) {
                None => resolve_spec(docs, rest, visited2, acc, (fuel - 1) as nat),
                Some(body) => match parse_doc(body) {
                    None => resolve_spec(docs, rest, visited2, acc, (fuel - 1) as nat),
                    Some(pl) => resolve_spec(
                        docs,
                        pl.0 + rest,
                        visited2,
                        append_new(acc, pl.1),
                        (fuel - 1) as nat,
                    ),
                },
            }
        }
    }
}

/// Whether the walk of `resolve_spec` stops for want of budget: the
/// budget runs out with an unvisited URL still pending. Mirrors
/// `resolve_spec` step for step.
pub open spec fn resolve_exhausted_spec(
    docs: Seq<(Seq<u8>, Seq<u8>)>,
    pending: Seq<Seq<u8>>,
    visited: Seq<Seq<u8>>,
    fuel: nat,
) -> bool
    decreases fuel, pending.len(),
{
    if pending.len() == 0 {
        false
    } else {
        let url = pending[0];
        let rest = pending.skip(1);
        if visited.contains(url) {
            resolve_exhausted_spec(docs, rest, visited, fuel)
        } else if fuel == 0 {
            true
        } else {
            let visited2 = visited.push(url);
            match lookup_doc(docs, url) {
                None => resolve_exhausted_spec(docs, rest, visited2, (fuel - 1) as nat),
                Some(body) => match parse_doc(body) {
                    None => resolve_exhausted_spec(docs, rest, visited2, (fuel - 1) as nat),
                    Some(pl) => resolve_exhausted_spec(
                        docs,
                        pl.0 + rest,
                        visited2,
                        (fuel - 1) as nat,
                    ),
                },
            }
        }
    }
}

/// Skipping already-visited pending URLs does not change what
/// resolution yields, nor whether it exhausts its budget: a sitemap
/// URL is resolved at most once, so a cyclic or self-referential index
/// cannot drive the walk forever.
pub proof fn lemma_resolve_skips_visited(
    docs: Seq<(Seq<u8>, Seq<u8>)>,
    pending: Seq<Seq<u8>>,
    visited: Seq<Seq<u8>>,
    acc: Seq<Seq<u8>>,
    fuel: nat,
)
    ensures
        resolve_spec(docs, pending, visited, acc, fuel) == resolve_spec(
            docs,
            drop_visited(pending, visited),
            visited,
            acc,
            fuel,
        ),
        resolve_exhausted_spec(docs, pending, visited, fuel) == resolve_exhausted_spec(
            docs,
            drop_visited(pending, visited),
            visited,
            fuel,
        ),
    decreases pending.len(),
{
    if pending.len() > 0 && visited.contains(pending[0]) {
        lemma_resolve_skips_visited(docs, pending.skip(1), visited, acc, fuel);
    }
}

/// What `drop_visited` leaves is nonempty exactly when some pending
/// URL is unvisited.
pub proof fn lemma_drop_visited_nonempty(p: Seq<Seq<u8>>, vis: Seq<Seq<u8>>)
    ensures
        (drop_visited(p, vis).len() > 0) <==> (exists|i: int|
            0 <= i < p.len() && !vis.contains(#[trigger] p[i])),
    decreases p.len(),
{
    if p.len() == 0 {
    } else if vis.contains(p[0]) {
        lemma_drop_visited_nonempty(p.skip(1), vis);
        if exists|i: int| 0 <= i < p.skip(1).len() && !vis.contains(#[trigger] p.skip(1)[i]) {
            let i = choose|i: int|
                0 <= i < p.skip(1).len() && !vis.contains(#[trigger] p.skip(1)[i]);
            assert(p[i + 1] == p.skip(1)[i]);
        }
        if exists|i: int| 0 <= i < p.len() && !vis.contains(#[trigger] p[i]) {
            let i = choose|i: int| 0 <= i < p.len() && !vis.contains(#[trigger] p[i]);
            assert(i > 0);
            assert(p.skip(1)[i - 1] == p[i]);
        }
    } else {
        assert(!vis.contains(p[0]));
    }
}

/// What `drop_visited` leaves starts with an unvisited URL.
pub proof fn lemma_drop_visited_head(p: Seq<Seq<u8>>, vis: Seq<Seq<u8>>)
    ensures
        drop_visited(p, vis).len() > 0 ==> !vis.contains(drop_visited(p, vis)[0]),
    decreases p.len(),
{
    if p.len() > 0 && vis.contains(p[0]) {
        lemma_drop_visited_head(p.skip(1), vis);
    }
}

/// Resolution never yields a URL twice: the output is deduplicated.
pub proof fn lemma_resolve_distinct(
    docs: Seq<(Seq<u8>, Seq<u8>)>,
    pending: Seq<Seq<u8>>,
    visited: Seq<Seq<u8>>,
    acc: Seq<Seq<u8>>,
    fuel: nat,
)
    requires
        distinct(acc),
    ensures
        distinct(resolve_spec(docs, pending, visited, acc, fuel)),
    decreases fuel, pending.len(),
{
    if pending.len() == 0 {
    } else {
        let url = pending[0];
        let rest = pending.skip(1);
        if visited.contains(url) {
            lemma_resolve_distinct(docs, rest, visited, acc, fuel);
        } else if fuel == 0 {
        } else {
            let visited2 = visited.push(url);
            match lookup_doc(docs, url) {
                None => lemma_resolve_distinct(docs, rest, visited2, acc, (fuel - 1) as nat),
                Some(body) => match parse_doc(body) {
                    None => lemma_resolve_distinct(docs, rest, visited2, acc, (fuel - 1) as nat),
                    Some(pl) => {
                        lemma_append_new_distinct(acc, pl.1);
                        lemma_resolve_distinct(
                            docs,
                            pl.0 + rest,
                            visited2,
                            append_new(acc, pl.1),
                            (fuel - 1) as nat,
                        );
                    },
                },
            }
        }
    }
}

/// The views of a list of (URL, body) pairs.
pub open spec fn doc_views(d: Seq<(Vec<u8>, Vec<u8>)>) -> Seq<(Seq<u8>, Seq<u8>)> {
    d.map_values(|p: (Vec<u8>, Vec<u8>)| (p.0@, p.1@))
}

proof fn lemma_lookup_skip(d: Seq<(Seq<u8>, Seq<u8>)>, url: Seq<u8>, i: int)
    requires
        0 <= i <= d.len(),
        forall|k: int| 0 <= k < i ==> (#[trigger] d[k]).0 != url,
    ensures
        lookup_doc(d, url) == lookup_doc(d.skip(i), url),
    decreases i,
{
    if i > 0 {
        assert(d[0].0 != url);
        assert forall|k: int| 0 <= k < i - 1 implies (#[trigger] d.skip(1)[k]).0 != url by {
            assert(d.skip(1)[k] == d[k + 1]);
        }
        lemma_lookup_skip(d.skip(1), url, i - 1);
        assert(d.skip(1).skip(i - 1) =~= d.skip(i));
    } else {
        assert(d.skip(0) =~= d);
    }
}

/// The body filed under `url`, by exact byte equality.
fn lookup_body(docs: &Vec<(Vec<u8>, Vec<u8>)>, url: &Vec<u8>) -> (r: Option<Vec<u8>>)
    ensures
        match r {
            Some(b) => lookup_doc(doc_views(docs@), url@) == Some(b@),
            None => lookup_doc(doc_views(docs@), url@) is None,
        },
{
    let ghost d = doc_views(docs@);
    let n = docs.len();
    let mut i: usize = 0;
    while i < n
        invariant
            0 <= i <= n == docs@.len(),
            d == doc_views(docs@),
            forall|k: int| 0 <= k < i ==> (#[trigger] d[k]).0 != url@,
        decreases n - i,
    {
        proof {
            assert(d[i as int] == (docs@[i as int].0@, docs@[i as int].1@));
        }
        if bytes_eq(docs[i].0.as_slice(), url.as_slice()) {
            let b = clone_bytes(&docs[i].1);
            proof {
                lemma_lookup_skip(d, url@, i as int);
                assert(d.skip(i as int)[0] == d[i as int]);
                assert(d.skip(i as int).len() > 0);
            }
            return Some(b);
        }
        i = i + 1;
    }
    proof {
        lemma_lookup_skip(d, url@, n as int);
        assert(d.skip(n as int) =~= Seq::<(Seq<u8>, Seq<u8>)>::empty());
    }
    None
}

/// What one whole resolution returned: the deduplicated leaf page
/// URLs, in discovery order, and whether the walk stopped for want of
/// document budget — a recoverable outcome the caller can report — or
/// ran to completion.
pub struct Resolution {
    pub urls: Vec<Vec<u8>>,
    pub exhausted: bool,
}

/// Resolve the candidate sitemap URLs `roots` against the fetched
/// documents `docs` (URL and body pairs), taking up at most `max_docs`
/// documents: the deduplicated leaf page URLs, in discovery order, and
/// whether the budget ran out with an unvisited sitemap still pending.
/// Terminates on every input, a self-referential or cyclic sitemap
/// index included.
pub fn resolve_documents(
    docs: &Vec<(Vec<u8>, Vec<u8>)>,
    roots: &Vec<Vec<u8>>,
    max_docs: u64,
) -> (r: Resolution)
    ensures
        views(r.urls@) == resolve_spec(
            doc_views(docs@),
            views(roots@),
            Seq::<Seq<u8>>::empty(),
            Seq::<Seq<u8>>::empty(),
            max_docs as nat,
        ),
        distinct(views(r.urls@)),
        r.exhausted == resolve_exhausted_spec(
            doc_views(docs@),
            views(roots@),
            Seq::<Seq<u8>>::empty(),
            max_docs as nat,
        ),
{
    let ghost dv = doc_views(docs@);
    let ghost target = resolve_spec(
        dv,
        views(roots@),
        Seq::<Seq<u8>>::empty(),
        Seq::<Seq<u8>>::empty(),
        max_docs as nat,
    );
    let ghost ex_target = resolve_exhausted_spec(
        dv,
        views(roots@),
        Seq::<Seq<u8>>::empty(),
        max_docs as nat,
    );
    let mut res = Resolver::new(roots, max_docs);
    proof {
        assert(views(res.visited@) =~= Seq::<Seq<u8>>::empty());
        assert(views(res.resolved@) =~= Seq::<Seq<u8>>::empty());
    }
    loop
        invariant
            dv == doc_views(docs@),
            resolve_spec(
                dv,
                views(res.pending@),
                views(res.visited@),
                views(res.resolved@),
                res.budget as nat,
            ) == target,
            resolve_exhausted_spec(
                dv,
                views(res.pending@),
                views(res.visited@),
                res.budget as nat,
            ) == ex_target,
            distinct(views(res.resolved@)),
        ensures
            views(res.resolved@) == target,
            (res.pending@.len() > 0) == ex_target,
            distinct(views(res.resolved@)),
        decreases res.budget,
    {
        let ghost p0 = views(res.pending@);
        let ghost v0 = views(res.visited@);
        let ghost a0 = views(res.resolved@);
        let ghost b0 = res.budget as nat;
        let ghost dp = drop_visited(p0, v0);
        proof {
            lemma_resolve_skips_visited(dv, p0, v0, a0, b0);
        }
        let u = match res.next_url() {
            None => {
                proof {
                    if dp.len() > 0 {
                        lemma_drop_visited_head(p0, v0);
                    }
                    assert(resolve_spec(dv, dp, v0, a0, b0) == a0);
                    assert(resolve_exhausted_spec(dv, dp, v0, b0) == (dp.len() > 0));
                }
                break;
            },
            Some(u) => u,
        };
        proof {
            assert(dp[0] == u@);
            assert(!v0.contains(u@));
            assert(b0 > 0);
        }
        match lookup_body(docs, &u) {
            None => {
                proof {
                    assert(resolve_spec(dv, dp, v0, a0, b0) == resolve_spec(
                        dv,
                        dp.skip(1),
                        v0.push(u@),
                        a0,
                        (b0 - 1) as nat,
                    ));
                    assert(resolve_exhausted_spec(dv, dp, v0, b0) == resolve_exhausted_spec(
                        dv,
                        dp.skip(1),
                        v0.push(u@),
                        (b0 - 1) as nat,
                    ));
                }
            },
            Some(body) => {
                let _delivered = res.deliver(&body);
                proof {
                    match parse_doc(body@) {
                        None => {
                            assert(resolve_spec(dv, dp, v0, a0, b0) == resolve_spec(
                                dv,
                                dp.skip(1),
                                v0.push(u@),
                                a0,
                                (b0 - 1) as nat,
                            ));
                            assert(resolve_exhausted_spec(dv, dp, v0, b0)
                                == resolve_exhausted_spec(
                                dv,
                                dp.skip(1),
                                v0.push(u@),
                                (b0 - 1) as nat,
                            ));
                        },
                        Some(pl) => {
                            assert(resolve_spec(dv, dp, v0, a0, b0) == resolve_spec(
                                dv,
                                pl.0 + dp.skip(1),
                                v0.push(u@),
                                append_new(a0, pl.1),
                                (b0 - 1) as nat,
                            ));
                            assert(resolve_exhausted_spec(dv, dp, v0, b0)
                                == resolve_exhausted_spec(
                                dv,
                                pl.0 + dp.skip(1),
                                v0.push(u@),
                                (b0 - 1) as nat,
                            ));
                            lemma_append_new_distinct(a0, pl.1);
                        },
                    }
                }
            },
        }
    }
    let exhausted = res.pending.len() > 0;
    Resolution { urls: res.resolved, exhausted }
}

/// A sitemap index whose entries point at two urlset documents with
/// disjoint, duplicate-free leaf URL lists resolves to the union of
/// both leaf sets: their concatenation, every leaf of both and nothing
/// else, whenever the document budget covers the three documents.
pub proof fn lemma_index_of_two_urlsets(
    docs: Seq<(Seq<u8>, Seq<u8>)>,
    idx: Seq<u8>,
    u1: Seq<u8>,
    u2: Seq<u8>,
    body0: Seq<u8>,
    b1: Seq<u8>,
    b2: Seq<u8>,
    a: Seq<Seq<u8>>,
    b: Seq<Seq<u8>>,
    fuel: nat,
)
    requires
        lookup_doc(docs, idx) == Some(body0),
        parse_doc(body0) == Some((seq![u1, u2], Seq::<Seq<u8>>::empty())),
        lookup_doc(docs, u1) == Some(b1),
        parse_doc(b1) == Some((Seq::<Seq<u8>>::empty(), a)),
        lookup_doc(docs, u2) == Some(b2),
        parse_doc(b2) == Some((Seq::<Seq<u8>>::empty(), b)),
        u1 != idx,
        u2 != idx,
        u2 != u1,
        distinct(a + b),
        fuel >= 3,
    ensures
        resolve_spec(docs, seq![idx], Seq::<Seq<u8>>::empty(), Seq::<Seq<u8>>::empty(), fuel)
            == a + b,
        resolve_spec(
            docs,
            seq![idx],
            Seq::<Seq<u8>>::empty(),
            Seq::<Seq<u8>>::empty(),
            fuel,
        ).len() == a.len() + b.len(),
{
    let p0: Seq<Seq<u8>> = seq![idx];
    let v0: Seq<Seq<u8>> = Seq::<Seq<u8>>::empty();
    let a0: Seq<Seq<u8>> = Seq::<Seq<u8>>::empty();
    let v1 = v0.push(idx);
    let v2 = v1.push(u1);
    let v3 = v2.push(u2);

    // the index document: its two entries become pending, nothing is a leaf
    assert(!v0.contains(idx));
    assert(p0[0] == idx);
    assert(seq![u1, u2] + p0.skip(1) =~= seq![u1, u2]);
    assert(append_new(a0, Seq::<Seq<u8>>::empty()) == a0);
    let f1 = (fuel - 1) as nat;
    assert(resolve_spec(docs, p0, v0, a0, fuel) == resolve_spec(
        docs,
        seq![u1, u2],
        v1,
        a0,
        f1,
    ));

    // the first urlset: its leaves are gathered whole
    assert forall|i: int| 0 <= i < v1.len() implies v1[i] != u1 by {
        assert(v1[i] == idx);
    }
    assert(!v1.contains(u1));
    assert(seq![u1, u2][0] == u1);
    assert(Seq::<Seq<u8>>::empty() + seq![u1, u2].skip(1) =~= seq![u2]);
    assert forall|i: int, j: int| 0 <= i < j < a.len() implies a[i] != a[j] by {
        assert((a + b)[i] == a[i]);
        assert((a + b)[j] == a[j]);
    }
    assert(a0 + a =~= a);
    lemma_append_new_of_distinct(a0, a);
    assert(append_new(a0, a) == a);
    let f2 = (f1 - 1) as nat;
    assert(resolve_spec(docs, seq![u1, u2], v1, a0, f1) == resolve_spec(
        docs,
        seq![u2],
        v2,
        a,
        f2,
    ));

    // the second urlset: its leaves follow, none duplicating the first's
    assert forall|i: int| 0 <= i < v2.len() implies v2[i] != u2 by {
        if i == 0 {
            assert(v2[i] == idx);
        } else {
            assert(v2[i] == u1);
        }
    }
    assert(!v2.contains(u2));
    assert(seq![u2][0] == u2);
    assert(Seq::<Seq<u8>>::empty() + seq![u2].skip(1) =~= Seq::<Seq<u8>>::empty());
    lemma_append_new_of_distinct(a, b);
    let f3 = (f2 - 1) as nat;
    assert(resolve_spec(docs, seq![u2], v2, a, f2) == resolve_spec(
        docs,
        Seq::<Seq<u8>>::empty(),
        v3,
        a + b,
        f3,
    ));
    assert(resolve_spec(docs, Seq::<Seq<u8>>::empty(), v3, a + b, f3) == a + b);
}

/// The walking state of one resolution: the URLs still to fetch, the
/// URLs already taken up, the leaf URLs gathered so far, and the
/// remaining document budget.
pub struct Resolver {
    pub pending: Vec<Vec<u8>>,
    pub visited: Vec<Vec<u8>>,
    pub resolved: Vec<Vec<u8>>,
    pub budget: u64,
}

fn clone_url_list(v: &Vec<Vec<u8>>) -> (r: Vec<Vec<u8>>)
    ensures
        views(r@) == views(v@),
{
    let n = v.len();
    let mut r: Vec<Vec<u8>> = Vec::new();
    while r.len() < n
        invariant
            r@.len() <= n == v@.len(),
            views(r@) =~= views(v@).take(r@.len() as int),
        decreases n - r@.len(),
    {
        let i = r.len();
        let ghost old_r = r@;
        r.push(clone_bytes(&v[i]));
        proof {
            assert(views(r@) =~= views(v@).take(r@.len() as int));
        }
    }
    proof {
        assert(views(r@) =~= views(v@));
    }
    r
}

impl Resolver {
    /// Begin a resolution of the candidate sitemap URLs `roots`, with a
    /// budget of at most `budget` documents taken up.
    pub fn new(roots: &Vec<Vec<u8>>, budget: u64) -> (r: Resolver)
        ensures
            views(r.pending@) == views(roots@),
            r.visited@.len() == 0,
            r.resolved@.len() == 0,
            r.budget == budget,
    {
        Resolver {
            pending: clone_url_list(roots),
            visited: Vec::new(),
            resolved: Vec::new(),
            budget,
        }
    }

    /// The next sitemap URL to fetch: pending URLs already visited are
    /// discarded; the first unvisited one is marked visited, charged to
    /// the budget and handed out. `None` when nothing unvisited is
    /// pending or the budget is spent.
    pub fn next_url(&mut self) -> (r: Option<Vec<u8>>)
        ensures
            views(final(self).resolved@) == views(old(self).resolved@),
            match r {
                None => {
                    &&& views(final(self).pending@) == drop_visited(
                        views(old(self).pending@),
                        views(old(self).visited@),
                    )
                    &&& views(final(self).visited@) == views(old(self).visited@)
                    &&& final(self).budget == old(self).budget
                    &&& (drop_visited(views(old(self).pending@), views(old(self).visited@)).len()
                        == 0 || old(self).budget == 0)
                },
                Some(u) => {
                    &&& old(self).budget > 0
                    &&& final(self).budget == old(self).budget - 1
                    &&& drop_visited(views(old(self).pending@), views(old(self).visited@)).len()
                        > 0
                    &&& u@ == drop_visited(views(old(self).pending@), views(old(self).visited@))[0]
                    &&& !views(old(self).visited@).contains(u@)
                    &&& views(final(self).pending@) == drop_visited(
                        views(old(self).pending@),
                        views(old(self).visited@),
                    ).skip(1)
                    &&& views(final(self).visited@) == views(old(self).visited@).push(u@)
                },
            },
    {
        let ghost p0 = views(self.pending@);
        let ghost v0 = views(self.visited@);
        let ghost r0 = views(self.resolved@);
        let ghost b0 = self.budget;
        loop
            invariant
                views(self.visited@) == v0,
                views(self.resolved@) == r0,
                self.budget == b0,
                drop_visited(views(self.pending@), v0) == drop_visited(p0, v0),
            ensures
                views(self.visited@) == v0,
                views(self.resolved@) == r0,
                self.budget == b0,
                drop_visited(views(self.pending@), v0) == drop_visited(p0, v0),
                views(self.pending@).len() == 0 || !v0.contains(views(self.pending@)[0]),
            decreases self.pending@.len(),
        {
            if self.pending.len() == 0 {
                break;
            }
            let head_visited = contains_url(&self.visited, &self.pending[0]);
            proof {
                assert(views(self.pending@)[0] == self.pending@[0]@);
            }
            if !head_visited {
                break;
            }
            let ghost pv = views(self.pending@);
            let _ = self.pending.remove(0);
            proof {
                assert(views(self.pending@) =~= pv.skip(1));
                assert(drop_visited(pv, v0) == drop_visited(pv.skip(1), v0));
            }
        }
        proof {
            if views(self.pending@).len() == 0 {
                assert(drop_visited(views(self.pending@), v0) =~= views(self.pending@));
            } else {
                assert(drop_visited(views(self.pending@), v0) == views(self.pending@));
            }
        }
        if self.pending.len() == 0 {
            return None;
        }
        if self.budget == 0 {
            return None;
        }
        let ghost pv = views(self.pending@);
        let u = self.pending.remove(0);
        self.visited.push(clone_bytes(&u));
        self.budget = self.budget - 1;
        proof {
            assert(views(self.pending@) =~= pv.skip(1));
            assert(views(self.visited@) =~= v0.push(u@));
            assert(pv[0] == u@);
        }
        Some(u)
    }

    /// Whether the walk has stopped for want of budget: the document
    /// budget is spent while an unvisited sitemap URL is still
    /// pending — a recoverable outcome the caller can report.
    pub fn exhausted(&self) -> (r: bool)
        ensures
            r == (self.budget == 0 && drop_visited(
                views(self.pending@),
                views(self.visited@),
            ).len() > 0),
    {
        if self.budget != 0 {
            return false;
        }
        let n = self.pending.len();
        let mut i: usize = 0;
        while i < n
            invariant
                0 <= i <= n == self.pending@.len(),
                self.budget == 0,
                forall|k: int|
                    0 <= k < i ==> views(self.visited@).contains(
                        #[trigger] views(self.pending@)[k],
                    ),
            decreases n - i,
        {
            if !contains_url(&self.visited, &self.pending[i]) {
                proof {
                    lemma_drop_visited_nonempty(views(self.pending@), views(self.visited@));
                    assert(views(self.pending@).len() == self.pending@.len());
                    assert(views(self.pending@)[i as int] == self.pending@[i as int]@);
                    assert(!views(self.visited@).contains(views(self.pending@)[i as int]));
                    assert(drop_visited(views(self.pending@), views(self.visited@)).len() > 0);
                }
                return true;
            }
            proof {
                assert(views(self.pending@)[i as int] == self.pending@[i as int]@);
            }
            i = i + 1;
        }
        proof {
            lemma_drop_visited_nonempty(views(self.pending@), views(self.visited@));
            assert(forall|k: int|
                0 <= k < views(self.pending@).len() ==> views(self.visited@).contains(
                    #[trigger] views(self.pending@)[k],
                ));
        }
        false
    }

    /// Take up the fetched body of the URL last handed out: parse it,
    /// queue its nested sitemap references ahead of the remaining
    /// pending URLs, and append its unseen leaf URLs to the output. A
    /// malformed body changes nothing and reports the parse failure.
    pub fn deliver(&mut self, body: &Vec<u8>) -> (r: Result<(), ParseError>)
        ensures
            final(self).budget == old(self).budget,
            views(final(self).visited@) == views(old(self).visited@),
            match r {
                Ok(_) => {
                    &&& parse_doc(body@) matches Some(pl)
                    &&& views(final(self).pending@) == pl.0 + views(old(self).pending@)
                    &&& views(final(self).resolved@) == append_new(
                        views(old(self).resolved@),
                        pl.1,
                    )
                },
                Err(_) => {
                    &&& parse_doc(body@) is None
                    &&& views(final(self).pending@) == views(old(self).pending@)
                    &&& views(final(self).resolved@) == views(old(self).resolved@)
                },
            },
    {
        match parse_sitemap_doc(body) {
            Err(e) => Err(e),
            Ok(p) => {
                let ghost pl0 = views(p.nested@);
                let ghost pl1 = views(p.leaves@);
                let ghost pv = views(self.pending@);
                let mut np = p.nested;
                np.append(&mut self.pending);
                self.pending = np;
                proof {
                    assert(views(self.pending@) =~= pl0 + pv);
                }
                let leaves = p.leaves;
                let n = leaves.len();
                let mut i: usize = 0;
                let ghost r0 = views(self.resolved@);
                let ghost v1 = views(self.visited@);
                let ghost b1 = self.budget;
                proof {
                    assert(views(leaves@).skip(0) =~= views(leaves@));
                }
                while i < n
                    invariant
                        0 <= i <= n == leaves@.len(),
                        views(self.pending@) == pl0 + pv,
                        views(self.visited@) == v1,
                        self.budget == b1,
                        append_new(views(self.resolved@), views(leaves@).skip(i as int))
                            == append_new(r0, views(leaves@)),
                    decreases n - i,
                {
                    let ghost rv = views(self.resolved@);
                    let ghost xs = views(leaves@).skip(i as int);
                    let leaf = clone_bytes(&leaves[i]);
                    proof {
                        assert(xs[0] == views(leaves@)[i as int]);
                        assert(views(leaves@)[i as int] == leaves@[i as int]@);
                        assert(xs.skip(1) =~= views(leaves@).skip(i + 1));
                    }
                    if !contains_url(&self.resolved, &leaf) {
                        self.resolved.push(leaf);
                        proof {
                            assert(views(self.resolved@) =~= rv.push(xs[0]));
                        }
                    }
                    i = i + 1;
                }
                proof {
                    assert(views(leaves@).skip(n as int) =~= Seq::<Seq<u8>>::empty());
                    assert(append_new(views(self.resolved@), Seq::<Seq<u8>>::empty())
                        == views(self.resolved@));
                }
                Ok(())
            },
        }
    }
}

} // verus!
