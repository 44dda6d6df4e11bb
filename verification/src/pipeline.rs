//! Crawl event pipeline: the per-event bookkeeping of a crawl run. Per
//! visited page the pipeline classifies a bounded cache lookup's
//! outcome (for reporting only — it never gates the work), invokes the
//! content transformer, renders the ordered output block, and issues
//! the monotonic visit counter in receive order. The driving loop —
//! channel receive, task spawning, the race between producer completion
//! and channel closure — lives with the caller; every decision it needs
//! stands here.

use vstd::prelude::*;

use spider_transformations::transformation::content;

use crate::bytes::{contains_seq, find_subseq, first_match, sub_bytes, views};

verus! {

/// One visit notification from the crawl engine: the page's URL and
/// its fetched document body.
pub struct VisitEvent {
    pub url: Vec<u8>,
    pub body: Vec<u8>,
}

/// The external cache store's reply to a bounded lookup, as plain
/// values: the cached entry, no entry, the time bound struck, or the
/// lookup failed for another reason.
pub enum CacheLookup {
    Found(Vec<u8>),
    Absent,
    TimedOut,
    Failed,
}

/// The reported classification of a cache lookup. Derived per visit
/// event and used only for observability: it never decides whether
/// transformation proceeds.
#[derive(Clone, Copy, Debug, PartialEq, Eq, Structural)]
pub enum CacheOutcome {
    Hit,
    Miss,
    TimedOut,
    LookupError,
}

/// How a lookup reply classifies. A timeout is kept apart from a miss
/// only here, in the report; control flow treats the two alike.
pub open spec fn outcome_of(l: CacheLookup) -> CacheOutcome {
    match l {
        CacheLookup::Found(_) => CacheOutcome::Hit,
        CacheLookup::Absent => CacheOutcome::Miss,
        CacheLookup::TimedOut => CacheOutcome::TimedOut,
        CacheLookup::Failed => CacheOutcome::LookupError,
    }
}

/// Classify a cache lookup's reply for the run's report.
pub fn classify_lookup(l: &CacheLookup) -> (o: CacheOutcome)
    ensures
        o == outcome_of(*l),
{
    match l {
        CacheLookup::Found(_) => CacheOutcome::Hit,
        CacheLookup::Absent => CacheOutcome::Miss,
        CacheLookup::TimedOut => CacheOutcome::TimedOut,
        CacheLookup::Failed => CacheOutcome::LookupError,
    }
}

/// How many replies in `ls` classify as `o`.
pub open spec fn outcome_count(ls: Seq<CacheLookup>, o: CacheOutcome) -> nat
    decreases ls.len(),
{
    if ls.len() == 0 {
        0
    } else {
        outcome_count(ls.drop_last(), o) + (if outcome_of(ls.last()) == o {
            1nat
        } else {
            0nat
        })
    }
}

pub proof fn lemma_outcome_count_le(ls: Seq<CacheLookup>, o: CacheOutcome)
    ensures
        outcome_count(ls, o) <= ls.len(),
    decreases ls.len(),
{
    if ls.len() > 0 {
        lemma_outcome_count_le(ls.drop_last(), o);
    }
}

/// The fixed prefix `page:` that keys cache lookups.
pub open spec fn cache_prefix() -> Seq<u8> {
    seq![112u8, 97u8, 103u8, 101u8, 58u8]
}

/// The cache key of a page: the fixed prefix followed by the page URL.
pub fn cache_key(url: &Vec<u8>) -> (r: Vec<u8>)
    ensures
        r@ == cache_prefix() + url@,
{
    let mut r: Vec<u8> = Vec::new();
    r.push(112);
    r.push(97);
    r.push(103);
    r.push(101);
    r.push(58);
    assert(r@ =~= cache_prefix());
    push_bytes(&mut r, url);
    r
}

/// What the content transformer returns for a document body: the
/// markdown rewrite is a function of the text alone.
pub uninterp spec fn markdown_of(html: Seq<u8>) -> Seq<u8>;

/// Relies on `spider_transformations::transformation::content::
/// transform_markdown` (the non-commonmark rewrite): it computes the
/// markdown of the document text it is given, and of nothing else.
#[verifier::external_body]
fn to_markdown(html: &Vec<u8>) -> (r: Vec<u8>)
    ensures
        r@ == markdown_of(html@),
{
    let text = String::from_utf8_lossy(html);
    content::transform_markdown(text.as_ref(), false).into_bytes()
}

/// The decimal digits of `n`, most significant first.
pub open spec fn dec_digits(n: nat) -> Seq<u8>
    decreases n,
{
    if n < 10 {
        seq![(48 + n) as u8]
    } else {
        dec_digits(n / 10).push((48 + n % 10) as u8)
    }
}

fn push_decimal(out: &mut Vec<u8>, n: u64)
    ensures
        final(out)@ == old(out)@ + dec_digits(n as nat),
    decreases n,
{
    if n < 10 {
        out.push(48 + (n as u8));
        assert(final(out)@ =~= old(out)@ + dec_digits(n as nat));
    } else {
        push_decimal(out, n / 10);
        assert(n % 10 < 10);
        out.push(48 + ((n % 10) as u8));
        assert(final(out)@ =~= old(out)@ + dec_digits(n as nat));
    }
}

fn push_bytes(out: &mut Vec<u8>, s: &Vec<u8>)
    ensures
        final(out)@ == old(out)@ + s@,
{
    let n = s.len();
    let mut i: usize = 0;
    proof {
        assert(out@ =~= old(out)@ + s@.take(0));
    }
    while i < n
        invariant
            0 <= i <= n == s@.len(),
            out@ == old(out)@ + s@.take(i as int),
        decreases n - i,
    {
        out.push(s[i]);
        proof {
            assert(out@ =~= old(out)@ + s@.take(i + 1));
        }
        i = i + 1;
    }
    proof {
        assert(s@.take(n as int) =~= s@);
    }
}

/// The fixed block separator, a `#### ==== ####` rule between blank
/// lines.
pub open spec fn separator() -> Seq<u8> {
    seq![
        10u8, 10u8, 35u8, 35u8, 35u8, 35u8, 32u8, 61u8, 61u8, 61u8, 61u8, 32u8, 35u8, 35u8,
        35u8, 35u8, 10u8,
    ]
}

fn separator_vec() -> (r: Vec<u8>)
    ensures
        r@ == separator(),
{
    let mut r: Vec<u8> = Vec::new();
    r.push(10);
    r.push(10);
    r.push(35);
    r.push(35);
    r.push(35);
    r.push(35);
    r.push(32);
    r.push(61);
    r.push(61);
    r.push(61);
    r.push(61);
    r.push(32);
    r.push(35);
    r.push(35);
    r.push(35);
    r.push(35);
    r.push(10);
    assert(r@ =~= separator());
    r
}

/// The header line of one output block: the visit counter, ` => `, the
/// page URL, a line feed.
pub open spec fn header_line(count: nat, url: Seq<u8>) -> Seq<u8> {
    dec_digits(count) + seq![32u8, 61u8, 62u8, 32u8] + url + seq![10u8]
}

/// One output block: the separator, the header line, the transformed
/// body, a line feed.
pub open spec fn render_output(count: nat, url: Seq<u8>, md: Seq<u8>) -> Seq<u8> {
    separator() + header_line(count, url) + md + seq![10u8]
}

/// The run's closing summary line: elapsed milliseconds and the total
/// page count.
pub open spec fn summary_line(elapsed_ms: nat, total: nat) -> Seq<u8> {
    seq![
        84u8, 105u8, 109u8, 101u8, 32u8, 101u8, 108u8, 97u8, 112u8, 115u8, 101u8, 100u8, 58u8,
        32u8,
    ] + dec_digits(elapsed_ms) + seq![
        109u8, 115u8, 32u8, 102u8, 111u8, 114u8, 32u8, 116u8, 111u8, 116u8, 97u8, 108u8, 32u8,
        112u8, 97u8, 103u8, 101u8, 115u8, 58u8, 32u8,
    ] + dec_digits(total) + seq![10u8]
}

/// Render the closing summary, `Time elapsed: <ms>ms for total pages:
/// <n>`. It is emitted whatever partial failures the run met.
pub fn render_summary(elapsed_ms: u64, total: u64) -> (r: Vec<u8>)
    ensures
        r@ == summary_line(elapsed_ms as nat, total as nat),
{
    let mut r: Vec<u8> = Vec::new();
    r.push(84);
    r.push(105);
    r.push(109);
    r.push(101);
    r.push(32);
    r.push(101);
    r.push(108);
    r.push(97);
    r.push(112);
    r.push(115);
    r.push(101);
    r.push(100);
    r.push(58);
    r.push(32);
    let ghost lead = r@;
    proof {
        assert(lead =~= seq![
            84u8, 105u8, 109u8, 101u8, 32u8, 101u8, 108u8, 97u8, 112u8, 115u8, 101u8, 100u8,
            58u8, 32u8,
        ]);
    }
    push_decimal(&mut r, elapsed_ms);
    let mut mid: Vec<u8> = Vec::new();
    mid.push(109);
    mid.push(115);
    mid.push(32);
    mid.push(102);
    mid.push(111);
    mid.push(114);
    mid.push(32);
    mid.push(116);
    mid.push(111);
    mid.push(116);
    mid.push(97);
    mid.push(108);
    mid.push(32);
    mid.push(112);
    mid.push(97);
    mid.push(103);
    mid.push(101);
    mid.push(115);
    mid.push(58);
    mid.push(32);
    proof {
        assert(mid@ =~= seq![
            109u8, 115u8, 32u8, 102u8, 111u8, 114u8, 32u8, 116u8, 111u8, 116u8, 97u8, 108u8,
            32u8, 112u8, 97u8, 103u8, 101u8, 115u8, 58u8, 32u8,
        ]);
    }
    push_bytes(&mut r, &mid);
    push_decimal(&mut r, total);
    r.push(10);
    proof {
        assert(r@ =~= summary_line(elapsed_ms as nat, total as nat));
    }
    r
}

/// The engine-facing sitemap path of a declared sitemap URL: a `/`
/// followed by the part of the URL after the first occurrence of the
/// site's own root URL, up to its next occurrence. `None` when the
/// sitemap URL does not mention the root at all.
pub open spec fn sitemap_path_spec(target: Seq<u8>, sitemap_url: Seq<u8>) -> Option<Seq<u8>> {
    if !contains_seq(sitemap_url, target) {
        None
    } else {
        let rest = sitemap_url.skip(first_match(sitemap_url, target) + target.len());
        let seg = if contains_seq(rest, target) {
            rest.take(first_match(rest, target))
        } else {
            rest
        };
        Some(seq![47u8] + seg)
    }
}

/// Derive the path under which the engine is pointed at a declared
/// sitemap, from the site root and the sitemap's full URL.
pub fn sitemap_path(target: &Vec<u8>, sitemap_url: &Vec<u8>) -> (r: Option<Vec<u8>>)
    ensures
        match r {
            Some(p) => sitemap_path_spec(target@, sitemap_url@) == Some(p@),
            None => sitemap_path_spec(target@, sitemap_url@) is None,
        },
{
    let url_len = sitemap_url.len();
    assert(sitemap_url@.len() == url_len <= usize::MAX);
    match find_subseq(sitemap_url, target.as_slice()) {
        None => None,
        Some(i) => {
            let from = i + target.len();
            let rest = sub_bytes(sitemap_url, from, sitemap_url.len());
            proof {
                assert(rest@ =~= sitemap_url@.skip(first_match(sitemap_url@, target@)
                    + target@.len()));
            }
            let seg = match find_subseq(&rest, target.as_slice()) {
                Some(j) => sub_bytes(&rest, 0, j),
                None => rest,
            };
            let mut out: Vec<u8> = Vec::new();
            out.push(47);
            proof {
                assert(out@ =~= seq![47u8]);
            }
            push_bytes(&mut out, &seg);
            proof {
                assert(seg@ == (if contains_seq(
                    sitemap_url@.skip(first_match(sitemap_url@, target@) + target@.len()),
                    target@,
                ) {
                    sitemap_url@.skip(first_match(sitemap_url@, target@) + target@.len()).take(
                        first_match(
                            sitemap_url@.skip(
                                first_match(sitemap_url@, target@) + target@.len(),
                            ),
                            target@,
                        ),
                    )
                } else {
                    sitemap_url@.skip(first_match(sitemap_url@, target@) + target@.len())
                }));
            }
            Some(out)
        },
    }
}

/// The running state of one crawl's consumer side: the monotonic visit
/// counter, issued in receive order, and the tally of cache-outcome
/// classifications, kept for the run's report.
pub struct Pipeline {
    pub visit_count: u64,
    pub hits: u64,
    pub misses: u64,
    pub timeouts: u64,
    pub lookup_errors: u64,
}

impl Pipeline {
    /// A fresh pipeline: nothing visited, nothing tallied.
    pub fn new() -> (r: Pipeline)
        ensures
            r.visit_count == 0,
            r.hits == 0,
            r.misses == 0,
            r.timeouts == 0,
            r.lookup_errors == 0,
    {
        Pipeline { visit_count: 0, hits: 0, misses: 0, timeouts: 0, lookup_errors: 0 }
    }

    /// Take up one delivered visit event: tally the cache lookup's
    /// classification, transform the page body, render the output
    /// block under the current counter value, and advance the counter.
    /// The cache outcome never gates the transformation.
    pub fn process_event(&mut self, ev: &VisitEvent, lookup: &CacheLookup) -> (out: Vec<u8>)
        requires
            old(self).visit_count < u64::MAX,
            old(self).hits < u64::MAX,
            old(self).misses < u64::MAX,
            old(self).timeouts < u64::MAX,
            old(self).lookup_errors < u64::MAX,
        ensures
            final(self).visit_count == old(self).visit_count + 1,
            out@ == render_output(
                old(self).visit_count as nat,
                ev.url@,
                markdown_of(ev.body@),
            ),
            final(self).hits == old(self).hits + (if outcome_of(*lookup) == CacheOutcome::Hit {
                1int
            } else {
                0int
            }),
            final(self).misses == old(self).misses + (if outcome_of(*lookup)
                == CacheOutcome::Miss {
                1int
            } else {
                0int
            }),
            final(self).timeouts == old(self).timeouts + (if outcome_of(*lookup)
                == CacheOutcome::TimedOut {
                1int
            } else {
                0int
            }),
            final(self).lookup_errors == old(self).lookup_errors + (if outcome_of(*lookup)
                == CacheOutcome::LookupError {
                1int
            } else {
                0int
            }),
    {
        match classify_lookup(lookup) {
            CacheOutcome::Hit => {
                self.hits = self.hits + 1;
            },
            CacheOutcome::Miss => {
                self.misses = self.misses + 1;
            },
            CacheOutcome::TimedOut => {
                self.timeouts = self.timeouts + 1;
            },
            CacheOutcome::LookupError => {
                self.lookup_errors = self.lookup_errors + 1;
            },
        }
        let md = to_markdown(&ev.body);
        let mut out = separator_vec();
        push_decimal(&mut out, self.visit_count);
        out.push(32);
        out.push(61);
        out.push(62);
        out.push(32);
        push_bytes(&mut out, &ev.url);
        out.push(10);
        push_bytes(&mut out, &md);
        out.push(10);
        self.visit_count = self.visit_count + 1;
        proof {
            assert(out@ =~= render_output(
                old(self).visit_count as nat,
                ev.url@,
                markdown_of(ev.body@),
            ));
        }
        out
    }

    /// Drain a delivered event sequence in order, one lookup reply per
    /// event. Every delivered event is taken up — none is lost — the
    /// run terminates even when nothing was delivered, and afterwards
    /// the counter has advanced by exactly the number of delivered
    /// events, whatever order spawned work completes in.
    pub fn run_events(&mut self, events: &Vec<VisitEvent>, lookups: &Vec<CacheLookup>) -> (outs:
        Vec<Vec<u8>>)
        requires
            lookups@.len() == events@.len(),
            old(self).visit_count + events@.len() <= u64::MAX,
            old(self).hits + events@.len() <= u64::MAX,
            old(self).misses + events@.len() <= u64::MAX,
            old(self).timeouts + events@.len() <= u64::MAX,
            old(self).lookup_errors + events@.len() <= u64::MAX,
        ensures
            outs@.len() == events@.len(),
            final(self).visit_count == old(self).visit_count + events@.len(),
            final(self).hits == old(self).hits + outcome_count(lookups@, CacheOutcome::Hit),
            final(self).misses == old(self).misses + outcome_count(
                lookups@,
                CacheOutcome::Miss,
            ),
            final(self).timeouts == old(self).timeouts + outcome_count(
                lookups@,
                CacheOutcome::TimedOut,
            ),
            final(self).lookup_errors == old(self).lookup_errors + outcome_count(
                lookups@,
                CacheOutcome::LookupError,
            ),
            forall|i: int|
                0 <= i < events@.len() ==> (#[trigger] outs@[i])@ == render_output(
                    (old(self).visit_count + i) as nat,
                    events@[i].url@,
                    markdown_of(events@[i].body@),
                ),
    {
        let n = events.len();
        let mut outs: Vec<Vec<u8>> = Vec::new();
        let mut i: usize = 0;
        let ghost c0 = old(self).visit_count;
        let ghost h0 = self.hits;
        let ghost m0 = self.misses;
        let ghost t0 = self.timeouts;
        let ghost e0 = self.lookup_errors;
        proof {
            assert(lookups@.take(0) =~= Seq::<CacheLookup>::empty());
        }
        while i < n
            invariant
                0 <= i <= n == events@.len(),
                lookups@.len() == events@.len(),
                outs@.len() == i,
                self.visit_count == c0 + i,
                c0 + n <= u64::MAX,
                h0 + n <= u64::MAX,
                m0 + n <= u64::MAX,
                t0 + n <= u64::MAX,
                e0 + n <= u64::MAX,
                self.hits == h0 + outcome_count(lookups@.take(i as int), CacheOutcome::Hit),
                self.misses == m0 + outcome_count(lookups@.take(i as int), CacheOutcome::Miss),
                self.timeouts == t0 + outcome_count(
                    lookups@.take(i as int),
                    CacheOutcome::TimedOut,
                ),
                self.lookup_errors == e0 + outcome_count(
                    lookups@.take(i as int),
                    CacheOutcome::LookupError,
                ),
                forall|k: int|
                    0 <= k < i ==> (#[trigger] outs@[k])@ == render_output(
                        (c0 + k) as nat,
                        events@[k].url@,
                        markdown_of(events@[k].body@),
                    ),
            decreases n - i,
        {
            proof {
                lemma_outcome_count_le(lookups@.take(i as int), CacheOutcome::Hit);
                lemma_outcome_count_le(lookups@.take(i as int), CacheOutcome::Miss);
                lemma_outcome_count_le(lookups@.take(i as int), CacheOutcome::TimedOut);
                lemma_outcome_count_le(lookups@.take(i as int), CacheOutcome::LookupError);
            }
            let out = self.process_event(&events[i], &lookups[i]);
            outs.push(out);
            proof {
                assert(lookups@.take(i + 1).drop_last() =~= lookups@.take(i as int));
                assert(lookups@.take(i + 1).last() == lookups@[i as int]);
            }
            i = i + 1;
        }
        proof {
            assert(lookups@.take(n as int) =~= lookups@);
        }
        outs
    }
}

} // verus!
