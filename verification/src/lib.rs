//! Control logic for a sitemap-driven crawler: extracting sitemap
//! references from a robots-exclusion document, resolving sitemap XML
//! documents to a deduplicated set of page URLs, choosing a render mode
//! for a site, and the per-event bookkeeping of the crawl pipeline.

pub mod bytes;
pub mod classify;
pub mod pipeline;
pub mod resolver;
pub mod robots;
pub mod sitemap;

use vstd::prelude::*;

verus! {

/// Failure to parse a sitemap document as XML: a tag opened by `<` that
/// never closes with `>`.
#[derive(Clone, Copy, Debug, PartialEq, Eq, Structural)]
pub enum ParseError {
    UnclosedTag,
}

} // verus!
