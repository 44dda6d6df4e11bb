use crawl_core::classify::{classify_render_mode, RenderMode};
use crawl_core::pipeline::{
    cache_key, classify_lookup, render_summary, sitemap_path, CacheLookup, CacheOutcome,
    Pipeline, VisitEvent,
};
use crawl_core::resolver::{resolve_documents, Resolver};
use crawl_core::robots::sitemaps_from_robots_txt;
use crawl_core::sitemap::parse_sitemap_doc;
use crawl_core::ParseError;

fn v(s: &str) -> Vec<u8> {
    s.as_bytes().to_vec()
}

fn expected_markdown(body: &str) -> Vec<u8> {
    spider_transformations::transformation::content::transform_markdown(body, false).into_bytes()
}

#[test]
fn robots_without_declarations_is_absent() {
    let text = v("User-agent: *\nDisallow: /private\n");
    assert!(sitemaps_from_robots_txt(&text).is_none());
}

#[test]
fn robots_empty_text_is_absent() {
    let text = v("");
    assert!(sitemaps_from_robots_txt(&text).is_none());
}

#[test]
fn robots_is_case_sensitive() {
    let text = v("sitemap: https://example.com/sitemap.xml\n");
    assert!(sitemaps_from_robots_txt(&text).is_none());
}

#[test]
fn robots_returns_declared_urls_in_file_order() {
    let text = v(
        "User-agent: *\nSitemap: https://example.com/a.xml\nDisallow: /x\nSitemap: https://example.com/b.xml\n",
    );
    let urls = sitemaps_from_robots_txt(&text).unwrap();
    assert_eq!(urls.len(), 2);
    assert_eq!(urls[0], v("https://example.com/a.xml"));
    assert_eq!(urls[1], v("https://example.com/b.xml"));
}

#[test]
fn robots_takes_last_token_of_line() {
    let text = v("note Sitemap: https://example.com/s.xml   \r\n");
    let urls = sitemaps_from_robots_txt(&text).unwrap();
    assert_eq!(urls, vec![v("https://example.com/s.xml")]);
}

#[test]
fn robots_bare_token_line_yields_token_itself() {
    // A line holding only `Sitemap: ` has the token word as its last
    // whitespace-delimited token.
    let text = v("Sitemap: \n");
    let urls = sitemaps_from_robots_txt(&text).unwrap();
    assert_eq!(urls, vec![v("Sitemap:")]);
}

#[test]
fn robots_deduplicates_repeated_urls() {
    let text = v(
        "Sitemap: https://example.com/a.xml\nSitemap: https://example.com/a.xml\nSitemap: https://example.com/b.xml\n",
    );
    let urls = sitemaps_from_robots_txt(&text).unwrap();
    assert_eq!(urls, vec![v("https://example.com/a.xml"), v("https://example.com/b.xml")]);
}

#[test]
fn parse_urlset_collects_leaf_entries() {
    let body = v(
        "<?xml version=\"1.0\"?>\n<urlset xmlns=\"http://www.sitemaps.org/schemas/sitemap/0.9\">\n  <url><loc>https://example.com/a</loc></url>\n  <url><loc>https://example.com/b</loc></url>\n</urlset>\n",
    );
    let p = parse_sitemap_doc(&body).unwrap();
    assert_eq!(p.leaves, vec![v("https://example.com/a"), v("https://example.com/b")]);
    assert!(p.nested.is_empty());
}

#[test]
fn parse_index_collects_nested_references() {
    let body = v(
        "<sitemapindex><sitemap><loc>https://example.com/s1.xml</loc></sitemap><sitemap><loc>https://example.com/s2.xml</loc></sitemap></sitemapindex>",
    );
    let p = parse_sitemap_doc(&body).unwrap();
    assert_eq!(p.nested, vec![v("https://example.com/s1.xml"), v("https://example.com/s2.xml")]);
    assert!(p.leaves.is_empty());
}

#[test]
fn parse_unclosed_tag_is_malformed() {
    let body = v("<urlset><url><loc");
    assert_eq!(parse_sitemap_doc(&body).unwrap_err(), ParseError::UnclosedTag);
}

#[test]
fn parse_unrecognized_document_yields_nothing() {
    let body = v("<html><body>not a sitemap</body></html>");
    let p = parse_sitemap_doc(&body).unwrap();
    assert!(p.nested.is_empty());
    assert!(p.leaves.is_empty());
}

#[test]
fn parse_loc_outside_entry_is_not_captured() {
    let body = v("<foo><loc>https://example.com/stray</loc></foo>");
    let p = parse_sitemap_doc(&body).unwrap();
    assert!(p.nested.is_empty());
    assert!(p.leaves.is_empty());
}

#[test]
fn parse_accepts_attributes_and_trims_text() {
    let body = v("<urlset><url id=\"1\"><loc >\n  https://example.com/a  \n</loc></url></urlset>");
    let p = parse_sitemap_doc(&body).unwrap();
    assert_eq!(p.leaves, vec![v("https://example.com/a")]);
}

#[test]
fn parse_ignores_self_closing_and_declarations() {
    let body = v(
        "<?xml version=\"1.0\"?><sitemapindex><sitemap/><url><loc>https://example.com/a</loc></url></sitemapindex>",
    );
    let p = parse_sitemap_doc(&body).unwrap();
    // `<sitemap/>` is no start-tag: the state stays with the later
    // `<url>` entry, whose loc is a leaf.
    assert!(p.nested.is_empty());
    assert_eq!(p.leaves, vec![v("https://example.com/a")]);
}

#[test]
fn resolve_visits_duplicate_roots_once() {
    let sm = v("https://example.com/sitemap.xml");
    let body = v("<urlset><url><loc>https://example.com/a</loc></url></urlset>");
    let docs = vec![(sm.clone(), body)];
    let roots = vec![sm.clone(), sm];
    let urls = resolve_documents(&docs, &roots, 16).urls;
    assert_eq!(urls, vec![v("https://example.com/a")]);
}

#[test]
fn resolve_urlset_yields_its_leaves() {
    let sm = v("https://example.com/sitemap.xml");
    let body = v(
        "<urlset><url><loc>https://example.com/a</loc></url><url><loc>https://example.com/b</loc></url></urlset>",
    );
    let docs = vec![(sm.clone(), body)];
    let roots = vec![sm];
    let urls = resolve_documents(&docs, &roots, 16).urls;
    assert_eq!(urls, vec![v("https://example.com/a"), v("https://example.com/b")]);
}

#[test]
fn resolve_index_yields_union_of_leaf_sets() {
    let index = v("https://example.com/sitemap.xml");
    let s1 = v("https://example.com/s1.xml");
    let s2 = v("https://example.com/s2.xml");
    let index_body = v(
        "<sitemapindex><sitemap><loc>https://example.com/s1.xml</loc></sitemap><sitemap><loc>https://example.com/s2.xml</loc></sitemap></sitemapindex>",
    );
    let s1_body = v(
        "<urlset><url><loc>https://example.com/a</loc></url><url><loc>https://example.com/b</loc></url></urlset>",
    );
    let s2_body = v(
        "<urlset><url><loc>https://example.com/c</loc></url><url><loc>https://example.com/d</loc></url></urlset>",
    );
    let docs = vec![(index.clone(), index_body), (s1, s1_body), (s2, s2_body)];
    let roots = vec![index];
    let urls = resolve_documents(&docs, &roots, 16).urls;
    assert_eq!(
        urls,
        vec![
            v("https://example.com/a"),
            v("https://example.com/b"),
            v("https://example.com/c"),
            v("https://example.com/d"),
        ]
    );
}

#[test]
fn resolve_deduplicates_overlapping_leaf_sets() {
    let index = v("https://example.com/sitemap.xml");
    let s1 = v("https://example.com/s1.xml");
    let s2 = v("https://example.com/s2.xml");
    let index_body = v(
        "<sitemapindex><sitemap><loc>https://example.com/s1.xml</loc></sitemap><sitemap><loc>https://example.com/s2.xml</loc></sitemap></sitemapindex>",
    );
    let s1_body = v("<urlset><url><loc>https://example.com/a</loc></url></urlset>");
    let s2_body = v(
        "<urlset><url><loc>https://example.com/a</loc></url><url><loc>https://example.com/b</loc></url></urlset>",
    );
    let docs = vec![(index.clone(), index_body), (s1, s1_body), (s2, s2_body)];
    let roots = vec![index];
    let urls = resolve_documents(&docs, &roots, 16).urls;
    assert_eq!(urls, vec![v("https://example.com/a"), v("https://example.com/b")]);
}

#[test]
fn resolve_self_referential_index_terminates() {
    let index = v("https://example.com/sitemap.xml");
    let index_body = v(
        "<sitemapindex><sitemap><loc>https://example.com/sitemap.xml</loc></sitemap></sitemapindex>",
    );
    let docs = vec![(index.clone(), index_body)];
    let roots = vec![index];
    let urls = resolve_documents(&docs, &roots, 16).urls;
    assert!(urls.is_empty());
}

#[test]
fn resolve_cyclic_indices_terminate() {
    let s1 = v("https://example.com/s1.xml");
    let s2 = v("https://example.com/s2.xml");
    let s1_body = v(
        "<sitemapindex><sitemap><loc>https://example.com/s2.xml</loc></sitemap></sitemapindex>",
    );
    let s2_body = v(
        "<sitemapindex><sitemap><loc>https://example.com/s1.xml</loc></sitemap></sitemapindex>",
    );
    let docs = vec![(s1.clone(), s1_body), (s2, s2_body)];
    let roots = vec![s1];
    let urls = resolve_documents(&docs, &roots, 16).urls;
    assert!(urls.is_empty());
}

#[test]
fn resolve_skips_unfetchable_and_malformed_documents() {
    let index = v("https://example.com/sitemap.xml");
    let missing = v("https://example.com/missing.xml");
    let broken = v("https://example.com/broken.xml");
    let good = v("https://example.com/good.xml");
    let index_body = v(
        "<sitemapindex><sitemap><loc>https://example.com/missing.xml</loc></sitemap><sitemap><loc>https://example.com/broken.xml</loc></sitemap><sitemap><loc>https://example.com/good.xml</loc></sitemap></sitemapindex>",
    );
    let broken_body = v("<urlset><url><loc");
    let good_body = v("<urlset><url><loc>https://example.com/a</loc></url></urlset>");
    let _ = missing;
    let docs = vec![(index.clone(), index_body), (broken, broken_body), (good, good_body)];
    let roots = vec![index];
    let urls = resolve_documents(&docs, &roots, 16).urls;
    assert_eq!(urls, vec![v("https://example.com/a")]);
}

#[test]
fn resolve_with_no_budget_reports_exhaustion() {
    let sm = v("https://example.com/sitemap.xml");
    let body = v("<urlset><url><loc>https://example.com/a</loc></url></urlset>");
    let docs = vec![(sm.clone(), body)];
    let roots = vec![sm];
    let outcome = resolve_documents(&docs, &roots, 0);
    assert!(outcome.urls.is_empty());
    assert!(outcome.exhausted);
}

#[test]
fn resolve_within_budget_is_not_exhausted() {
    let sm = v("https://example.com/sitemap.xml");
    let body = v("<urlset><url><loc>https://example.com/a</loc></url></urlset>");
    let docs = vec![(sm.clone(), body)];
    let roots = vec![sm];
    let outcome = resolve_documents(&docs, &roots, 16);
    assert_eq!(outcome.urls, vec![v("https://example.com/a")]);
    assert!(!outcome.exhausted);
}

#[test]
fn resolver_reports_exhaustion_incrementally() {
    let roots = vec![v("https://example.com/s1.xml"), v("https://example.com/s2.xml")];
    let mut r = Resolver::new(&roots, 1);
    let first = r.next_url().unwrap();
    let body = v("<urlset><url><loc>https://example.com/a</loc></url></urlset>");
    r.deliver(&body).unwrap();
    assert_eq!(first, v("https://example.com/s1.xml"));
    assert!(r.next_url().is_none());
    assert!(r.exhausted());
}

#[test]
fn resolver_walks_incrementally() {
    let root = v("https://example.com/sitemap.xml");
    let roots = vec![root.clone()];
    let mut r = Resolver::new(&roots, 8);
    let first = r.next_url().unwrap();
    assert_eq!(first, root);
    let body = v(
        "<sitemapindex><sitemap><loc>https://example.com/s1.xml</loc></sitemap></sitemapindex>",
    );
    r.deliver(&body).unwrap();
    let second = r.next_url().unwrap();
    assert_eq!(second, v("https://example.com/s1.xml"));
    let leaf_body = v("<urlset><url><loc>https://example.com/a</loc></url></urlset>");
    r.deliver(&leaf_body).unwrap();
    assert!(r.next_url().is_none());
    assert_eq!(r.resolved, vec![v("https://example.com/a")]);
}

#[test]
fn classifier_flags_script_marker() {
    let body = v("<html><script>x</script></html>");
    assert_eq!(classify_render_mode(&body), RenderMode::ScriptedFetch);
}

#[test]
fn classifier_defaults_to_plain_fetch() {
    let body = v("<html><body><p>server rendered</p></body></html>");
    assert_eq!(classify_render_mode(&body), RenderMode::PlainFetch);
}

#[test]
fn cache_outcomes_classify_each_reply() {
    assert_eq!(classify_lookup(&CacheLookup::Found(v("cached"))), CacheOutcome::Hit);
    assert_eq!(classify_lookup(&CacheLookup::Absent), CacheOutcome::Miss);
    assert_eq!(classify_lookup(&CacheLookup::TimedOut), CacheOutcome::TimedOut);
    assert_eq!(classify_lookup(&CacheLookup::Failed), CacheOutcome::LookupError);
}

#[test]
fn cache_key_prefixes_url() {
    assert_eq!(cache_key(&v("https://example.com/a")), v("page:https://example.com/a"));
}

#[test]
fn pipeline_counts_and_renders_in_receive_order() {
    let mut p = Pipeline::new();
    let events = vec![
        VisitEvent { url: v("https://example.com/a"), body: v("<p>alpha</p>") },
        VisitEvent { url: v("https://example.com/b"), body: v("<p>beta</p>") },
    ];
    let lookups = vec![CacheLookup::Absent, CacheLookup::Found(v("seen"))];
    let outs = p.run_events(&events, &lookups);
    assert_eq!(outs.len(), 2);
    assert_eq!(p.visit_count, 2);
    assert_eq!(p.misses, 1);
    assert_eq!(p.hits, 1);
    let mut expected = v("\n\n#### ==== ####\n0 => https://example.com/a\n");
    expected.extend_from_slice(&expected_markdown("<p>alpha</p>"));
    expected.push(b'\n');
    assert_eq!(outs[0], expected);
    let header_b = v("\n\n#### ==== ####\n1 => https://example.com/b\n");
    assert!(outs[1].starts_with(&header_b));
}

#[test]
fn pipeline_transforms_the_body() {
    // The transformer must actually rewrite: markup goes, text stays.
    let mut p = Pipeline::new();
    let ev = VisitEvent { url: v("https://example.com/a"), body: v("<h1>Title</h1>") };
    let out = p.process_event(&ev, &CacheLookup::Absent);
    let text = String::from_utf8_lossy(&out).into_owned();
    assert!(!text.contains("<h1>"));
    assert!(text.contains("Title"));
}

#[test]
fn pipeline_with_no_events_terminates_at_zero() {
    let mut p = Pipeline::new();
    let outs = p.run_events(&Vec::new(), &Vec::new());
    assert!(outs.is_empty());
    assert_eq!(p.visit_count, 0);
}

#[test]
fn pipeline_counter_counts_delivered_events() {
    let mut p = Pipeline::new();
    let mut events = Vec::new();
    let mut lookups = Vec::new();
    for i in 0..5u32 {
        events.push(VisitEvent { url: v(&format!("https://example.com/{}", i)), body: v("<p>x</p>") });
        lookups.push(CacheLookup::TimedOut);
    }
    let outs = p.run_events(&events, &lookups);
    assert_eq!(outs.len(), 5);
    assert_eq!(p.visit_count, 5);
    assert_eq!(p.timeouts, 5);
}

#[test]
fn pipeline_counter_continues_across_batches() {
    let mut p = Pipeline::new();
    let first = vec![VisitEvent { url: v("https://example.com/a"), body: v("<p>x</p>") }];
    let second = vec![VisitEvent { url: v("https://example.com/b"), body: v("<p>y</p>") }];
    let _ = p.run_events(&first, &vec![CacheLookup::Absent]);
    let outs = p.run_events(&second, &vec![CacheLookup::Absent]);
    assert_eq!(p.visit_count, 2);
    assert!(outs[0].starts_with(&v("\n\n#### ==== ####\n1 => https://example.com/b\n")));
}

#[test]
fn summary_line_reports_elapsed_and_total() {
    assert_eq!(render_summary(5, 3), v("Time elapsed: 5ms for total pages: 3\n"));
    assert_eq!(render_summary(1234, 0), v("Time elapsed: 1234ms for total pages: 0\n"));
}

#[test]
fn sitemap_path_strips_site_root() {
    let target = v("https://www.example.com/");
    let sm = v("https://www.example.com/sitemap.xml");
    assert_eq!(sitemap_path(&target, &sm).unwrap(), v("/sitemap.xml"));
}

#[test]
fn sitemap_path_without_root_is_absent() {
    let target = v("https://www.example.com/");
    let sm = v("https://cdn.example.net/sitemap.xml");
    assert!(sitemap_path(&target, &sm).is_none());
}
