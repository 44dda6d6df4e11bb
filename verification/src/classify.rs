//! Render-mode classifier: whether a site's pages need script
//! execution to render. The heuristic is deliberately coarse — the
//! root document either holds a script-element marker or it does not —
//! and is documented as best-effort: a site can embed scripts
//! incidental to fully server-rendered content.

use vstd::prelude::*;

use crate::bytes::{contains_seq, contains_subseq};

verus! {

/// The fetch strategy chosen for a site: plain HTTP fetch, or a
/// script-capable (headless-browser) fetch.
#[derive(Clone, Copy, Debug, PartialEq, Eq, Structural)]
pub enum RenderMode {
    PlainFetch,
    ScriptedFetch,
}

/// The script-element marker `<script>`.
pub open spec fn script_marker() -> Seq<u8> {
    seq![60u8, 115u8, 99u8, 114u8, 105u8, 112u8, 116u8, 62u8]
}

/// What the classifier decides on a root document body.
pub open spec fn classify_spec(body: Seq<u8>) -> RenderMode {
    if contains_seq(body, script_marker()) {
        RenderMode::ScriptedFetch
    } else {
        RenderMode::PlainFetch
    }
}

fn script_marker_vec() -> (r: Vec<u8>)
    ensures
        r@ == script_marker(),
{
    let mut r: Vec<u8> = Vec::new();
    r.push(60);
    r.push(115);
    r.push(99);
    r.push(114);
    r.push(105);
    r.push(112);
    r.push(116);
    r.push(62);
    assert(r@ =~= script_marker());
    r
}

/// Classify a site's root document body: `ScriptedFetch` exactly when
/// the body contains the marker `<script>`, else `PlainFetch`.
pub fn classify_render_mode(body: &Vec<u8>) -> (r: RenderMode)
    ensures
        r == classify_spec(body@),
{
    let marker = script_marker_vec();
    if contains_subseq(body, marker.as_slice()) {
        RenderMode::ScriptedFetch
    } else {
        RenderMode::PlainFetch
    }
}

} // verus!
