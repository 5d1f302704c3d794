//! The review session's decisions: which parser a source gets, whether it carries an
//! overlay, what the region verbs would write, where sidecars live, and annotation labels.

use std::ops::Range;

use vstd::prelude::*;

use crate::doc::{diff_blocks, finished_blocks, utf8_bytes, Block, Document};
use crate::linediff::{line_diff_ops, split_lines};
use crate::markdown::{markdown_blocks, markdown_event_texts, render_options, stream_events};
use crate::overlay::{
    accept_region, line_span_of, map_span_from, ranges_meet, rebuilt, restore_region,
    revert_region, Overlay,
};
use crate::source::{DocumentSource, SourceFormat};
use crate::text::text_equal;

verus! {

/// What an annotation says about its range.
#[derive(Debug, Clone, Copy, PartialEq, Eq, Structural)]
pub enum Kind {
    Comment,
    LooksGood,
    Delete,
}

/// What the toolbar and status line call an annotation kind.
pub fn label(kind: Kind) -> (r: &'static str)
    ensures
        r@ == (match kind {
            Kind::Comment => "comment"@,
            Kind::LooksGood => "looks good"@,
            Kind::Delete => "delete this"@,
        }),
{
    match kind {
        Kind::Comment => "comment",
        Kind::LooksGood => "looks good",
        Kind::Delete => "delete this",
    }
}

/// The toolbar glyph of an annotation kind.
pub fn glyph(kind: Kind) -> (r: &'static str)
    ensures
        r@ == (match kind {
            Kind::Comment => "💬"@,
            Kind::LooksGood => "👍"@,
            Kind::Delete => "✗"@,
        }),
{
    match kind {
        Kind::Comment => "💬",
        Kind::LooksGood => "👍",
        Kind::Delete => "✗",
    }
}

/// The blocks a source's content parses into, by its recorded format.
pub open spec fn source_blocks(source: DocumentSource) -> Seq<Block> {
    let b = utf8_bytes(source.content@);
    match source.format {
        SourceFormat::Markdown => markdown_blocks(b, stream_events(markdown_event_texts(source.content@, render_options()))),
        SourceFormat::Diff => finished_blocks(b, diff_blocks(b), false),
    }
}

/// Parse a source with the parser its format names.
pub fn parse_source(source: &DocumentSource) -> (d: Document)
    ensures
        d.source == source.content,
        d.blocks@ == source_blocks(*source),
        d.wf(),
{
    match source.format {
        SourceFormat::Markdown => Document::parse(source.content.clone()),
        SourceFormat::Diff => Document::parse_diff(source.content.clone()),
    }
}

/// The overlay of a source against the baseline recorded for it: none for a transient
/// source (its reviews are single-round), none without a baseline, and none when the
/// content matches the baseline.
pub fn diff_overlay(source: &DocumentSource, baseline: Option<String>) -> (r: Option<Overlay>)
    ensures
        r is Some <==> (!source.transient && baseline is Some && baseline->0@ != source.content@),
        r matches Some(o) ==> o.describes(baseline->0@, source.content@),
{
    if source.transient {
        return None;
    }
    match baseline {
        None => None,
        Some(b) => Overlay::between(b.as_str(), source.content.as_str()),
    }
}

/// The baseline an accept of the block at `block` would write: `None` when the block
/// covers no change to accept.
pub fn accepted_baseline(baseline: &str, current: &str, block: &Range<usize>) -> (r: Option<String>)
    ensures
        ({
            let updated = rebuilt(
                line_diff_ops(baseline@, current@),
                split_lines(baseline@),
                split_lines(current@),
                line_span_of(utf8_bytes(current@), *block),
                false,
            );
            &&& r is None <==> updated == baseline@
            &&& r matches Some(u) ==> u@ == updated
        }),
{
    let updated = accept_region(baseline, current, block);
    if text_equal(updated.as_str(), baseline) {
        None
    } else {
        Some(updated)
    }
}

/// The file text a revert of the block at `block` would write: `None` when the block
/// covers no change to revert.
pub fn reverted_file(baseline: &str, current: &str, block: &Range<usize>) -> (r: Option<String>)
    ensures
        ({
            let reverted = rebuilt(
                line_diff_ops(baseline@, current@),
                split_lines(baseline@),
                split_lines(current@),
                line_span_of(utf8_bytes(current@), *block),
                true,
            );
            &&& r is None <==> reverted == current@
            &&& r matches Some(u) ==> u@ == reverted
        }),
{
    let reverted = revert_region(baseline, current, block);
    if text_equal(reverted.as_str(), current) {
        None
    } else {
        Some(reverted)
    }
}

/// The baseline an un-accept of the block at `block` would write: `None` when nothing
/// in the block was accepted.
pub fn unaccepted_baseline(reviewed: &str, baseline: &str, current: &str, block: &Range<usize>) -> (r:
    Option<String>)
    ensures
        ({
            let restored = match map_span_from(
                line_diff_ops(baseline@, current@),
                line_span_of(utf8_bytes(current@), *block),
                0,
            ) {
                None => baseline@,
                Some(span) => rebuilt(
                    line_diff_ops(reviewed@, baseline@),
                    split_lines(reviewed@),
                    split_lines(baseline@),
                    span,
                    true,
                ),
            };
            &&& r is None <==> restored == baseline@
            &&& r matches Some(u) ==> u@ == restored
        }),
{
    let restored = restore_region(reviewed, baseline, current, block);
    if text_equal(restored.as_str(), baseline) {
        None
    } else {
        Some(restored)
    }
}

/// Whether the overlay marks anything inside `range`.
pub open spec fn overlay_touches(o: Overlay, range: Range<usize>) -> bool {
    (exists|k: int| 0 <= k < o.added@.len() && ranges_meet(#[trigger] o.added@[k], range))
        || (exists|k: int| 0 <= k < o.removed@.len() && ranges_meet(#[trigger] o.removed@[k], range))
}

/// The first block the overlay touches, at or after `i`.
pub open spec fn first_touched_from(blocks: Seq<Block>, o: Overlay, i: int) -> Option<int>
    decreases blocks.len() - i,
{
    if i < 0 || i >= blocks.len() {
        None
    } else if overlay_touches(o, blocks[i].range) {
        Some(i)
    } else {
        first_touched_from(blocks, o, i + 1)
    }
}

/// The search from `i` finds the first block at or after `i` that the overlay touches.
proof fn lemma_first_touched(blocks: Seq<Block>, o: Overlay, i: int)
    requires
        0 <= i,
    ensures
        match first_touched_from(blocks, o, i) {
            Some(k) => i <= k < blocks.len() && overlay_touches(o, blocks[k].range) && forall|j: int|
                i <= j < k ==> !overlay_touches(o, #[trigger] blocks[j].range),
            None => forall|j: int|
                i <= j < blocks.len() ==> !overlay_touches(o, #[trigger] blocks[j].range),
        },
    decreases blocks.len() - i,
{
    if i < blocks.len() && !overlay_touches(o, blocks[i].range) {
        lemma_first_touched(blocks, o, i + 1);
    }
}

/// The block a region verb pressed from the changes view acts on: the picked block when
/// it has a change, else the first block with one, else the picked index.
pub fn changes_target(blocks: &Vec<Block>, overlay: &Overlay, picked: usize) -> (r: usize)
    ensures
        picked < blocks@.len() && overlay_touches(*overlay, blocks@[picked as int].range) ==> r
            == picked,
        !(picked < blocks@.len() && overlay_touches(*overlay, blocks@[picked as int].range)) && (
        exists|k: int| 0 <= k < blocks@.len() && overlay_touches(*overlay, #[trigger] blocks@[k].range))
            ==> r < blocks@.len() && overlay_touches(*overlay, blocks@[r as int].range) && forall|
            j: int,
        | 0 <= j < r ==> !overlay_touches(*overlay, #[trigger] blocks@[j].range),
        !(exists|k: int| 0 <= k < blocks@.len() && overlay_touches(*overlay, #[trigger] blocks@[k].range))
            ==> r == picked,
        r == (if picked < blocks@.len() && overlay_touches(*overlay, blocks@[picked as int].range) {
            picked as int
        } else {
            match first_touched_from(blocks@, *overlay, 0) {
                Some(k) => k,
                None => picked as int,
            }
        }),
{
    proof {
        lemma_first_touched(blocks@, *overlay, 0);
    }
    if picked < blocks.len() && overlay.touches(&blocks[picked].range) {
        return picked;
    }
    let mut k: usize = 0;
    while k < blocks.len()
        invariant
            k <= blocks@.len(),
            !(picked < blocks@.len() && overlay_touches(*overlay, blocks@[picked as int].range)),
            first_touched_from(blocks@, *overlay, 0) == first_touched_from(blocks@, *overlay, k as int),
        decreases blocks@.len() - k,
    {
        if overlay.touches(&blocks[k].range) {
            assert(first_touched_from(blocks@, *overlay, k as int) == Some(k as int));
            proof {
                lemma_first_touched(blocks@, *overlay, 0);
            }
            return k;
        }
        k = k + 1;
    }
    picked
}

/// `path` with its last component replaced by `name`.
pub uninterp spec fn with_file_name_of(path: Seq<char>, name: Seq<char>) -> Seq<char>;

/// `Path::new(path).with_file_name(name)`, as text. Claimed: the result is a function of
/// the path and the name.
#[verifier::external_body]
fn path_with_file_name(path: &str, name: &str) -> (r: String)
    ensures
        r@ == with_file_name_of(path@, name@),
{
    std::path::Path::new(path).with_file_name(name).to_string_lossy().into_owned()
}

/// Sidecar next to the annotation record: the reference the overlay marks against.
pub fn baseline_path(record: &str) -> (r: String)
    ensures
        r@ == with_file_name_of(record@, "baseline.md"@),
{
    path_with_file_name(record, "baseline.md")
}

/// Sidecar next to the annotation record: the version the reviewed round started from.
pub fn reviewed_path(record: &str) -> (r: String)
    ensures
        r@ == with_file_name_of(record@, "reviewed.md"@),
{
    path_with_file_name(record, "reviewed.md")
}

} // verus!
