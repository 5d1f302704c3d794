use std::ops::Range;

use plannotator::doc::{split_diff_blocks, Block, BlockKind, Document};
use plannotator::hunk::hunk_header;
use plannotator::markdown::{
    blocks_from_events, event_step_of, parse_options, read_events, top_level_blocks, MdEvent, MdStep,
};
use plannotator::overlay::{
    accept_region, line_span, line_starts, restore_region, revert_region, Overlay,
};
use plannotator::review::{
    accepted_baseline, baseline_path, changes_target, diff_overlay, glyph, label, parse_source,
    reverted_file, reviewed_path, unaccepted_baseline, Kind,
};
use plannotator::screen::{
    clamp_selection, ensure_cursor_visible, ensure_selected_visible, keep_tree_cursor_visible,
    scroll_by,
};
use plannotator::source::{blob_sha, DocumentSource, Provenance, SourceFormat};

fn ev(step: MdStep, range: Range<usize>) -> MdEvent {
    MdEvent { step, range }
}

#[test]
fn hunk_header_reads_both_counts() {
    assert_eq!(hunk_header("@@ -1,3 +1,4 @@ fn main() {"), Some((3, 4)));
    assert_eq!(hunk_header("@@ -10,3 +11,4 @@"), Some((3, 4)));
}

#[test]
fn hunk_header_defaults_a_missing_count_to_one() {
    assert_eq!(hunk_header("@@ -1 +1 @@"), Some((1, 1)));
    assert_eq!(hunk_header("@@ -7 +9,0 @@"), Some((1, 0)));
}

#[test]
fn hunk_header_rejects_other_lines() {
    assert_eq!(hunk_header(""), None);
    assert_eq!(hunk_header("@@@ -1 +1 @@"), None);
    assert_eq!(hunk_header("@@ -1"), None);
    assert_eq!(hunk_header("@@ 1,2 +1 @@"), None);
    assert_eq!(hunk_header("@@ -1,x +1 @@"), None);
    assert_eq!(hunk_header("@@ -1,+ +1 @@"), None);
    assert_eq!(hunk_header("@@ -1,99999999999999999999999999 +1 @@"), None);
    assert_eq!(hunk_header(" context line"), None);
    assert_eq!(hunk_header("@@ -1,2 +1,3"), None);
    assert_eq!(hunk_header("@@ -x +y @@"), None);
    assert_eq!(hunk_header("@@ -1,2 +1,3 @"), None);
    assert_eq!(hunk_header("@@ -,2 +1 @@"), None);
    assert_eq!(hunk_header("@@ -1, +1 @@"), None);
}

#[test]
fn hunk_header_splits_on_unicode_whitespace_and_wants_each_sign_in_place() {
    assert_eq!(hunk_header("  @@\t-2,7\u{a0}+3,0 @@"), Some((7, 0)));
    assert_eq!(hunk_header("@@ +1,+5 -2,3 @@"), None);
    assert_eq!(hunk_header("@@ -1,+5 +2,3 @@"), None);
}

#[test]
fn raw_diff_blocks_cover_the_whole_patch() {
    let patch = "From x\n\ndiff --git a/f b/f\r\n--- a/f\n+++ b/f\n@@ -1 +1 @@\n-a\n+b\n";
    let raw = split_diff_blocks(patch);
    assert_eq!(raw.first().map(|b| b.range.start), Some(0));
    assert_eq!(raw.last().map(|b| b.range.end), Some(patch.len()));
    for pair in raw.windows(2) {
        assert_eq!(pair[0].range.end, pair[1].range.start);
    }
    let kinds: Vec<_> = raw.iter().map(|b| b.kind).collect();
    assert_eq!(kinds, [BlockKind::DiffFileHeader, BlockKind::DiffFileHeader, BlockKind::DiffHunk]);
}

#[test]
fn an_empty_patch_has_no_blocks() {
    let doc = Document::parse_diff(String::new());
    assert!(doc.blocks.is_empty());
    assert_eq!(doc.block_text(0), "");
}

#[test]
fn a_leading_hunk_opens_the_first_block() {
    let doc = Document::parse_diff("@@ -1 +1 @@\n-a\n+b\n".to_owned());
    let kinds: Vec<_> = doc.blocks.iter().map(|b| b.kind).collect();
    assert_eq!(kinds, [BlockKind::DiffHunk]);
    assert_eq!(doc.block_text(0), "@@ -1 +1 @@\n-a\n+b");
}

#[test]
fn block_lookup_by_offset_and_index() {
    let doc = Document::parse("# A\n\nbody\n".to_owned());
    assert_eq!(doc.block_containing(0), Some(0));
    assert_eq!(doc.block_containing(3), None);
    assert_eq!(doc.block_containing(6), Some(1));
    assert_eq!(doc.block_text(7), "");
    assert_eq!(doc.blocks[1].kind, BlockKind::Paragraph);
    assert!(BlockKind::DiffHunk.preserves_columns() && BlockKind::Table.preserves_columns());
    assert!(!BlockKind::Paragraph.preserves_columns());
    assert!(BlockKind::DiffFileHeader.is_diff() && !BlockKind::CodeBlock.is_diff());
}

#[test]
fn depth_zero_walk_keeps_nested_containers_in_one_block() {
    let events = vec![
        ev(MdStep::Open(BlockKind::List), 0..9),
        ev(MdStep::Open(BlockKind::Other), 0..4),
        ev(MdStep::Leaf, 2..3),
        ev(MdStep::Close, 0..4),
        ev(MdStep::Close, 0..9),
        ev(MdStep::Rule, 10..13),
        ev(MdStep::Leaf, 14..16),
    ];
    let blocks = top_level_blocks(&events);
    let got: Vec<(Range<usize>, BlockKind)> = blocks.iter().map(|b| (b.range.clone(), b.kind)).collect();
    assert_eq!(got, [(0..9, BlockKind::List), (10..13, BlockKind::Rule), (14..16, BlockKind::Other)]);
}

#[test]
fn blocks_from_events_trims_and_drops_front_matter() {
    let source = "---\nx\n---\npara\n\n";
    let events = vec![
        ev(MdStep::Open(BlockKind::Metadata), 0..10),
        ev(MdStep::Close, 0..10),
        ev(MdStep::Open(BlockKind::Paragraph), 10..16),
        ev(MdStep::Close, 10..16),
    ];
    let blocks = blocks_from_events(source, &events);
    let got: Vec<(Range<usize>, BlockKind)> = blocks.iter().map(|b| (b.range.clone(), b.kind)).collect();
    assert_eq!(got, [(10..14, BlockKind::Paragraph)]);
}

#[test]
fn blocks_from_events_refuses_ranges_outside_the_text() {
    let events = vec![ev(MdStep::Leaf, 0..50)];
    assert!(blocks_from_events("short", &events).is_empty());
    let split_char = vec![ev(MdStep::Leaf, 0..1)];
    assert!(blocks_from_events("é", &split_char).is_empty());
}

#[test]
fn parser_options_match_the_renderer() {
    assert_eq!(parse_options(), 31966);
}

#[test]
fn line_starts_follow_every_newline() {
    assert_eq!(line_starts("a\nbc\n"), vec![0, 2, 5]);
    assert_eq!(line_starts(""), vec![0]);
}

#[test]
fn a_trailing_deletion_marks_nothing_on_screen() {
    let overlay = Overlay::between("a\nb\n", "a\n").expect("differs");
    assert_eq!(overlay.removed_lines, 1);
    assert_eq!(overlay.removed, vec![2..2]);
    assert!(!overlay.is_removed(2));
    assert!(overlay.touches(&(0..3)));
    assert!(!overlay.touches(&(0..1)));
}

#[test]
fn touches_sees_added_and_removed_marks() {
    let overlay = Overlay::between("one\ntwo\n", "one\nnew\ntwo\n").expect("differs");
    assert!(overlay.touches(&(4..7)));
    assert!(!overlay.touches(&(0..3)));
}

#[test]
fn full_diff_notes_a_missing_final_newline() {
    let overlay = Overlay::between("a", "b").expect("differs");
    assert_eq!(
        overlay.full_diff,
        "@@ -1,1 +1,1 @@\n-a\n\\ No newline at end of file\n+b\n\\ No newline at end of file\n"
    );
}

#[test]
fn a_lone_carriage_return_ends_a_diff_line() {
    let overlay = Overlay::between("a\rb\r", "a\rc\r").expect("differs");
    assert_eq!(overlay.added_lines, 1);
    assert_eq!(overlay.removed_lines, 1);
    assert!(overlay.full_diff.starts_with("@@ -1,2 +1,2 @@\n a\r-b\r+c\r"));
}

#[test]
fn region_verbs_leave_text_alone_when_the_block_has_no_change() {
    let baseline = "# Plan\n\none\n\ntwo\n";
    let current = "# Plan\n\none changed\n\ntwo\n";
    let two = current.find("two").expect("present");
    assert_eq!(accept_region(baseline, current, &(two..two + 3)), baseline);
    assert_eq!(revert_region(baseline, current, &(two..two + 3)), current);
    assert_eq!(restore_region(baseline, baseline, current, &(0..6)), baseline);
}

#[test]
fn region_verb_outcomes_say_when_nothing_changes() {
    let baseline = "# Plan\n\none\n\ntwo\n";
    let current = "# Plan\n\none changed\n\ntwo\n";
    let one = current.find("one changed").expect("present");
    let block = one..one + "one changed".len();
    assert_eq!(accepted_baseline(baseline, current, &block).as_deref(), Some(current));
    assert_eq!(accepted_baseline(baseline, current, &(0..6)), None);
    assert_eq!(reverted_file(baseline, current, &block).as_deref(), Some(baseline));
    assert_eq!(reverted_file(baseline, current, &(0..6)), None);
    assert_eq!(unaccepted_baseline(baseline, current, current, &block).as_deref(), Some(baseline));
    assert_eq!(unaccepted_baseline(baseline, baseline, current, &block), None);
}

#[test]
fn blob_sha_matches_git() {
    assert_eq!(blob_sha(""), "e69de29bb2d1d6434b8b29ae775ad8c2e48c5391");
    assert_eq!(blob_sha("hello\n"), "ce013625030ba8dba906f756967f9e9ca394464a");
}

#[test]
fn sources_name_themselves_after_the_file() {
    let source = DocumentSource::file("/work/plans/plan.md".to_owned(), "# Plan\n".to_owned());
    assert_eq!(source.name, "plan.md");
    assert!(!source.transient);
    assert_eq!(source.format, SourceFormat::Markdown);
    assert!(matches!(&source.provenance, Provenance::File { path } if path == "/work/plans/plan.md"));
    assert_eq!(source.version, blob_sha("# Plan\n"));
    let root = DocumentSource::file("/".to_owned(), String::new());
    assert_eq!(root.name, "/");
    let patch = DocumentSource::diff("/tmp/x.patch".to_owned(), "-a\n".to_owned());
    assert!(patch.transient);
    assert_eq!(patch.format, SourceFormat::Diff);
    assert_eq!(patch.name, "x.patch");
    let fed = DocumentSource::new("body".to_owned(), "stdin".to_owned(), true, Provenance::Stdin);
    assert_eq!(fed.version, blob_sha("body"));
    assert_eq!(fed.format, SourceFormat::Markdown);
}

#[test]
fn sources_parse_by_their_format() {
    let patch = DocumentSource::diff("p.diff".to_owned(), "--- a\n+++ b\n@@ -1 +1 @@\n-a\n+b\n".to_owned());
    let doc = parse_source(&patch);
    let kinds: Vec<_> = doc.blocks.iter().map(|b| b.kind).collect();
    assert_eq!(kinds, [BlockKind::DiffFileHeader, BlockKind::DiffHunk]);
    let md = DocumentSource::file("p.md".to_owned(), "# T\n".to_owned());
    assert_eq!(parse_source(&md).blocks.len(), 1);
}

#[test]
fn overlays_need_a_persistent_source_and_a_differing_baseline() {
    let source = DocumentSource::file("p.md".to_owned(), "one\nnew\n".to_owned());
    assert!(diff_overlay(&source, None).is_none());
    assert!(diff_overlay(&source, Some("one\nnew\n".to_owned())).is_none());
    let overlay = diff_overlay(&source, Some("one\n".to_owned())).expect("differs");
    assert_eq!(overlay.added_lines, 1);
    let patch = DocumentSource::diff("p.diff".to_owned(), "x\n".to_owned());
    assert!(diff_overlay(&patch, Some("y\n".to_owned())).is_none());
}

#[test]
fn changes_view_targets_the_picked_or_first_changed_block() {
    let current = "# Plan\n\none changed\n\ntwo\n";
    let doc = Document::parse(current.to_owned());
    let overlay = Overlay::between("# Plan\n\none\n\ntwo\n", current).expect("differs");
    assert_eq!(changes_target(&doc.blocks, &overlay, 1), 1);
    assert_eq!(changes_target(&doc.blocks, &overlay, 2), 1);
    let quiet = vec![Block { range: 0..6, kind: BlockKind::Heading }];
    assert_eq!(changes_target(&quiet, &overlay, 0), 0);
}

#[test]
fn labels_and_glyphs_of_annotation_kinds() {
    assert_eq!(label(Kind::Comment), "comment");
    assert_eq!(label(Kind::LooksGood), "looks good");
    assert_eq!(label(Kind::Delete), "delete this");
    assert_eq!(glyph(Kind::Comment), "💬");
    assert_eq!(glyph(Kind::LooksGood), "👍");
    assert_eq!(glyph(Kind::Delete), "✗");
}

#[test]
fn sidecars_sit_beside_the_record() {
    assert_eq!(baseline_path("/data/p/annotations.json"), "/data/p/baseline.md");
    assert_eq!(reviewed_path("/data/p/annotations.json"), "/data/p/reviewed.md");
}

#[test]
fn scrolling_keeps_the_selection_in_view() {
    assert_eq!(ensure_selected_visible(10, 4, 3, 5), 3);
    assert_eq!(ensure_selected_visible(0, 8, 4, 5), 8);
    assert_eq!(ensure_selected_visible(0, 3, 4, 5), 3);
    assert_eq!(ensure_selected_visible(0, 1, 20, 5), 1);
    assert_eq!(ensure_selected_visible(2, 3, 2, 5), 2);
    assert_eq!(ensure_cursor_visible(5, 2, 4), 2);
    assert_eq!(ensure_cursor_visible(0, 9, 4), 6);
    assert_eq!(ensure_cursor_visible(3, 4, 4), 3);
    assert_eq!(scroll_by(3, -10, 40, 10), 0);
    assert_eq!(scroll_by(3, 100, 40, 10), 30);
    assert_eq!(scroll_by(3, 4, 40, 10), 7);
    assert_eq!(keep_tree_cursor_visible(12, 0, 5, 14), 8);
    assert_eq!(keep_tree_cursor_visible(1, 6, 5, 14), 1);
    assert_eq!(keep_tree_cursor_visible(3, 7, 0, 14), 7);
    assert_eq!(clamp_selection(9, 4), 3);
    assert_eq!(clamp_selection(2, 0), 0);
}

#[test]
fn sources_compare_by_every_field() {
    let a = DocumentSource::file("/p/plan.md".to_owned(), "x".to_owned());
    let b = DocumentSource::file("/p/plan.md".to_owned(), "x".to_owned());
    assert_eq!(a, b);
    assert_ne!(a, DocumentSource::diff("/p/plan.md".to_owned(), "x".to_owned()));
    assert_ne!(a, DocumentSource::file("/q/plan.md".to_owned(), "x".to_owned()));
    let msg = |s: Option<&str>| Provenance::AgentMessage {
        host: "h".to_owned(),
        session: s.map(str::to_owned),
        message_id: None,
    };
    assert_eq!(msg(Some("s")), msg(Some("s")));
    assert_ne!(msg(Some("s")), msg(None));
    assert_ne!(Provenance::Stdin, msg(None));
}

#[test]
fn sources_with_the_same_content_share_a_version() {
    let a = DocumentSource::file("/a/one.md".to_owned(), "same\n".to_owned());
    let b = DocumentSource::diff("/b/two.patch".to_owned(), "same\n".to_owned());
    assert_eq!(a.version, b.version);
    assert_ne!(a.version, DocumentSource::file("/a/one.md".to_owned(), "other\n".to_owned()).version);
}

#[test]
fn accept_and_revert_of_one_block_take_opposite_sides() {
    let baseline = "a\nb\nkeep\n";
    let current = "A\nB\nkeep\n";
    let block = 0..1;
    assert_eq!(accept_region(baseline, current, &block), current);
    assert_eq!(revert_region(baseline, current, &block), baseline);
}

#[test]
fn patch_blocks_come_in_source_order() {
    let patch = "diff --git a/x b/x\n--- a/x\n+++ b/x\n@@ -1,2 +1,2 @@\n-a\n+b\n c\n\n@@ -9 +9 @@\n-d\n+e\n";
    let doc = Document::parse_diff(patch.to_owned());
    assert_eq!(doc.blocks.len(), 3);
    for pair in doc.blocks.windows(2) {
        assert!(pair[0].range.end <= pair[1].range.start);
        assert!(pair[0].range.start < pair[0].range.end);
    }
    for i in 0..doc.blocks.len() {
        assert!(!doc.block_text(i).ends_with('\n'));
    }
}

#[test]
fn events_are_read_from_their_debug_text() {
    assert_eq!(
        event_step_of("Start(Heading { level: H1, id: None, classes: [], attrs: [] })"),
        MdStep::Open(BlockKind::Heading)
    );
    assert_eq!(event_step_of("Start(Paragraph)"), MdStep::Open(BlockKind::Paragraph));
    assert_eq!(event_step_of("Start(List(Some(1)))"), MdStep::Open(BlockKind::List));
    assert_eq!(event_step_of("Start(MetadataBlock(YamlStyle))"), MdStep::Open(BlockKind::Metadata));
    assert_eq!(event_step_of("Start(HtmlBlock)"), MdStep::Open(BlockKind::Html));
    assert_eq!(event_step_of("Start(Item)"), MdStep::Open(BlockKind::Other));
    assert_eq!(event_step_of("End(Paragraph)"), MdStep::Close);
    assert_eq!(event_step_of("Rule"), MdStep::Rule);
    assert_eq!(event_step_of("Text(Borrowed(\"Start\"))"), MdStep::Leaf);
    assert_eq!(event_step_of("Start"), MdStep::Open(BlockKind::Other));
    assert_eq!(event_step_of(""), MdStep::Leaf);
}

#[test]
fn event_texts_keep_their_ranges() {
    let texts = vec![("Start(Paragraph)".to_string(), 0..4), ("End(Paragraph)".to_string(), 0..5)];
    let events = read_events(&texts);
    assert_eq!(events.len(), 2);
    assert_eq!(events[0].step, MdStep::Open(BlockKind::Paragraph));
    assert_eq!(events[0].range, 0..4);
    assert_eq!(events[1].step, MdStep::Close);
    assert_eq!(events[1].range, 0..5);
}

#[test]
fn blocks_from_events_refuses_blocks_out_of_order() {
    let events = vec![ev(MdStep::Leaf, 4..6), ev(MdStep::Leaf, 0..2)];
    assert!(blocks_from_events("ab\ncd\n", &events).is_empty());
}

#[test]
fn markdown_blocks_are_never_diff_text() {
    let doc = Document::parse("---\ntitle: x\n---\n\n# H\n\n@@ -1 +1 @@\n-a\n+b\n".to_owned());
    assert!(doc.blocks.iter().all(|b| !b.kind.is_diff() && b.kind != BlockKind::Metadata));
    assert!(doc.blocks.windows(2).all(|w| w[0].range.end <= w[1].range.start));
    assert_eq!(doc.blocks[0].kind, BlockKind::Heading);
}

#[test]
fn line_span_takes_a_block_ending_in_a_wide_character() {
    assert_eq!(line_span("\u{e9}", &(0..2)), 0..1);
    assert_eq!(line_span("a\n\u{e9}x", &(2..5)), 1..2);
    assert_eq!(line_span("a\nb\n", &(4..4)), 2..2);
}

#[test]
fn unaccept_needs_the_whole_block_in_one_equal_run() {
    assert_eq!(restore_region("x\n", "a\n", "a\nb\n", &(0..3)), "a\n");
    assert_eq!(restore_region("x\n", "a\n", "a\nb\n", &(0..1)), "x\n");
    assert_eq!(unaccepted_baseline("x\n", "a\n", "a\nb\n", &(0..3)), None);
}

#[test]
fn a_block_holding_every_change_accepts_or_reverts_the_whole_file() {
    let baseline = "a\nb\nc\n";
    let current = "a\nB\nC\n";
    assert_eq!(accept_region(baseline, current, &(0..current.len())), current);
    assert_eq!(revert_region(baseline, current, &(0..current.len())), baseline);
    assert_eq!(accept_region(baseline, current, &(0..0)), baseline);
    assert_eq!(revert_region(baseline, current, &(0..0)), current);
}
