use plannotator::doc::{BlockKind, Document};

#[test]
fn splits_top_level_blocks_with_ranges() {
    let src = "# Title\n\nPara one\nstill one.\n\n- a\n- b\n\n```rs\nfn x() {}\n```\n\n---\n";
    let doc = Document::parse(src.to_owned());
    let kinds: Vec<_> = doc.blocks.iter().map(|b| b.kind).collect();
    assert_eq!(
        kinds,
        [BlockKind::Heading, BlockKind::Paragraph, BlockKind::List, BlockKind::CodeBlock, BlockKind::Rule]
    );
    assert_eq!(doc.block_text(0), "# Title");
    assert_eq!(doc.block_text(1), "Para one\nstill one.");
    assert_eq!(doc.block_text(3), "```rs\nfn x() {}\n```");
}

#[test]
fn front_matter_is_dropped_and_nested_lists_stay_one_block() {
    let doc = Document::parse("---\ntitle: X\n---\n\n- a\n  - nested\n- b\n".to_owned());
    assert_eq!(doc.blocks.len(), 1);
    assert_eq!(doc.blocks.first().map(|b| b.kind), Some(BlockKind::List));
}

const GIT_PATCH: &str = "diff --git a/src/app.rs b/src/app.rs\nindex 111..222 100644\n--- a/src/app.rs\n+++ b/src/app.rs\n@@ -1,3 +1,4 @@ fn main() {\n context\n-removed\n+added\n+more\n context\n@@ -10,3 +11,4 @@ next\n keep\n+tail\n done\ndiff --git a/src/lib.rs b/src/lib.rs\n--- a/src/lib.rs\n+++ b/src/lib.rs\n@@ -1,2 +1,2 @@\n-old one\n+new one\n";

#[test]
fn splits_a_git_patch_into_header_and_hunk_blocks() {
    let doc = Document::parse_diff(GIT_PATCH.to_owned());
    let kinds: Vec<_> = doc.blocks.iter().map(|b| b.kind).collect();
    assert_eq!(
        kinds,
        [
            BlockKind::DiffFileHeader,
            BlockKind::DiffHunk,
            BlockKind::DiffHunk,
            BlockKind::DiffFileHeader,
            BlockKind::DiffHunk
        ]
    );
    assert!(doc.block_text(0).starts_with("diff --git a/src/app.rs"));
    assert!(doc.block_text(0).contains("+++ b/src/app.rs"));
    assert!(doc.block_text(1).starts_with("@@ -1,3 +1,4 @@"));
    assert!(doc.block_text(1).contains("+added"));
    assert!(doc.block_text(2).starts_with("@@ -10,3 +11,4 @@"));
    assert!(doc.block_text(4).contains("+new one"));
}

#[test]
fn diff_block_ranges_index_the_patch_text() {
    let doc = Document::parse_diff(GIT_PATCH.to_owned());
    let hunk = doc.blocks.get(1).expect("hunk");
    assert_eq!(&doc.source[hunk.range.clone()], doc.block_text(1));
}

#[test]
fn a_plain_unified_diff_without_git_headers_parses() {
    let doc = Document::parse_diff("--- a/old.txt\n+++ b/new.txt\n@@ -1 +1 @@\n-a\n+b\n".to_owned());
    let kinds: Vec<_> = doc.blocks.iter().map(|b| b.kind).collect();
    assert_eq!(kinds, [BlockKind::DiffFileHeader, BlockKind::DiffHunk]);
    assert!(doc.block_text(1).contains("+b"));
}

#[test]
fn a_binary_marker_stays_in_its_header_block() {
    let patch = "diff --git a/logo.png b/logo.png\nindex 111..222 100644\nBinary files a/logo.png and b/logo.png differ\n";
    let doc = Document::parse_diff(patch.to_owned());
    assert_eq!(doc.blocks.len(), 1);
    assert_eq!(doc.blocks.first().map(|b| b.kind), Some(BlockKind::DiffFileHeader));
    assert!(doc.block_text(0).contains("Binary files"));
}

#[test]
fn format_patch_subject_lines_join_the_first_header() {
    let patch = "From 1234 Mon Sep 17 00:00:00 2001\nSubject: [PATCH] ship it\n\ndiff --git a/f b/f\n--- a/f\n+++ b/f\n@@ -1 +1 @@\n-a\n+b\n";
    let doc = Document::parse_diff(patch.to_owned());
    let kinds: Vec<_> = doc.blocks.iter().map(|b| b.kind).collect();
    assert_eq!(kinds, [BlockKind::DiffFileHeader, BlockKind::DiffFileHeader, BlockKind::DiffHunk]);
    assert!(doc.block_text(0).starts_with("From 1234"));
    assert!(doc.block_text(1).starts_with("diff --git a/f"));
    assert!(doc.block_text(2).starts_with("@@ -1 +1 @@"));
}

#[test]
fn hunk_bodies_consume_their_counted_lines_even_when_they_look_like_headers() {
    let patch = "diff --git a/f b/f\n--- a/f\n+++ b/f\n@@ -1,2 +1,2 @@\n--- looks like a header\n+++ and like an added one\n";
    let doc = Document::parse_diff(patch.to_owned());
    let kinds: Vec<_> = doc.blocks.iter().map(|b| b.kind).collect();
    assert_eq!(kinds, [BlockKind::DiffFileHeader, BlockKind::DiffHunk]);
    assert!(doc.block_text(1).contains("--- looks like a header"));
}
