use plannotator::overlay::{accept_region, line_span, restore_region, revert_region, Overlay};

#[test]
fn identical_content_has_no_overlay() {
    assert!(Overlay::between("same\n", "same\n").is_none());
}

#[test]
fn added_lines_map_to_their_current_byte_ranges() {
    let baseline = "one\ntwo\n";
    let current = "one\nnew\ntwo\n";
    let overlay = Overlay::between(baseline, current).expect("differs");
    assert_eq!(overlay.added_lines, 1);
    assert_eq!(overlay.removed_lines, 0);
    let at = current.find("new").expect("present");
    assert!(overlay.is_added(at), "'new' at {at} must be marked added");
    assert!(overlay.is_added(at + 2));
    assert!(!overlay.is_added(current.find("two").expect("present")));
}

#[test]
fn removed_lines_mark_where_they_stood() {
    let baseline = "one\ndead\ntwo\n";
    let current = "one\ntwo\n";
    let overlay = Overlay::between(baseline, current).expect("differs");
    assert_eq!(overlay.removed_lines, 1);
    assert_eq!(overlay.added_lines, 0);
    let at = current.find("two").expect("present");
    assert!(overlay.is_removed(at), "the line now at the removal point is marked");
    assert!(!overlay.is_removed(current.find("one").expect("present")));
}

#[test]
fn rewrites_count_as_both_and_the_whole_run_is_marked() {
    let baseline = "a\nold line\nkeep\n";
    let current = "a\nnew one\nnew two\nkeep\n";
    let overlay = Overlay::between(baseline, current).expect("differs");
    assert_eq!(overlay.added_lines, 2);
    assert_eq!(overlay.removed_lines, 1);
    let start = current.find("new one").expect("present");
    let end = current.find("\nkeep").expect("present");
    assert!(overlay.is_added(start + 1));
    assert!(overlay.is_added(end - 1));
    assert!(!overlay.is_added(current.find("keep").expect("present")));
}

#[test]
fn ranges_stay_inside_the_source_at_eof() {
    let overlay = Overlay::between("a\nb\n", "a\nb\nc").expect("differs");
    let last = overlay.added.last().expect("added c");
    assert!(last.end <= 5, "range {last:?} must not run past 'a\\nb\\nc'");
}

#[test]
fn line_span_covers_the_lines_a_block_touches() {
    let text = "# Plan\n\none changed\n\ntwo\n";
    let start = text.find("one changed").expect("present");
    let block = start..start + "one changed".len();
    assert_eq!(line_span(text, &block), 2..3);
    let two = text.find("two").expect("present");
    assert_eq!(line_span(text, &(two..two + 3)), 4..5);
    assert_eq!(line_span(text, &(0..0)), 0..0);
}

#[test]
fn accepting_a_block_folds_only_that_block() {
    let baseline = "# Plan\n\none\n\ntwo\n\nthree\n";
    let current = "# Plan\n\none changed\n\ntwo rewritten\n\nthree\n";
    let block = current.find("one changed").expect("present");
    let accepted = accept_region(baseline, current, &(block..block + "one changed".len()));
    assert_eq!(accepted, "# Plan\n\none changed\n\ntwo\n\nthree\n", "only the hovered block moved");
    let overlay = Overlay::between(&accepted, current).expect("two still differs");
    let at = current.find("two rewritten").expect("present");
    assert!(overlay.is_added(at));
    assert!(!overlay.is_added(current.find("one changed").expect("present")));
}

#[test]
fn reverting_a_block_restores_only_that_block() {
    let baseline = "# Plan\n\none\n\ntwo\n\nthree\n";
    let current = "# Plan\n\none changed\n\ntwo rewritten\n\nthree\n";
    let block = current.find("two rewritten").expect("present");
    let reverted = revert_region(baseline, current, &(block..block + "two rewritten".len()));
    assert_eq!(
        reverted, "# Plan\n\none changed\n\ntwo\n\nthree\n",
        "the hovered block is back to the reviewed text"
    );
}

#[test]
fn un_accepting_a_block_marks_it_changed_again() {
    let reviewed = "# Plan\n\none\n\ntwo\n\nthree\n";
    let current = "# Plan\n\none changed\n\ntwo\n\nthree\n";
    let block = current.find("one changed").expect("present");
    let block = block..block + "one changed".len();
    let accepted = accept_region(reviewed, current, &block);
    assert_eq!(accepted, current, "the whole change was the hovered block");
    let restored = restore_region(reviewed, &accepted, current, &block);
    assert_eq!(restored, reviewed, "the reviewed text is back in the baseline");
    assert!(Overlay::between(&restored, current).is_some(), "the change shows again");
}

#[test]
fn un_accepting_an_unchanged_block_changes_nothing() {
    let reviewed = "# Plan\n\none\n\ntwo\n";
    let current = "# Plan\n\none changed\n\ntwo\n";
    let changed = current.find("one changed").expect("present");
    let accepted = accept_region(reviewed, current, &(changed..changed + "one changed".len()));
    let two = current.find("two").expect("present");
    let restored = restore_region(reviewed, &accepted, current, &(two..two + 3));
    assert_eq!(restored, accepted, "a block with no change cannot be un-accepted");
}

#[test]
fn full_diff_covers_the_whole_file_with_inline_changes() {
    let baseline = "# Title\n\nfirst\n\nkeep\n";
    let current = "# Title\n\nfirst (expanded)\n\nkeep\n\nadded tail\n";
    let overlay = Overlay::between(baseline, current).expect("differs");
    let lines: Vec<&str> = overlay.full_diff.lines().collect();
    assert_eq!(lines.first().copied().expect("hunk header"), "@@ -1,5 +1,7 @@", "one hunk covers the file");
    assert!(lines.contains(&"-first"), "removed line present");
    assert!(lines.contains(&"+first (expanded)"), "added line present");
    assert!(lines.contains(&"+added tail"), "added tail present");
    assert!(lines.contains(&" # Title"), "context line present");
    assert!(lines.contains(&" keep"), "unchanged tail present");
}
