//! What changed since the version the annotations were first written against: the diff
//! between the reviewed baseline and the current file as byte ranges in the current
//! source, the whole-file unified diff, and the region verbs (accept, revert, un-accept).

use std::ops::Range;

use vstd::prelude::*;
use vstd::string::StringSliceAdditionalSpecFns;
use vstd::utf8::*;

use crate::doc::utf8_bytes;
use crate::hunk::{
    hunk_counts, is_ascii_digit, lemma_decimal_reads_back, lemma_side_count_reads,
    lemma_skip_white_to, lemma_word_end_to, unicode_white_space,
};
use crate::linediff::{
    diff_lines, equal_runs_match, lemma_split_lines, line_diff_ops, ops_tile, split_lines,
    string_views, LineDiff, LineOp, OpTag,
};
use crate::text::{decimal, is_newline_byte, push_char, push_decimal, push_text, text_equal};

verus! {

broadcast use vstd::seq_lib::group_seq_properties;

/// Byte offsets of the line starts among the first `n` bytes: 0, then one past every `\n`.
pub open spec fn starts_upto(b: Seq<u8>, n: int) -> Seq<usize>
    decreases n,
{
    if n <= 0 {
        seq![0usize]
    } else if is_newline_byte(b[n - 1]) {
        starts_upto(b, n - 1).push(n as usize)
    } else {
        starts_upto(b, n - 1)
    }
}

/// Byte offset of every line start (`split('\n')` indexing).
pub open spec fn line_starts_of(b: Seq<u8>) -> Seq<usize> {
    starts_upto(b, b.len() as int)
}

proof fn lemma_starts_upto(b: Seq<u8>, n: int)
    requires
        0 <= n <= b.len(),
    ensures
        starts_upto(b, n).len() >= 1,
        starts_upto(b, n)[0] == 0,
        forall|k: int| 0 <= k < starts_upto(b, n).len() ==> #[trigger] starts_upto(b, n)[k] <= n,
    decreases n,
{
    if n > 0 {
        lemma_starts_upto(b, n - 1);
    }
}

/// Byte offset of every line start (`split('\n')` indexing, so offsets are exact).
pub fn line_starts(source: &str) -> (starts: Vec<usize>)
    ensures
        starts@ == line_starts_of(utf8_bytes(source@)),
{
    let b = source.as_bytes();
    let mut starts: Vec<usize> = Vec::new();
    starts.push(0);
    let mut i: usize = 0;
    while i < b.len()
        invariant
            i <= b@.len(),
            b@.len() == b.len(),
            starts@ == starts_upto(b@, i as int),
        decreases b@.len() - i,
    {
        if b[i] == 10u8 {
            starts.push(i + 1);
        }
        i = i + 1;
    }
    starts
}

/// Byte range of current-source lines `from..to` (line indices). A pure deletion
/// (`to == from`) marks the line now standing at that position; at the end of the text
/// there is nothing to mark and the range is empty.
pub open spec fn current_range_of(starts: Seq<usize>, from: int, to: int, len: usize) -> Range<usize> {
    let start = if 0 <= from < starts.len() {
        starts[from]
    } else {
        len
    };
    if to == from {
        let next = if 0 <= from + 1 < starts.len() {
            starts[from + 1]
        } else {
            len
        };
        if next > start {
            Range { start, end: next }
        } else {
            Range { start, end: start }
        }
    } else {
        let end = if 0 <= to < starts.len() {
            starts[to]
        } else {
            len
        };
        Range { start, end: if end > start { end } else { start } }
    }
}

fn current_range(starts: &Vec<usize>, from: usize, to: usize, source_len: usize) -> (r: Range<usize>)
    ensures
        r == current_range_of(starts@, from as int, to as int, source_len),
{
    let start = if from < starts.len() {
        starts[from]
    } else {
        source_len
    };
    if to == from {
        let next = if starts.len() > 0 && from < starts.len() - 1 {
            starts[from + 1]
        } else {
            source_len
        };
        return if next > start {
            Range { start, end: next }
        } else {
            Range { start, end: start }
        };
    }
    let end = if to < starts.len() {
        starts[to]
    } else {
        source_len
    };
    Range { start, end: if end > start { end } else { start } }
}

/// The marks an overlay carries: added and removed ranges, and line counts.
pub struct Marks {
    pub added: Seq<Range<usize>>,
    pub removed: Seq<Range<usize>>,
    pub added_lines: nat,
    pub removed_lines: nat,
}

/// The marks of a sequence of diff ops over the current text's line starts: an insert
/// marks its new lines added; a delete marks the line standing where the old lines were;
/// a replace does both. Counts add up the old and new lines of the changed ops.
pub open spec fn overlay_marks(ops: Seq<LineOp>, starts: Seq<usize>, len: usize) -> Marks
    decreases ops.len(),
{
    if ops.len() == 0 {
        Marks { added: seq![], removed: seq![], added_lines: 0, removed_lines: 0 }
    } else {
        let m = overlay_marks(ops.drop_last(), starts, len);
        let op = ops.last();
        let gone = current_range_of(starts, op.new_index as int, op.new_index as int, len);
        let fresh = current_range_of(
            starts,
            op.new_index as int,
            op.new_index + op.new_len,
            len,
        );
        match op.tag {
            OpTag::Equal => m,
            OpTag::Delete => Marks {
                removed: m.removed.push(gone),
                removed_lines: m.removed_lines + op.old_len as nat,
                ..m
            },
            OpTag::Insert => Marks {
                added: m.added.push(fresh),
                added_lines: m.added_lines + op.new_len as nat,
                ..m
            },
            OpTag::Replace => Marks {
                added: m.added.push(fresh),
                removed: m.removed.push(gone),
                added_lines: m.added_lines + op.new_len as nat,
                removed_lines: m.removed_lines + op.old_len as nat,
            },
        }
    }
}

/// Line starts come in increasing order, each at most the text's length.
proof fn lemma_starts_ascend(b: Seq<u8>, n: int)
    requires
        0 <= n <= b.len(),
        b.len() <= usize::MAX,
    ensures
        forall|i: int, j: int|
            0 <= i < j < starts_upto(b, n).len() ==> #[trigger] starts_upto(b, n)[i]
                < #[trigger] starts_upto(b, n)[j],
        forall|i: int| 0 <= i < starts_upto(b, n).len() ==> #[trigger] starts_upto(b, n)[i] <= n,
    decreases n,
{
    if n > 0 {
        lemma_starts_ascend(b, n - 1);
        let prev = starts_upto(b, n - 1);
        let cur = starts_upto(b, n);
        if is_newline_byte(b[n - 1]) {
            assert forall|i: int| 0 <= i < cur.len() implies #[trigger] cur[i] <= n by {
                if i < prev.len() {
                    assert(cur[i] == prev[i]);
                }
            }
            assert forall|i: int, j: int| 0 <= i < j < cur.len() implies #[trigger] cur[i]
                < #[trigger] cur[j] by {
                assert(cur[i] == prev[i]);
                assert(prev[i] <= n - 1);
                if j < prev.len() {
                    assert(cur[j] == prev[j]);
                    assert(prev[i] < prev[j]);
                } else {
                    assert(cur[j] == n);
                }
            }
        }
    }
}

/// Where line `l` of the text ends: the next line's start, or the end of the text.
pub open spec fn line_limit(starts: Seq<usize>, l: int, len: usize) -> int {
    if l + 1 < starts.len() {
        starts[l + 1] as int
    } else {
        len as int
    }
}

/// An insert or a replace among `ops` leaves its new lines' range among the added marks.
proof fn lemma_fresh_marked(ops: Seq<LineOp>, starts: Seq<usize>, len: usize, k: int)
    requires
        0 <= k < ops.len(),
        ops[k].tag is Insert || ops[k].tag is Replace,
    ensures
        overlay_marks(ops, starts, len).added.contains(
            current_range_of(
                starts,
                ops[k].new_index as int,
                ops[k].new_index + ops[k].new_len,
                len,
            ),
        ),
    decreases ops.len(),
{
    let x = current_range_of(starts, ops[k].new_index as int, ops[k].new_index + ops[k].new_len, len);
    let m = overlay_marks(ops.drop_last(), starts, len);
    if k == ops.len() - 1 {
        let out = overlay_marks(ops, starts, len);
        assert(out.added[out.added.len() - 1] == x);
    } else {
        assert(ops.drop_last()[k] == ops[k]);
        lemma_fresh_marked(ops.drop_last(), starts, len, k);
        let j = choose|j: int| 0 <= j < m.added.len() && m.added[j] == x;
        let out = overlay_marks(ops, starts, len);
        assert(out.added[j] == x);
    }
}

/// Every line an insert or a replace brings into the current text is marked added, byte
/// for byte: each byte of such a line lies inside one of the added ranges.
pub proof fn lemma_new_lines_marked_added(
    ops: Seq<LineOp>,
    b: Seq<u8>,
    k: int,
    l: int,
    p: int,
)
    requires
        b.len() <= usize::MAX,
        0 <= k < ops.len(),
        ops[k].tag is Insert || ops[k].tag is Replace,
        ops[k].new_index <= l < ops[k].new_index + ops[k].new_len,
        l < line_starts_of(b).len(),
        line_starts_of(b)[l] <= p < line_limit(line_starts_of(b), l, b.len() as usize),
    ensures
        exists|j: int|
            0 <= j < overlay_marks(ops, line_starts_of(b), b.len() as usize).added.len() && (
            #[trigger] overlay_marks(ops, line_starts_of(b), b.len() as usize).added[j]).start <= p
                < overlay_marks(ops, line_starts_of(b), b.len() as usize).added[j].end,
{
    let starts = line_starts_of(b);
    let len = b.len() as usize;
    lemma_starts_ascend(b, b.len() as int);
    lemma_fresh_marked(ops, starts, len, k);
    let from = ops[k].new_index as int;
    let to = ops[k].new_index + ops[k].new_len;
    let x = current_range_of(starts, from, to, len);
    assert(starts[from] <= starts[l]) by {
        if from < l {
            assert(starts[from] < starts[l]);
        }
    }
    assert(x.start <= p < x.end) by {
        if to < starts.len() {
            if l + 1 < to {
                assert(starts[l + 1] < starts[to]);
            }
        }
    }
    let marks = overlay_marks(ops, starts, len);
    let j = choose|j: int| 0 <= j < marks.added.len() && marks.added[j] == x;
    assert(marks.added[j].start <= p < marks.added[j].end);
}

/// A delete or a replace among `ops` leaves the range of the line now standing where its
/// old lines were among the removed marks.
proof fn lemma_gone_marked(ops: Seq<LineOp>, starts: Seq<usize>, len: usize, k: int)
    requires
        0 <= k < ops.len(),
        ops[k].tag is Delete || ops[k].tag is Replace,
    ensures
        overlay_marks(ops, starts, len).removed.contains(
            current_range_of(starts, ops[k].new_index as int, ops[k].new_index as int, len),
        ),
    decreases ops.len(),
{
    let x = current_range_of(starts, ops[k].new_index as int, ops[k].new_index as int, len);
    let m = overlay_marks(ops.drop_last(), starts, len);
    if k == ops.len() - 1 {
        let out = overlay_marks(ops, starts, len);
        assert(out.removed[out.removed.len() - 1] == x);
    } else {
        assert(ops.drop_last()[k] == ops[k]);
        lemma_gone_marked(ops.drop_last(), starts, len, k);
        let j = choose|j: int| 0 <= j < m.removed.len() && m.removed[j] == x;
        let out = overlay_marks(ops, starts, len);
        assert(out.removed[j] == x);
    }
}

/// Where a delete or a replace took lines away, the line now standing there is marked
/// removed, byte for byte.
pub proof fn lemma_removal_site_marked(ops: Seq<LineOp>, b: Seq<u8>, k: int, p: int)
    requires
        b.len() <= usize::MAX,
        0 <= k < ops.len(),
        ops[k].tag is Delete || ops[k].tag is Replace,
        ops[k].new_index < line_starts_of(b).len(),
        line_starts_of(b)[ops[k].new_index as int] <= p < line_limit(
            line_starts_of(b),
            ops[k].new_index as int,
            b.len() as usize,
        ),
    ensures
        exists|j: int|
            0 <= j < overlay_marks(ops, line_starts_of(b), b.len() as usize).removed.len() && (
            #[trigger] overlay_marks(ops, line_starts_of(b), b.len() as usize).removed[j]).start
                <= p < overlay_marks(ops, line_starts_of(b), b.len() as usize).removed[j].end,
{
    let starts = line_starts_of(b);
    let len = b.len() as usize;
    lemma_starts_ascend(b, b.len() as int);
    lemma_gone_marked(ops, starts, len, k);
    let x = current_range_of(starts, ops[k].new_index as int, ops[k].new_index as int, len);
    assert(x.start <= p < x.end);
    let marks = overlay_marks(ops, starts, len);
    let j = choose|j: int| 0 <= j < marks.removed.len() && marks.removed[j] == x;
    assert(marks.removed[j].start <= p < marks.removed[j].end);
}

/// What `Overlay::between` says of every inserted or rewritten line: each of its bytes
/// in the current text is added.
pub proof fn lemma_overlay_marks_new_lines(
    o: Overlay,
    baseline: Seq<char>,
    current: Seq<char>,
    k: int,
    l: int,
    p: int,
)
    requires
        o.describes(baseline, current),
        utf8_bytes(current).len() <= usize::MAX,
        0 <= k < line_diff_ops(baseline, current).len(),
        line_diff_ops(baseline, current)[k].tag is Insert || line_diff_ops(
            baseline,
            current,
        )[k].tag is Replace,
        line_diff_ops(baseline, current)[k].new_index <= l < line_diff_ops(baseline, current)[k].new_index
            + line_diff_ops(baseline, current)[k].new_len,
        l < line_starts_of(utf8_bytes(current)).len(),
        line_starts_of(utf8_bytes(current))[l] <= p < line_limit(
            line_starts_of(utf8_bytes(current)),
            l,
            utf8_bytes(current).len() as usize,
        ),
    ensures
        exists|j: int| 0 <= j < o.added@.len() && (#[trigger] o.added@[j]).start <= p < o.added@[j].end,
{
    lemma_new_lines_marked_added(line_diff_ops(baseline, current), utf8_bytes(current), k, l, p);
}

/// Each op ends no later than the end of its sides.
pub proof fn lemma_ops_within(ops: Seq<LineOp>, n_old: nat, n_new: nat, k: int)
    requires
        ops_tile(ops, n_old, n_new),
        0 <= k < ops.len(),
    ensures
        ops[k].old_index + ops[k].old_len <= n_old,
        ops[k].new_index + ops[k].new_len <= n_new,
    decreases ops.len() - k,
{
    if k < ops.len() - 1 {
        lemma_ops_within(ops, n_old, n_new, k + 1);
        assert(ops[k + 1].old_index == ops[k].old_index + ops[k].old_len);
    }
}

/// Where op `i` starts on the new side (the end of the new side once past the last op).
pub open spec fn new_pos(ops: Seq<LineOp>, i: int, n_new: nat) -> int {
    if i < ops.len() {
        ops[i].new_index as int
    } else {
        n_new as int
    }
}

/// Where op `i` starts on the old side (the end of the old side once past the last op).
pub open spec fn old_pos(ops: Seq<LineOp>, i: int, n_old: nat) -> int {
    if i < ops.len() {
        ops[i].old_index as int
    } else {
        n_old as int
    }
}

proof fn lemma_pos_step(ops: Seq<LineOp>, n_old: nat, n_new: nat, i: int)
    requires
        ops_tile(ops, n_old, n_new),
        0 <= i < ops.len(),
    ensures
        new_pos(ops, i + 1, n_new) == ops[i].new_index + ops[i].new_len,
        old_pos(ops, i + 1, n_old) == ops[i].old_index + ops[i].old_len,
{
    if i + 1 < ops.len() {
        assert(ops[i + 1].old_index == ops[i].old_index + ops[i].old_len);
    }
}

/// The diff between the reviewed baseline and the current file, as byte ranges in the
/// current source.
#[derive(Debug)]
pub struct Overlay {
    /// The content the annotations were first written against.
    pub baseline: String,
    /// Current-source ranges covering added (or rewritten) lines.
    pub added: Vec<Range<usize>>,
    /// Current-source ranges marking where baseline lines were removed.
    pub removed: Vec<Range<usize>>,
    pub added_lines: usize,
    pub removed_lines: usize,
    /// A unified diff covering the whole file.
    pub full_diff: String,
}

impl Overlay {
    /// This overlay is the diff from `baseline` to `current`: the baseline text, the marks
    /// of the line diff's ops over the current text's line starts, the whole-file diff, and
    /// every mark inside the current text.
    pub open spec fn describes(self, baseline: Seq<char>, current: Seq<char>) -> bool {
        let ops = line_diff_ops(baseline, current);
        let b = utf8_bytes(current);
        let m = overlay_marks(ops, line_starts_of(b), b.len() as usize);
        &&& self.baseline@ == baseline
        &&& self.added@ == m.added
        &&& self.removed@ == m.removed
        &&& self.added_lines == m.added_lines
        &&& self.removed_lines == m.removed_lines
        &&& self.full_diff@ == full_diff_text(ops, split_lines(baseline), split_lines(current))
        &&& forall|k: int|
            0 <= k < self.added@.len() ==> (#[trigger] self.added@[k]).start <= self.added@[k].end
                <= b.len()
        &&& forall|k: int|
            0 <= k < self.removed@.len() ==> (#[trigger] self.removed@[k]).start
                <= self.removed@[k].end <= b.len()
    }

    /// `None` when the file matches its baseline.
    #[verifier::spinoff_prover]
    #[verifier::rlimit(60)]
    pub fn between(baseline: &str, current: &str) -> (r: Option<Self>)
        ensures
            r is None <==> baseline@ == current@,
            r matches Some(o) ==> o.describes(baseline@, current@),
    {
        if text_equal(baseline, current) {
            return None;
        }
        let starts = line_starts(current);
        let len = current.as_bytes().len();
        let ghost b = utf8_bytes(current@);
        assert(len == b.len());
        proof {
            lemma_starts_upto(b, b.len() as int);
        }
        let diff = diff_lines(baseline, current);
        let ghost ops = diff.ops@;
        let ghost n_old = diff.old_lines@.len();
        let ghost n_new = diff.new_lines@.len();
        let n_old_e = diff.old_lines.len();
        let n_new_e = diff.new_lines.len();
        let mut added: Vec<Range<usize>> = Vec::new();
        let mut removed: Vec<Range<usize>> = Vec::new();
        let mut added_lines: usize = 0;
        let mut removed_lines: usize = 0;
        let mut i: usize = 0;
        while i < diff.ops.len()
            invariant
                ops == diff.ops@,
                ops_tile(ops, n_old, n_new),
                n_old == diff.old_lines@.len(),
                n_new == diff.new_lines@.len(),
                n_old == n_old_e,
                n_new == n_new_e,
                i <= ops.len(),
                len == b.len(),
                starts@ == line_starts_of(b),
                starts@.len() >= 1,
                forall|k: int| 0 <= k < starts@.len() ==> #[trigger] starts@[k] <= b.len(),
                ({
                    let m = overlay_marks(ops.take(i as int), starts@, len);
                    &&& added@ == m.added
                    &&& removed@ == m.removed
                    &&& added_lines == m.added_lines
                    &&& removed_lines == m.removed_lines
                }),
                added_lines <= new_pos(ops, i as int, n_new),
                removed_lines <= old_pos(ops, i as int, n_old),
                forall|k: int| 0 <= k < added@.len() ==> (#[trigger] added@[k]).start <= added@[k].end <= len,
                forall|k: int| 0 <= k < removed@.len() ==> (#[trigger] removed@[k]).start <= removed@[k].end <= len,
            decreases ops.len() - i,
        {
            let op = diff.ops[i];
            proof {
                lemma_ops_within(ops, n_old, n_new, i as int);
                lemma_pos_step(ops, n_old, n_new, i as int);
                assert(ops.take(i + 1).drop_last() =~= ops.take(i as int));
                assert(ops.take(i + 1).last() == op);
            }
            let gone = current_range(&starts, op.new_index, op.new_index, len);
            let fresh = current_range(&starts, op.new_index, op.new_index + op.new_len, len);
            match op.tag {
                OpTag::Equal => {},
                OpTag::Delete => {
                    removed_lines = removed_lines + op.old_len;
                    removed.push(gone);
                },
                OpTag::Insert => {
                    added_lines = added_lines + op.new_len;
                    added.push(fresh);
                },
                OpTag::Replace => {
                    removed_lines = removed_lines + op.old_len;
                    added_lines = added_lines + op.new_len;
                    removed.push(gone);
                    added.push(fresh);
                },
            }
            i = i + 1;
        }
        assert(ops.take(ops.len() as int) =~= ops);
        let full_diff = full_context_diff(&diff);
        let o = Overlay {
            baseline: baseline.to_owned(),
            added,
            removed,
            added_lines,
            removed_lines,
            full_diff,
        };
        Some(o)
    }

    /// Whether `offset` sits inside added content.
    pub fn is_added(&self, offset: usize) -> (r: bool)
        ensures
            r == exists|k: int|
                0 <= k < self.added@.len() && (#[trigger] self.added@[k]).start <= offset
                    < self.added@[k].end,
    {
        let mut k: usize = 0;
        while k < self.added.len()
            invariant
                k <= self.added@.len(),
                forall|j: int|
                    0 <= j < k ==> !((#[trigger] self.added@[j]).start <= offset
                        < self.added@[j].end),
            decreases self.added@.len() - k,
        {
            if self.added[k].start <= offset && offset < self.added[k].end {
                return true;
            }
            k = k + 1;
        }
        false
    }

    /// Whether `offset` sits on a line standing where baseline content was removed.
    pub fn is_removed(&self, offset: usize) -> (r: bool)
        ensures
            r == exists|k: int|
                0 <= k < self.removed@.len() && (#[trigger] self.removed@[k]).start <= offset
                    < self.removed@[k].end,
    {
        let mut k: usize = 0;
        while k < self.removed.len()
            invariant
                k <= self.removed@.len(),
                forall|j: int|
                    0 <= j < k ==> !((#[trigger] self.removed@[j]).start <= offset
                        < self.removed@[j].end),
            decreases self.removed@.len() - k,
        {
            if self.removed[k].start <= offset && offset < self.removed[k].end {
                return true;
            }
            k = k + 1;
        }
        false
    }

    /// Whether a block's byte range covers any change, added or removed.
    pub fn touches(&self, range: &Range<usize>) -> (r: bool)
        ensures
            r == ((exists|k: int|
                0 <= k < self.added@.len() && ranges_meet(#[trigger] self.added@[k], *range))
                || (exists|k: int|
                0 <= k < self.removed@.len() && ranges_meet(
                    #[trigger] self.removed@[k],
                    *range,
                ))),
    {
        let mut k: usize = 0;
        while k < self.added.len()
            invariant
                k <= self.added@.len(),
                forall|j: int| 0 <= j < k ==> !ranges_meet(#[trigger] self.added@[j], *range),
            decreases self.added@.len() - k,
        {
            if self.added[k].start < range.end && range.start < self.added[k].end {
                return true;
            }
            k = k + 1;
        }
        let mut k: usize = 0;
        while k < self.removed.len()
            invariant
                k <= self.removed@.len(),
                forall|j: int| 0 <= j < self.added@.len() ==> !ranges_meet(#[trigger] self.added@[j], *range),
                forall|j: int| 0 <= j < k ==> !ranges_meet(#[trigger] self.removed@[j], *range),
            decreases self.removed@.len() - k,
        {
            if self.removed[k].start < range.end && range.start < self.removed[k].end {
                return true;
            }
            k = k + 1;
        }
        false
    }
}

/// Two byte ranges share at least one byte.
pub open spec fn ranges_meet(a: Range<usize>, b: Range<usize>) -> bool {
    a.start < b.end && b.start < a.end
}

/// `\ No newline at end of file` and a line break.
pub open spec fn no_newline_note() -> Seq<char> {
    seq!['\\', ' ', 'N', 'o', ' ', 'n', 'e', 'w', 'l', 'i', 'n', 'e', ' ', 'a', 't', ' ', 'e', 'n', 'd',
        ' ', 'o', 'f', ' ', 'f', 'i', 'l', 'e', '\n']
}

/// The line ends in a line break (`\n` or `\r`).
pub open spec fn ends_with_break(line: Seq<char>) -> bool {
    line.len() > 0 && (line.last() == '\n' || line.last() == '\r')
}

/// One line of the whole-file diff: the prefix, the line, and for a line without a break
/// a break plus the no-newline note.
pub open spec fn change_line(prefix: char, line: Seq<char>) -> Seq<char> {
    if ends_with_break(line) {
        seq![prefix] + line
    } else {
        seq![prefix] + line + seq!['\n'] + no_newline_note()
    }
}

/// Lines `from..from + count`, each as a diff line with `prefix`.
pub open spec fn prefixed_lines(prefix: char, lines: Seq<Seq<char>>, from: int, count: int) -> Seq<
    char,
> {
    lines.subrange(from, from + count).map_values(|l: Seq<char>| change_line(prefix, l)).flatten()
}

/// The diff lines one op expands to: context lines ` `, removed `-`, added `+` (a replace
/// lists its removed lines, then its added ones).
pub open spec fn op_changes(op: LineOp, old_lines: Seq<Seq<char>>, new_lines: Seq<Seq<char>>) -> Seq<
    char,
> {
    let removed = prefixed_lines('-', old_lines, op.old_index as int, op.old_len as int);
    let inserted = prefixed_lines('+', new_lines, op.new_index as int, op.new_len as int);
    match op.tag {
        OpTag::Equal => prefixed_lines(' ', old_lines, op.old_index as int, op.old_len as int),
        OpTag::Delete => removed,
        OpTag::Insert => inserted,
        OpTag::Replace => removed + inserted,
    }
}

/// Every line of both versions in reading order, as diff lines.
pub open spec fn diff_body(ops: Seq<LineOp>, old_lines: Seq<Seq<char>>, new_lines: Seq<Seq<char>>) -> Seq<
    char,
> {
    ops.map_values(|op: LineOp| op_changes(op, old_lines, new_lines)).flatten()
}

/// `@@ -1,{n_old} +1,{n_new} @@` and a line break.
pub open spec fn hunk_line(n_old: nat, n_new: nat) -> Seq<char> {
    seq!['@', '@', ' ', '-', '1', ','] + decimal(n_old) + seq![' ', '+', '1', ','] + decimal(n_new)
        + seq![' ', '@', '@', '\n']
}

/// The whole-file unified diff: one hunk whose counts cover both files, then every line.
pub open spec fn full_diff_text(ops: Seq<LineOp>, old_lines: Seq<Seq<char>>, new_lines: Seq<Seq<char>>) -> Seq<
    char,
> {
    hunk_line(old_lines.len(), new_lines.len()) + diff_body(ops, old_lines, new_lines)
}

/// The whole-file diff's header line reads back through the hunk-header parser as the
/// two files' line counts.
pub proof fn lemma_full_diff_header_reads_back(n_old: nat, n_new: nat)
    requires
        n_old <= usize::MAX,
        n_new <= usize::MAX,
    ensures
        hunk_counts(hunk_line(n_old, n_new)) == Some((n_old as usize, n_new as usize)),
{
    let d1 = decimal(n_old);
    let d2 = decimal(n_new);
    lemma_decimal_reads_back(n_old);
    lemma_decimal_reads_back(n_new);
    let p1 = seq!['@', '@', ' ', '-', '1', ','];
    let p2 = seq![' ', '+', '1', ','];
    let p3 = seq![' ', '@', '@', '\n'];
    let t = hunk_line(n_old, n_new);
    let l1 = d1.len() as int;
    let l2 = d2.len() as int;
    let a = 6 + l1;
    let c = 10 + l1;
    let z = c + l2;
    assert(t.len() == z + 4);
    assert forall|i: int| 0 <= i < l1 implies t[6 + i] == d1[i] by {
        assert((p1 + d1)[6 + i] == d1[i]);
    }
    assert forall|i: int| 0 <= i < l2 implies t[c + i] == d2[i] by {
        assert((p1 + d1 + p2 + d2)[c + i] == d2[i]);
    }
    assert(t[0] == '@' && t[1] == '@' && t[2] == ' ' && t[3] == '-' && t[4] == '1' && t[5] == ',');
    assert(t[a] == ' ' && t[a + 1] == '+' && t[a + 2] == '1' && t[a + 3] == ',') by {
        assert((p1 + d1 + p2)[a] == ' ');
        assert((p1 + d1 + p2)[a + 1] == '+');
        assert((p1 + d1 + p2)[a + 2] == '1');
        assert((p1 + d1 + p2)[a + 3] == ',');
    }
    assert(t[z] == ' ' && t[z + 1] == '@' && t[z + 2] == '@' && t[z + 3] == '\n');
    assert forall|i: int| 6 <= i < a implies !unicode_white_space(#[trigger] t[i]) by {
        assert(t[i] == d1[i - 6]);
        assert(is_ascii_digit(d1[i - 6]));
    }
    assert forall|i: int| c <= i < z implies !unicode_white_space(#[trigger] t[i]) by {
        assert(t[i] == d2[i - c]);
        assert(is_ascii_digit(d2[i - c]));
    }
    lemma_skip_white_to(t, 0, 0);
    lemma_word_end_to(t, 0, 2);
    assert(t.subrange(0, 2) =~= seq!['@', '@']);
    lemma_skip_white_to(t, 2, 3);
    lemma_word_end_to(t, 3, a);
    lemma_skip_white_to(t, a, a + 1);
    lemma_word_end_to(t, a + 1, z);
    lemma_skip_white_to(t, z, z + 1);
    lemma_word_end_to(t, z + 1, z + 3);
    assert(t.subrange(z + 1, z + 3) =~= seq!['@', '@']);
    assert(t.subrange(3, a) =~= seq!['-', '1', ','] + d1);
    assert(t.subrange(a + 1, z) =~= seq!['+', '1', ','] + d2);
    lemma_side_count_reads('-', d1);
    lemma_side_count_reads('+', d2);
}

/// Appends lines `from..from + count` as diff lines with `prefix`.
fn push_lines(s: &mut String, prefix: char, lines: &Vec<String>, from: usize, count: usize)
    requires
        from + count <= lines@.len(),
    ensures
        final(s)@ == old(s)@ + prefixed_lines(prefix, string_views(lines@), from as int, count as int),
{
    let ghost views = string_views(lines@);
    let ghost f = |l: Seq<char>| change_line(prefix, l);
    let mut j: usize = 0;
    let n = lines.len();
    assert(views.subrange(from as int, from as int).map_values(f) =~= seq![]);
    while j < count
        invariant
            from + count <= lines@.len(),
            n == lines@.len(),
            views == string_views(lines@),
            f == (|l: Seq<char>| change_line(prefix, l)),
            j <= count,
            s@ == old(s)@ + prefixed_lines(prefix, views, from as int, j as int),
        decreases count - j,
    {
        let line = &lines[from + j];
        let cs = crate::text::chars_of(line.as_str());
        let ghost before = s@;
        push_char(s, prefix);
        push_text(s, line.as_str());
        let breaks = cs.len() > 0 && (cs[cs.len() - 1] == '\n' || cs[cs.len() - 1] == '\r');
        if !breaks {
            push_char(s, '\n');
            proof {
                reveal_strlit("\\ No newline at end of file\n");
            }
            push_text(s, "\\ No newline at end of file\n");
        }
        proof {
            let l = views[from + j];
            assert(l == line@);
            assert(s@ =~= before + change_line(prefix, l));
            let prev = views.subrange(from as int, from + j);
            let next = views.subrange(from as int, from + j + 1);
            assert(next =~= prev.push(l));
            assert(next.map_values(f) =~= prev.map_values(f).push(f(l)));
            prev.map_values(f).lemma_flatten_push(f(l));
        }
        j = j + 1;
    }
}

/// The whole-file unified diff for the changes view, built from the same line diff the
/// ranges came from.
fn full_context_diff(diff: &LineDiff) -> (r: String)
    requires
        ops_tile(diff.ops@, diff.old_lines@.len(), diff.new_lines@.len()),
    ensures
        r@ == full_diff_text(
            diff.ops@,
            string_views(diff.old_lines@),
            string_views(diff.new_lines@),
        ),
{
    let ghost ops = diff.ops@;
    let ghost n_old = diff.old_lines@.len();
    let ghost n_new = diff.new_lines@.len();
    let ghost ol = string_views(diff.old_lines@);
    let ghost nl = string_views(diff.new_lines@);
    let ghost g = |op: LineOp| op_changes(op, ol, nl);
    let n_old_e = diff.old_lines.len();
    let n_new_e = diff.new_lines.len();
    let mut body = String::new();
    let mut old_total: usize = 0;
    let mut new_total: usize = 0;
    let mut i: usize = 0;
    assert(ops.take(0).map_values(g) =~= seq![]);
    while i < diff.ops.len()
        invariant
            ops == diff.ops@,
            ops_tile(ops, n_old, n_new),
            n_old == diff.old_lines@.len(),
            n_new == diff.new_lines@.len(),
            n_old == n_old_e,
            n_new == n_new_e,
            ol == string_views(diff.old_lines@),
            nl == string_views(diff.new_lines@),
            g == (|op: LineOp| op_changes(op, ol, nl)),
            i <= ops.len(),
            old_total == old_pos(ops, i as int, n_old),
            new_total == new_pos(ops, i as int, n_new),
            body@ == ops.take(i as int).map_values(g).flatten(),
        decreases ops.len() - i,
    {
        let op = diff.ops[i];
        proof {
            lemma_ops_within(ops, n_old, n_new, i as int);
            lemma_pos_step(ops, n_old, n_new, i as int);
        }
        let ghost before = body@;
        match op.tag {
            OpTag::Equal => {
                push_lines(&mut body, ' ', &diff.old_lines, op.old_index, op.old_len);
            },
            OpTag::Delete => {
                push_lines(&mut body, '-', &diff.old_lines, op.old_index, op.old_len);
            },
            OpTag::Insert => {
                push_lines(&mut body, '+', &diff.new_lines, op.new_index, op.new_len);
            },
            OpTag::Replace => {
                push_lines(&mut body, '-', &diff.old_lines, op.old_index, op.old_len);
                push_lines(&mut body, '+', &diff.new_lines, op.new_index, op.new_len);
            },
        }
        old_total = old_total + op.old_len;
        new_total = new_total + op.new_len;
        proof {
            assert(body@ =~= before + g(op));
            assert(ops.take(i + 1) =~= ops.take(i as int).push(op));
            assert(ops.take(i + 1).map_values(g) =~= ops.take(i as int).map_values(g).push(g(op)));
            ops.take(i as int).map_values(g).lemma_flatten_push(g(op));
        }
        i = i + 1;
    }
    assert(ops.take(ops.len() as int) =~= ops);
    let mut out = String::new();
    proof {
        reveal_strlit("@@ -1,");
        reveal_strlit(" +1,");
        reveal_strlit(" @@\n");
    }
    push_text(&mut out, "@@ -1,");
    push_decimal(&mut out, old_total);
    push_text(&mut out, " +1,");
    push_decimal(&mut out, new_total);
    push_text(&mut out, " @@\n");
    push_text(&mut out, body.as_str());
    assert(out@ =~= full_diff_text(ops, ol, nl));
    out
}

/// Number of `\n` bytes among the first `p` bytes.
pub open spec fn newlines_before(b: Seq<u8>, p: int) -> nat
    decreases p,
{
    if p <= 0 || p > b.len() {
        0
    } else {
        newlines_before(b, p - 1) + if is_newline_byte(b[p - 1]) {
            1nat
        } else {
            0nat
        }
    }
}

/// The block range clamped to the text: `(start, end)`.
pub open spec fn clamped(b: Seq<u8>, r: Range<usize>) -> (int, int) {
    let end = if r.end <= b.len() {
        r.end as int
    } else {
        b.len() as int
    };
    let start = if r.start <= end {
        r.start as int
    } else {
        end
    };
    (start, end)
}

/// Line span (indices into the `\n` split) touched by byte range `r`. An empty range at
/// `p` covers no line and sits on the line holding `p`.
pub open spec fn line_span_of(b: Seq<u8>, r: Range<usize>) -> Range<usize> {
    let (start, end) = clamped(b, r);
    let first = newlines_before(b, start) as usize;
    if start == end {
        Range { start: first, end: first }
    } else {
        Range { start: first, end: (newlines_before(b, end - 1) + 1) as usize }
    }
}

proof fn lemma_newlines_before(b: Seq<u8>, p: int)
    requires
        0 <= p <= b.len(),
    ensures
        newlines_before(b, p) <= p,
    decreases p,
{
    if p > 0 {
        lemma_newlines_before(b, p - 1);
    }
}

/// The line starts among the first `p` bytes number one more than the newlines there.
proof fn lemma_starts_count(b: Seq<u8>, p: int)
    requires
        0 <= p <= b.len(),
    ensures
        starts_upto(b, p).len() == newlines_before(b, p) + 1,
    decreases p,
{
    if p > 0 {
        lemma_starts_count(b, p - 1);
    }
}

/// Scanning on from `p` to `n` keeps the starts found before `p`, and any start found
/// after them lies past `p`.
proof fn lemma_starts_extend(b: Seq<u8>, p: int, n: int)
    requires
        0 <= p <= n <= b.len(),
        b.len() <= usize::MAX,
    ensures
        starts_upto(b, n).len() >= starts_upto(b, p).len(),
        forall|i: int| 0 <= i < starts_upto(b, p).len() ==> #[trigger] starts_upto(b, n)[i] == starts_upto(b, p)[i],
        starts_upto(b, n).len() > starts_upto(b, p).len() ==> starts_upto(b, n)[starts_upto(b, p).len() as int] > p,
    decreases n - p,
{
    if n > p {
        lemma_starts_extend(b, p, n - 1);
        let prev = starts_upto(b, n - 1);
        let cur = starts_upto(b, n);
        let m = starts_upto(b, p).len() as int;
        if is_newline_byte(b[n - 1]) {
            assert forall|i: int| 0 <= i < m implies #[trigger] cur[i] == starts_upto(b, p)[i] by {
                assert(cur[i] == prev[i]);
            }
            if prev.len() > m {
                assert(cur[m] == prev[m]);
            } else {
                assert(cur[m] == n);
            }
        }
    }
}

/// The line a byte lies on, counted by the newlines before it: that line starts at or
/// before the byte, and the next line (if any) starts after it.
pub proof fn lemma_line_of_byte(b: Seq<u8>, p: int)
    requires
        b.len() <= usize::MAX,
        0 <= p <= b.len(),
    ensures
        newlines_before(b, p) < line_starts_of(b).len(),
        line_starts_of(b)[newlines_before(b, p) as int] <= p,
        newlines_before(b, p) + 1 < line_starts_of(b).len() ==> p < line_starts_of(b)[newlines_before(
            b,
            p,
        ) + 1int],
{
    lemma_starts_count(b, p);
    lemma_starts_extend(b, p, b.len() as int);
    lemma_starts_upto(b, p);
    let l = newlines_before(b, p) as int;
    assert(line_starts_of(b)[l] == starts_upto(b, p)[l]);
}

/// Index of the line holding byte `pos` (`pos` clamped to the text).
fn line_of(b: &[u8], pos: usize) -> (r: usize)
    requires
        pos <= b@.len(),
    ensures
        r == newlines_before(b@, pos as int),
{
    let mut n: usize = 0;
    let mut i: usize = 0;
    while i < pos
        invariant
            i <= pos <= b@.len(),
            n == newlines_before(b@, i as int),
            n <= i,
        decreases pos - i,
    {
        if b[i] == 10u8 {
            n = n + 1;
        }
        i = i + 1;
    }
    n
}

/// Line span (indices into `split('\n')`) touched by `bytes`: the lines a region verb
/// operates on. An empty range at `p` covers the line holding `p` or nothing at EOF.
pub fn line_span(text: &str, bytes: &Range<usize>) -> (r: Range<usize>)
    ensures
        r == line_span_of(utf8_bytes(text@), *bytes),
{
    let b = text.as_bytes();
    let end = if bytes.end <= b.len() {
        bytes.end
    } else {
        b.len()
    };
    let start = if bytes.start <= end {
        bytes.start
    } else {
        end
    };
    proof {
        lemma_newlines_before(b@, start as int);
    }
    let first = line_of(b, start);
    if start == end {
        return Range { start: first, end: first };
    }
    proof {
        lemma_newlines_before(b@, end - 1);
    }
    let last = line_of(b, end - 1);
    Range { start: first, end: last + 1 }
}

/// Whether a changed op's new lines fall inside `span`. A pure deletion has no new lines;
/// its position counts as inside when it sits on a line the span covers.
pub open spec fn op_in_span(op: LineOp, span: Range<usize>) -> bool {
    if op.new_len == 0 {
        span.start <= op.new_index < span.end
    } else {
        op.new_index < span.end && span.start < op.new_index + op.new_len
    }
}

fn intersects(op: &LineOp, span: &Range<usize>) -> (r: bool)
    requires
        op.new_index + op.new_len <= usize::MAX,
    ensures
        r == op_in_span(*op, *span),
{
    if op.new_len == 0 {
        op.new_index >= span.start && op.new_index < span.end
    } else {
        op.new_index < span.end && span.start < op.new_index + op.new_len
    }
}

/// Whether an op's older side is kept when rebuilding: always for equal runs; for a
/// change, when its being inside the span agrees with `take_old_inside`.
pub open spec fn keeps_old(op: LineOp, span: Range<usize>, take_old_inside: bool) -> bool {
    op.tag is Equal || (op_in_span(op, span) == take_old_inside)
}

/// The text one op contributes when rebuilding.
pub open spec fn op_piece(
    op: LineOp,
    old_lines: Seq<Seq<char>>,
    new_lines: Seq<Seq<char>>,
    span: Range<usize>,
    take_old_inside: bool,
) -> Seq<char> {
    if keeps_old(op, span, take_old_inside) {
        old_lines.subrange(op.old_index as int, op.old_index + op.old_len).flatten()
    } else {
        new_lines.subrange(op.new_index as int, op.new_index + op.new_len).flatten()
    }
}

/// The older text rebuilt by walking the diff: equal lines copied, each change taking the
/// older side when it sits inside `span` and `take_old_inside` is set, or when it sits
/// outside and the flag is clear; otherwise the newer side.
pub open spec fn rebuilt(
    ops: Seq<LineOp>,
    old_lines: Seq<Seq<char>>,
    new_lines: Seq<Seq<char>>,
    span: Range<usize>,
    take_old_inside: bool,
) -> Seq<char> {
    ops.map_values(|op: LineOp| op_piece(op, old_lines, new_lines, span, take_old_inside)).flatten()
}

/// An accept and a revert of the same block split every change the same way: a change
/// the accept takes from the current file is exactly one the revert takes back from the
/// baseline, and a change the accept leaves at the baseline is one the revert leaves at
/// the current file.
pub proof fn lemma_accept_revert_complement(op: LineOp, span: Range<usize>)
    requires
        !(op.tag is Equal),
    ensures
        keeps_old(op, span, false) <==> !keeps_old(op, span, true),
{
}

/// The lines of the new text a change stands on: its new lines, or, for a pure deletion,
/// the line now standing where the old lines were.
pub open spec fn change_stands_on(op: LineOp, line: int) -> bool {
    op.new_index <= line < op.new_index + if op.new_len == 0 {
        1
    } else {
        op.new_len as int
    }
}

/// Whether a change's new lines overlap `span` as intervals (a pure deletion, having no
/// new lines, by the position where its lines were).
pub open spec fn change_overlaps(op: LineOp, span: Range<usize>) -> bool {
    if op.new_len == 0 {
        span.start <= op.new_index < span.end
    } else {
        op.new_index < span.end && span.start < op.new_index + op.new_len
    }
}

/// An accept of a span takes the current side of every change that overlaps the span and
/// keeps the baseline side of every other one; a revert does the opposite. For a span
/// holding at least one line, a change overlaps it exactly when the change stands on one
/// of its lines.
pub proof fn lemma_covered_changes(
    op: LineOp,
    old_lines: Seq<Seq<char>>,
    new_lines: Seq<Seq<char>>,
    span: Range<usize>,
)
    requires
        !(op.tag is Equal),
    ensures
        ({
            let old_side = old_lines.subrange(op.old_index as int, op.old_index + op.old_len).flatten();
            let new_side = new_lines.subrange(op.new_index as int, op.new_index + op.new_len).flatten();
            &&& op_piece(op, old_lines, new_lines, span, false) == if change_overlaps(op, span) {
                new_side
            } else {
                old_side
            }
            &&& op_piece(op, old_lines, new_lines, span, true) == if change_overlaps(op, span) {
                old_side
            } else {
                new_side
            }
        }),
        span.start < span.end ==> (change_overlaps(op, span) <==> exists|line: int|
            change_stands_on(op, line) && span.start <= line < span.end),
{
    if span.start < span.end && change_overlaps(op, span) {
        let w = if op.new_index >= span.start {
            op.new_index as int
        } else {
            span.start as int
        };
        assert(change_stands_on(op, w) && span.start <= w < span.end);
    }
}

/// No changed op falls inside `span`.
pub open spec fn no_change_in_span(ops: Seq<LineOp>, span: Range<usize>) -> bool {
    forall|k: int| 0 <= k < ops.len() && !((#[trigger] ops[k]).tag is Equal) ==> !op_in_span(ops[k], span)
}

proof fn lemma_rebuilt_step(
    ops: Seq<LineOp>,
    old_lines: Seq<Seq<char>>,
    new_lines: Seq<Seq<char>>,
    span: Range<usize>,
    t: bool,
    i: int,
)
    requires
        0 <= i < ops.len(),
    ensures
        rebuilt(ops.take(i + 1), old_lines, new_lines, span, t) == rebuilt(
            ops.take(i),
            old_lines,
            new_lines,
            span,
            t,
        ) + op_piece(ops[i], old_lines, new_lines, span, t),
{
    let f = |op: LineOp| op_piece(op, old_lines, new_lines, span, t);
    assert(ops.take(i + 1) =~= ops.take(i).push(ops[i]));
    assert(ops.take(i + 1).map_values(f) =~= ops.take(i).map_values(f).push(f(ops[i])));
    ops.take(i).map_values(f).lemma_flatten_push(f(ops[i]));
}

proof fn lemma_flatten_join(lines: Seq<Seq<char>>, a: int, b: int, c: int)
    requires
        0 <= a <= b <= c <= lines.len(),
    ensures
        lines.subrange(a, b).flatten() + lines.subrange(b, c).flatten() == lines.subrange(
            a,
            c,
        ).flatten(),
{
    vstd::seq_lib::lemma_flatten_concat(lines.subrange(a, b), lines.subrange(b, c));
    assert(lines.subrange(a, b) + lines.subrange(b, c) =~= lines.subrange(a, c));
}

/// When every op keeps its older side, rebuilding gives the older text's lines back.
proof fn lemma_rebuilt_old(
    ops: Seq<LineOp>,
    old_lines: Seq<Seq<char>>,
    new_lines: Seq<Seq<char>>,
    span: Range<usize>,
    t: bool,
    i: int,
)
    requires
        ops_tile(ops, old_lines.len(), new_lines.len()),
        forall|k: int| 0 <= k < ops.len() ==> keeps_old(#[trigger] ops[k], span, t),
        0 <= i <= ops.len(),
    ensures
        rebuilt(ops.take(i), old_lines, new_lines, span, t) == old_lines.subrange(
            0,
            old_pos(ops, i, old_lines.len()),
        ).flatten(),
    decreases i,
{
    if i == 0 {
        assert(ops.take(0).map_values(
            |op: LineOp| op_piece(op, old_lines, new_lines, span, t),
        ) =~= seq![]);
        assert(old_lines.subrange(0, 0) =~= seq![]);
    } else {
        lemma_rebuilt_old(ops, old_lines, new_lines, span, t, i - 1);
        lemma_rebuilt_step(ops, old_lines, new_lines, span, t, i - 1);
        lemma_pos_step(ops, old_lines.len(), new_lines.len(), i - 1);
        lemma_ops_within(ops, old_lines.len(), new_lines.len(), i - 1);
        assert(keeps_old(ops[i - 1], span, t));
        lemma_flatten_join(
            old_lines,
            0,
            ops[i - 1].old_index as int,
            ops[i - 1].old_index + ops[i - 1].old_len,
        );
    }
}

/// When every change takes its newer side, rebuilding gives the newer text's lines back.
proof fn lemma_rebuilt_new(
    ops: Seq<LineOp>,
    old_lines: Seq<Seq<char>>,
    new_lines: Seq<Seq<char>>,
    span: Range<usize>,
    t: bool,
    i: int,
)
    requires
        ops_tile(ops, old_lines.len(), new_lines.len()),
        equal_runs_match(ops, old_lines, new_lines),
        forall|k: int|
            0 <= k < ops.len() && !((#[trigger] ops[k]).tag is Equal) ==> !keeps_old(
                ops[k],
                span,
                t,
            ),
        0 <= i <= ops.len(),
    ensures
        rebuilt(ops.take(i), old_lines, new_lines, span, t) == new_lines.subrange(
            0,
            new_pos(ops, i, new_lines.len()),
        ).flatten(),
    decreases i,
{
    if i == 0 {
        assert(ops.take(0).map_values(
            |op: LineOp| op_piece(op, old_lines, new_lines, span, t),
        ) =~= seq![]);
        assert(new_lines.subrange(0, 0) =~= seq![]);
    } else {
        lemma_rebuilt_new(ops, old_lines, new_lines, span, t, i - 1);
        lemma_rebuilt_step(ops, old_lines, new_lines, span, t, i - 1);
        lemma_pos_step(ops, old_lines.len(), new_lines.len(), i - 1);
        lemma_ops_within(ops, old_lines.len(), new_lines.len(), i - 1);
        let op = ops[i - 1];
        if op.tag is Equal {
            assert(old_lines.subrange(op.old_index as int, op.old_index + op.old_len)
                == new_lines.subrange(op.new_index as int, op.new_index + op.new_len));
        }
        lemma_flatten_join(new_lines, 0, op.new_index as int, op.new_index + op.new_len);
    }
}

/// Every changed op falls inside `span`.
pub open spec fn all_changes_in_span(ops: Seq<LineOp>, span: Range<usize>) -> bool {
    forall|k: int| 0 <= k < ops.len() && !((#[trigger] ops[k]).tag is Equal) ==> op_in_span(ops[k], span)
}

/// A rebuild gives one side back whole when its span holds no change or every change:
/// with no change in the span, an accept (older side kept outside the span) rebuilds the
/// older lines and a revert the newer ones; with every change in the span, the other way
/// round.
pub proof fn lemma_rebuilt_whole_sides(
    ops: Seq<LineOp>,
    old_lines: Seq<Seq<char>>,
    new_lines: Seq<Seq<char>>,
    span: Range<usize>,
)
    requires
        ops_tile(ops, old_lines.len(), new_lines.len()),
        equal_runs_match(ops, old_lines, new_lines),
    ensures
        no_change_in_span(ops, span) ==> rebuilt(ops, old_lines, new_lines, span, false)
            == old_lines.flatten() && rebuilt(ops, old_lines, new_lines, span, true)
            == new_lines.flatten(),
        all_changes_in_span(ops, span) ==> rebuilt(ops, old_lines, new_lines, span, true)
            == old_lines.flatten() && rebuilt(ops, old_lines, new_lines, span, false)
            == new_lines.flatten(),
{
    let n = ops.len() as int;
    assert(ops.take(n) =~= ops);
    assert(old_lines.subrange(0, old_lines.len() as int) =~= old_lines);
    assert(new_lines.subrange(0, new_lines.len() as int) =~= new_lines);
    if no_change_in_span(ops, span) {
        lemma_rebuilt_old(ops, old_lines, new_lines, span, false, n);
        lemma_rebuilt_new(ops, old_lines, new_lines, span, true, n);
    }
    if all_changes_in_span(ops, span) {
        lemma_rebuilt_old(ops, old_lines, new_lines, span, true, n);
        lemma_rebuilt_new(ops, old_lines, new_lines, span, false, n);
    }
}

/// A span that ends before the first line holds no change.
pub proof fn lemma_span_before_first_line(ops: Seq<LineOp>, span: Range<usize>)
    requires
        span.end == 0,
    ensures
        no_change_in_span(ops, span),
{
}

/// The span of every line index a `usize` can name holds every change, as long as the
/// new side has fewer than `usize::MAX` lines.
pub proof fn lemma_unbounded_span(ops: Seq<LineOp>, n_old: nat, n_new: nat)
    requires
        ops_tile(ops, n_old, n_new),
        n_new < usize::MAX,
    ensures
        all_changes_in_span(ops, Range { start: 0, end: usize::MAX }),
{
    assert forall|k: int| 0 <= k < ops.len() && !((#[trigger] ops[k]).tag is Equal) implies op_in_span(
        ops[k],
        Range { start: 0, end: usize::MAX },
    ) by {
        lemma_ops_within(ops, n_old, n_new, k);
    }
}

/// Appends lines `from..from + count`, joined.
fn push_joined(s: &mut String, lines: &Vec<String>, from: usize, count: usize)
    requires
        from + count <= lines@.len(),
    ensures
        final(s)@ == old(s)@ + string_views(lines@).subrange(
            from as int,
            from + count,
        ).flatten(),
{
    let ghost views = string_views(lines@);
    let n = lines.len();
    let mut j: usize = 0;
    assert(views.subrange(from as int, from as int) =~= seq![]);
    while j < count
        invariant
            from + count <= lines@.len(),
            n == lines@.len(),
            views == string_views(lines@),
            j <= count,
            s@ == old(s)@ + views.subrange(from as int, from + j).flatten(),
        decreases count - j,
    {
        push_text(s, lines[from + j].as_str());
        proof {
            let prev = views.subrange(from as int, from + j);
            assert(views.subrange(from as int, from + j + 1) =~= prev.push(views[from + j]));
            prev.lemma_flatten_push(views[from + j]);
        }
        j = j + 1;
    }
}

/// Rebuild the older text by walking the diff between `older` and `newer` (see
/// `rebuilt`). `span` indexes lines of the newer text.
fn transform(older: &str, newer: &str, span: &Range<usize>, take_old_inside: bool) -> (r: String)
    ensures
        r@ == rebuilt(
            line_diff_ops(older@, newer@),
            split_lines(older@),
            split_lines(newer@),
            *span,
            take_old_inside,
        ),
        (forall|k: int|
            0 <= k < line_diff_ops(older@, newer@).len() ==> keeps_old(
                #[trigger] line_diff_ops(older@, newer@)[k],
                *span,
                take_old_inside,
            )) ==> r@ == older@,
        (forall|k: int|
            0 <= k < line_diff_ops(older@, newer@).len() && !((#[trigger] line_diff_ops(
                older@,
                newer@,
            )[k]).tag is Equal) ==> !keeps_old(line_diff_ops(older@, newer@)[k], *span, take_old_inside))
            ==> r@ == newer@,
{
    let diff = diff_lines(older, newer);
    let ghost ops = diff.ops@;
    let ghost ol = split_lines(older@);
    let ghost nl = split_lines(newer@);
    let n_old_e = diff.old_lines.len();
    let n_new_e = diff.new_lines.len();
    let mut out = String::new();
    let mut i: usize = 0;
    assert(ops.take(0).map_values(
        |op: LineOp| op_piece(op, ol, nl, *span, take_old_inside),
    ) =~= seq![]);
    while i < diff.ops.len()
        invariant
            ops == diff.ops@,
            ol == string_views(diff.old_lines@),
            nl == string_views(diff.new_lines@),
            ops_tile(ops, ol.len(), nl.len()),
            n_old_e == ol.len(),
            n_new_e == nl.len(),
            i <= ops.len(),
            out@ == rebuilt(ops.take(i as int), ol, nl, *span, take_old_inside),
        decreases ops.len() - i,
    {
        let op = diff.ops[i];
        proof {
            lemma_ops_within(ops, ol.len(), nl.len(), i as int);
            lemma_rebuilt_step(ops, ol, nl, *span, take_old_inside, i as int);
        }
        let keep_old = match op.tag {
            OpTag::Equal => true,
            _ => intersects(&op, span) == take_old_inside,
        };
        if keep_old {
            push_joined(&mut out, &diff.old_lines, op.old_index, op.old_len);
        } else {
            push_joined(&mut out, &diff.new_lines, op.new_index, op.new_len);
        }
        i = i + 1;
    }
    proof {
        assert(ops.take(ops.len() as int) =~= ops);
        lemma_split_lines(older@);
        lemma_split_lines(newer@);
        assert(ol.subrange(0, ol.len() as int) =~= ol);
        assert(nl.subrange(0, nl.len() as int) =~= nl);
        if forall|k: int| 0 <= k < ops.len() ==> keeps_old(#[trigger] ops[k], *span, take_old_inside) {
            lemma_rebuilt_old(ops, ol, nl, *span, take_old_inside, ops.len() as int);
        }
        if forall|k: int|
            0 <= k < ops.len() && !((#[trigger] ops[k]).tag is Equal) ==> !keeps_old(
                ops[k],
                *span,
                take_old_inside,
            ) {
            lemma_rebuilt_new(ops, ol, nl, *span, take_old_inside, ops.len() as int);
        }
    }
    out
}

/// Fold `current`'s content for the block at `block` into `baseline`: the changes the
/// block's lines cover take the current file's side, every other change keeps the
/// baseline's. When the block covers no change, the baseline comes back unchanged.
pub fn accept_region(baseline: &str, current: &str, block: &Range<usize>) -> (r: String)
    ensures
        r@ == rebuilt(
            line_diff_ops(baseline@, current@),
            split_lines(baseline@),
            split_lines(current@),
            line_span_of(utf8_bytes(current@), *block),
            false,
        ),
        no_change_in_span(
            line_diff_ops(baseline@, current@),
            line_span_of(utf8_bytes(current@), *block),
        ) ==> r@ == baseline@,
        all_changes_in_span(
            line_diff_ops(baseline@, current@),
            line_span_of(utf8_bytes(current@), *block),
        ) ==> r@ == current@,
{
    let span = line_span(current, block);
    transform(baseline, current, &span, false)
}

/// Rewrite `current` with the baseline's content for the block at `block`: the changes
/// the block's lines cover go back to the reviewed version, every other change stays.
/// When the block covers no change, the current text comes back unchanged.
pub fn revert_region(baseline: &str, current: &str, block: &Range<usize>) -> (r: String)
    ensures
        r@ == rebuilt(
            line_diff_ops(baseline@, current@),
            split_lines(baseline@),
            split_lines(current@),
            line_span_of(utf8_bytes(current@), *block),
            true,
        ),
        no_change_in_span(
            line_diff_ops(baseline@, current@),
            line_span_of(utf8_bytes(current@), *block),
        ) ==> r@ == current@,
        all_changes_in_span(
            line_diff_ops(baseline@, current@),
            line_span_of(utf8_bytes(current@), *block),
        ) ==> r@ == baseline@,
{
    let span = line_span(current, block);
    transform(baseline, current, &span, true)
}

/// An op's new lines overlap `span`.
pub open spec fn op_overlaps(op: LineOp, span: Range<usize>) -> bool {
    op.new_len > 0 && op.new_index < span.end && span.start < op.new_index + op.new_len
}

/// An op's new lines hold all of `span`.
pub open spec fn op_contains(op: LineOp, span: Range<usize>) -> bool {
    op.new_index <= span.start && span.end <= op.new_index + op.new_len
}

/// The old lines an equal op pairs with `span`, which its new lines hold.
pub open spec fn mapped_span(op: LineOp, span: Range<usize>) -> Range<usize> {
    Range {
        start: (op.old_index + (span.start - op.new_index)) as usize,
        end: (op.old_index + (span.end - op.new_index)) as usize,
    }
}

/// The old line span matching `span` in the new text, looked up at the first op (at or
/// after `i`) whose new lines overlap it: mapped through that op when it is an equal run
/// that holds the whole span; none when the span overlaps a change, and none when no op
/// overlaps it.
pub open spec fn map_span_from(ops: Seq<LineOp>, span: Range<usize>, i: int) -> Option<
    Range<usize>,
>
    decreases ops.len() - i,
{
    if i < 0 || i >= ops.len() {
        None
    } else if op_overlaps(ops[i], span) {
        if ops[i].tag is Equal && op_contains(ops[i], span) {
            Some(mapped_span(ops[i], span))
        } else {
            None
        }
    } else {
        map_span_from(ops, span, i + 1)
    }
}

/// Ops before op `k` end on the new side where op `k` starts.
proof fn lemma_ops_before(ops: Seq<LineOp>, n_old: nat, n_new: nat, i: int, k: int)
    requires
        ops_tile(ops, n_old, n_new),
        0 <= i < k < ops.len(),
    ensures
        ops[i].new_index + ops[i].new_len <= ops[k].new_index,
    decreases k - i,
{
    if i + 1 < k {
        lemma_ops_before(ops, n_old, n_new, i + 1, k);
    }
    assert(ops[i + 1].old_index == ops[i].old_index + ops[i].old_len);
}

/// What a span maps to, found from op `i` on, reads the same lines in the old text as the
/// span does in the new one.
proof fn lemma_mapped_lines_from(
    ops: Seq<LineOp>,
    old_lines: Seq<Seq<char>>,
    new_lines: Seq<Seq<char>>,
    span: Range<usize>,
    i: int,
)
    requires
        ops_tile(ops, old_lines.len(), new_lines.len()),
        equal_runs_match(ops, old_lines, new_lines),
        old_lines.len() <= usize::MAX,
        span.start <= span.end,
        0 <= i,
    ensures
        map_span_from(ops, span, i) matches Some(m) ==> {
            &&& m.start <= m.end <= old_lines.len()
            &&& span.start <= span.end <= new_lines.len()
            &&& old_lines.subrange(m.start as int, m.end as int) == new_lines.subrange(
                span.start as int,
                span.end as int,
            )
        },
    decreases ops.len() - i,
{
    if i < ops.len() {
        if op_overlaps(ops[i], span) {
            if ops[i].tag is Equal && op_contains(ops[i], span) {
                let op = ops[i];
                lemma_ops_within(ops, old_lines.len(), new_lines.len(), i);
                assert(ops[i].old_len == ops[i].new_len);
                let olds = old_lines.subrange(op.old_index as int, op.old_index + op.old_len);
                let news = new_lines.subrange(op.new_index as int, op.new_index + op.new_len);
                assert(olds == news);
                let a = span.start - op.new_index;
                let c = span.end - op.new_index;
                let m = mapped_span(op, span);
                assert(old_lines.subrange(m.start as int, m.end as int) =~= olds.subrange(a, c));
                assert(new_lines.subrange(span.start as int, span.end as int) =~= news.subrange(a, c));
            }
        } else {
            lemma_mapped_lines_from(ops, old_lines, new_lines, span, i + 1);
        }
    }
}

/// A span that a change overlaps maps to nothing: from any op up to that change.
proof fn lemma_change_blocks_mapping(ops: Seq<LineOp>, n_old: nat, n_new: nat, span: Range<usize>, i: int, k: int)
    requires
        ops_tile(ops, n_old, n_new),
        0 <= i <= k < ops.len(),
        !(ops[k].tag is Equal),
        op_overlaps(ops[k], span),
    ensures
        map_span_from(ops, span, i) is None,
    decreases k - i,
{
    if i < k {
        lemma_ops_before(ops, n_old, n_new, i, k);
        lemma_change_blocks_mapping(ops, n_old, n_new, span, i + 1, k);
    }
}

/// A span held by an equal run maps, from any op up to that run.
proof fn lemma_equal_run_maps(ops: Seq<LineOp>, n_old: nat, n_new: nat, span: Range<usize>, i: int, k: int)
    requires
        ops_tile(ops, n_old, n_new),
        0 <= i <= k < ops.len(),
        ops[k].tag is Equal,
        span.start < span.end,
        op_contains(ops[k], span),
    ensures
        map_span_from(ops, span, i) == Some(mapped_span(ops[k], span)),
    decreases k - i,
{
    if i < k {
        lemma_ops_before(ops, n_old, n_new, i, k);
        lemma_equal_run_maps(ops, n_old, n_new, span, i + 1, k);
    }
}

/// Un-accepting reads the block's lines where the baseline holds the same text: when a
/// span of the new text maps, the old lines it maps to are exactly the span's new lines;
/// a span that one equal run holds (and that holds a line) always maps; and a span that a
/// change overlaps never maps.
pub proof fn lemma_mapped_span_reads_same_lines(
    ops: Seq<LineOp>,
    old_lines: Seq<Seq<char>>,
    new_lines: Seq<Seq<char>>,
    span: Range<usize>,
)
    requires
        ops_tile(ops, old_lines.len(), new_lines.len()),
        equal_runs_match(ops, old_lines, new_lines),
        old_lines.len() <= usize::MAX,
        span.start <= span.end,
    ensures
        map_span_from(ops, span, 0) matches Some(m) ==> {
            &&& m.start <= m.end <= old_lines.len()
            &&& span.start <= span.end <= new_lines.len()
            &&& old_lines.subrange(m.start as int, m.end as int) == new_lines.subrange(
                span.start as int,
                span.end as int,
            )
        },
        (span.start < span.end && exists|k: int|
            0 <= k < ops.len() && (#[trigger] ops[k]).tag is Equal && ops[k].new_index
                <= span.start && span.end <= ops[k].new_index + ops[k].new_len) ==> map_span_from(
            ops,
            span,
            0,
        ) is Some,
        (exists|k: int|
            0 <= k < ops.len() && !((#[trigger] ops[k]).tag is Equal) && ops[k].new_len > 0
                && ops[k].new_index < span.end && span.start < ops[k].new_index + ops[k].new_len)
            ==> map_span_from(
            ops,
            span,
            0,
        ) is None,
{
    lemma_mapped_lines_from(ops, old_lines, new_lines, span, 0);
    if span.start < span.end && exists|k: int|
        0 <= k < ops.len() && (#[trigger] ops[k]).tag is Equal && ops[k].new_index <= span.start
            && span.end <= ops[k].new_index + ops[k].new_len {
        let k = choose|k: int|
            0 <= k < ops.len() && (#[trigger] ops[k]).tag is Equal && ops[k].new_index
                <= span.start && span.end <= ops[k].new_index + ops[k].new_len;
        lemma_equal_run_maps(ops, old_lines.len(), new_lines.len(), span, 0, k);
    }
    if exists|k: int|
        0 <= k < ops.len() && !((#[trigger] ops[k]).tag is Equal) && ops[k].new_len > 0
            && ops[k].new_index < span.end && span.start < ops[k].new_index + ops[k].new_len {
        let k = choose|k: int|
            0 <= k < ops.len() && !((#[trigger] ops[k]).tag is Equal) && ops[k].new_len > 0
                && ops[k].new_index < span.end && span.start < ops[k].new_index + ops[k].new_len;
        lemma_change_blocks_mapping(ops, old_lines.len(), new_lines.len(), span, 0, k);
    }
}

/// The old line span matching `span` when the whole span sits in an equal run.
fn map_new_to_old(diff: &LineDiff, span: &Range<usize>) -> (r: Option<Range<usize>>)
    requires
        ops_tile(diff.ops@, diff.old_lines@.len(), diff.new_lines@.len()),
    ensures
        r == map_span_from(diff.ops@, *span, 0),
{
    let ghost ops = diff.ops@;
    let n_old_e = diff.old_lines.len();
    let n_new_e = diff.new_lines.len();
    let mut i: usize = 0;
    while i < diff.ops.len()
        invariant
            ops == diff.ops@,
            ops_tile(ops, diff.old_lines@.len(), diff.new_lines@.len()),
            n_old_e == diff.old_lines@.len(),
            n_new_e == diff.new_lines@.len(),
            i <= ops.len(),
            map_span_from(ops, *span, 0) == map_span_from(ops, *span, i as int),
        decreases ops.len() - i,
    {
        let op = diff.ops[i];
        proof {
            lemma_ops_within(ops, diff.old_lines@.len(), diff.new_lines@.len(), i as int);
        }
        let end = op.new_index + op.new_len;
        if !(op.new_len == 0 || op.new_index >= span.end || span.start >= end) {
            if op.tag != OpTag::Equal || span.start < op.new_index || span.end > end {
                return None;
            }
            let start = op.old_index + (span.start - op.new_index);
            let stop = op.old_index + (span.end - op.new_index);
            return Some(Range { start, end: stop });
        }
        i = i + 1;
    }
    None
}

/// Put the reviewed text back into `baseline` for the block at `block`, so an accepted
/// region shows as changed again: the block's lines in `current` are mapped to
/// `baseline` lines (all of them must sit in one equal run), then the reviewed side is taken
/// there. `baseline` comes back unchanged when nothing there was accepted.
pub fn restore_region(reviewed: &str, baseline: &str, current: &str, block: &Range<usize>) -> (r: String)
    ensures
        r@ == match map_span_from(
            line_diff_ops(baseline@, current@),
            line_span_of(utf8_bytes(current@), *block),
            0,
        ) {
            None => baseline@,
            Some(span) => rebuilt(
                line_diff_ops(reviewed@, baseline@),
                split_lines(reviewed@),
                split_lines(baseline@),
                span,
                true,
            ),
        },
{
    let diff = diff_lines(baseline, current);
    let span = line_span(current, block);
    match map_new_to_old(&diff, &span) {
        None => baseline.to_owned(),
        Some(old_span) => transform(reviewed, baseline, &old_span, true),
    }
}

} // verus!
