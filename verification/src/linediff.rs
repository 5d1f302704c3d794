//! Line diffs between two texts, as computed by `similar`.

use similar::{DiffOp, DiffTag, DiffableStr, TextDiff};
use vstd::prelude::*;

verus! {

broadcast use vstd::seq_lib::group_seq_properties;

/// The kind of a diff op.
#[derive(Debug, Clone, Copy, PartialEq, Eq, Structural)]
pub enum OpTag {
    Equal,
    Delete,
    Insert,
    Replace,
}

/// A diff op: a run of old lines (`old_index`, `old_len`) and the run of new lines
/// (`new_index`, `new_len`) it corresponds to. An `Equal` run has the same length on both
/// sides, a `Delete` has no new lines and an `Insert` no old lines.
#[derive(Debug, Clone, Copy, PartialEq, Eq, Structural)]
pub struct LineOp {
    pub tag: OpTag,
    pub old_index: usize,
    pub old_len: usize,
    pub new_index: usize,
    pub new_len: usize,
}

/// A line diff: both texts cut into lines (each keeping its line break) and the ops.
pub struct LineDiff {
    pub old_lines: Vec<String>,
    pub new_lines: Vec<String>,
    pub ops: Vec<LineOp>,
}

/// End (exclusive) of the line that starts at `i`: just past the next `\r\n`, `\r` or
/// `\n`, or the end of the text.
pub open spec fn line_break_end(s: Seq<char>, i: int) -> int
    decreases s.len() - i,
{
    if i < 0 || i >= s.len() {
        s.len() as int
    } else if s[i] == '\n' {
        i + 1
    } else if s[i] == '\r' {
        if i + 1 < s.len() && s[i + 1] == '\n' {
            i + 2
        } else {
            i + 1
        }
    } else {
        line_break_end(s, i + 1)
    }
}

proof fn lemma_line_break_end(s: Seq<char>, i: int)
    requires
        0 <= i < s.len(),
    ensures
        i < line_break_end(s, i) <= s.len(),
    decreases s.len() - i,
{
    if s[i] != '\n' && s[i] != '\r' {
        if i + 1 < s.len() {
            lemma_line_break_end(s, i + 1);
        } else {
            assert(line_break_end(s, i + 1) == s.len());
        }
    }
}

/// The text cut into lines, each keeping its line break (`\r\n`, `\r` or `\n`); a last
/// line without a break is kept as it is, and an empty text has no lines.
pub open spec fn split_lines(s: Seq<char>) -> Seq<Seq<char>>
    decreases s.len(),
{
    if s.len() == 0 {
        seq![]
    } else {
        let k = line_break_end(s, 0);
        if 0 < k <= s.len() {
            seq![s.take(k)] + split_lines(s.skip(k))
        } else {
            seq![s]
        }
    }
}

/// Joining the lines gives the text back, and there are no more lines than characters.
pub proof fn lemma_split_lines(s: Seq<char>)
    ensures
        split_lines(s).flatten() == s,
        split_lines(s).len() <= s.len(),
    decreases s.len(),
{
    if s.len() > 0 {
        lemma_line_break_end(s, 0);
        let k = line_break_end(s, 0);
        lemma_split_lines(s.skip(k));
        let rest = split_lines(s.skip(k));
        vstd::seq_lib::lemma_flatten_concat(seq![s.take(k)], rest);
        seq![s.take(k)].lemma_flatten_one_element();
        assert(s.take(k) + s.skip(k) =~= s);
    }
}

/// The views of a vector of strings.
pub open spec fn string_views(v: Seq<String>) -> Seq<Seq<char>> {
    Seq::new(v.len(), |i: int| v[i]@)
}

/// The ops cover both sides in order: each op starts where the previous one ended, the
/// first at line 0 and the last at the end of each side, with the run shapes of their tags.
pub open spec fn ops_tile(ops: Seq<LineOp>, n_old: nat, n_new: nat) -> bool {
    &&& ops.len() == 0 ==> n_old == 0 && n_new == 0
    &&& ops.len() > 0 ==> ops[0].old_index == 0 && ops[0].new_index == 0
        && ops.last().old_index + ops.last().old_len == n_old && ops.last().new_index
        + ops.last().new_len == n_new
    &&& forall|k: int|
        0 <= k < ops.len() - 1 ==> #[trigger] ops[k + 1].old_index == ops[k].old_index
            + ops[k].old_len && ops[k + 1].new_index == ops[k].new_index + ops[k].new_len
    &&& forall|k: int|
        0 <= k < ops.len() ==> match (#[trigger] ops[k]).tag {
            OpTag::Equal => ops[k].old_len == ops[k].new_len,
            OpTag::Delete => ops[k].new_len == 0,
            OpTag::Insert => ops[k].old_len == 0,
            OpTag::Replace => true,
        }
}

/// The lines of an `Equal` op are the same on both sides.
pub open spec fn equal_runs_match(
    ops: Seq<LineOp>,
    old_lines: Seq<Seq<char>>,
    new_lines: Seq<Seq<char>>,
) -> bool {
    forall|k: int|
        0 <= k < ops.len() && (#[trigger] ops[k]).tag is Equal ==> old_lines.subrange(
            ops[k].old_index as int,
            ops[k].old_index + ops[k].old_len,
        ) == new_lines.subrange(ops[k].new_index as int, ops[k].new_index + ops[k].new_len)
}

/// The ops `similar` computes between the lines of `old` and `new` (Myers, no deadline).
pub uninterp spec fn line_diff_ops(old: Seq<char>, new: Seq<char>) -> Seq<LineOp>;

/// `TextDiff::from_lines(old, new).ops()`, each op taken by `as_tag_tuple`: its tag and
/// its old and new ranges as index and length. Claimed, as the source and the docs show:
/// the ops are a function of the two texts; they cover both sides' lines (cut as
/// `split_lines` says) in order, with the run shapes of their tags; and an `Equal` run
/// pairs equal lines.
#[verifier::external_body]
fn line_ops(old: &str, new: &str) -> (ops: Vec<LineOp>)
    ensures
        ops@ == line_diff_ops(old@, new@),
        ops_tile(ops@, split_lines(old@).len(), split_lines(new@).len()),
        equal_runs_match(ops@, split_lines(old@), split_lines(new@)),
{
    let convert = |op: &DiffOp| {
        let (tag, o, n) = op.as_tag_tuple();
        let tag = match tag {
            DiffTag::Equal => OpTag::Equal, DiffTag::Delete => OpTag::Delete,
            DiffTag::Insert => OpTag::Insert, DiffTag::Replace => OpTag::Replace,
        };
        LineOp { tag, old_index: o.start, old_len: o.len(), new_index: n.start, new_len: n.len() }
    };
    TextDiff::from_lines(old, new).ops().iter().map(convert).collect()
}

/// `DiffableStr::tokenize_lines` (the cut `TextDiff::from_lines` makes), each line as a
/// string. Claimed, as the source shows: lines end after `\r\n`, `\r` or `\n`, a last line
/// without a break is kept, and an empty text has none.
#[verifier::external_body]
fn text_lines(s: &str) -> (lines: Vec<String>)
    ensures
        string_views(lines@) == split_lines(s@),
{
    s.tokenize_lines().into_iter().map(|l| l.to_owned()).collect()
}

/// The line diff between `old` and `new`: both texts cut into lines, and the ops.
pub fn diff_lines(old: &str, new: &str) -> (d: LineDiff)
    ensures
        d.ops@ == line_diff_ops(old@, new@),
        string_views(d.old_lines@) == split_lines(old@),
        string_views(d.new_lines@) == split_lines(new@),
        ops_tile(d.ops@, d.old_lines@.len(), d.new_lines@.len()),
        equal_runs_match(d.ops@, split_lines(old@), split_lines(new@)),
{
    let old_lines = text_lines(old);
    let new_lines = text_lines(new);
    let ops = line_ops(old, new);
    assert(old_lines@.len() == string_views(old_lines@).len());
    assert(new_lines@.len() == string_views(new_lines@).len());
    LineDiff { old_lines, new_lines, ops }
}

} // verus!
