//! Document model: the source text split into top-level blocks with byte ranges.

use std::ops::Range;
use vstd::prelude::*;
use vstd::utf8::*;
use vstd::string::StringSliceAdditionalSpecFns;

use crate::hunk::{hunk_counts, hunk_header, lemma_hunk_header_starts_with_at, skip_white, unicode_white_space};
use crate::text::{
    bytes_match_at, has_prefix, is_newline_byte, lemma_boundary_in_prefix, lemma_line_boundaries,
    lemma_line_end, line_end,
};

verus! {

/// What a top-level block is, as far as rendering needs to know.
#[derive(Debug, Clone, Copy, PartialEq, Eq, Structural)]
pub enum BlockKind {
    Heading,
    Paragraph,
    List,
    CodeBlock,
    BlockQuote,
    Table,
    Rule,
    Html,
    /// YAML front matter; parsed for correct boundaries but never shown.
    Metadata,
    /// A unified-diff file header (`diff --git …` up to the first hunk).
    DiffFileHeader,
    /// One hunk of a unified diff: the `@@ … @@` line plus its body lines.
    DiffHunk,
    Other,
}

impl BlockKind {
    /// Code, tables and diff text keep their columns; everything else word-wraps.
    pub fn preserves_columns(self) -> (r: bool)
        ensures
            r <==> (self is CodeBlock || self is Table || self is DiffFileHeader
                || self is DiffHunk),
    {
        match self {
            BlockKind::CodeBlock | BlockKind::Table | BlockKind::DiffFileHeader
            | BlockKind::DiffHunk => true,
            _ => false,
        }
    }

    /// Rendered by the diff renderer, not by the markdown renderer.
    pub fn is_diff(self) -> (r: bool)
        ensures
            r <==> (self is DiffFileHeader || self is DiffHunk),
    {
        match self {
            BlockKind::DiffFileHeader | BlockKind::DiffHunk => true,
            _ => false,
        }
    }
}

} // verus!

verus! {

/// A top-level block: its byte range in the source and what it is.
#[derive(Debug)]
pub struct Block {
    pub range: Range<usize>,
    pub kind: BlockKind,
}

impl Clone for Block {
    fn clone(&self) -> (r: Self)
        ensures
            r == *self,
    {
        Block { range: Range { start: self.range.start, end: self.range.end }, kind: self.kind }
    }
}

/// Bytes of `s` as UTF-8.
pub open spec fn utf8_bytes(s: Seq<char>) -> Seq<u8> {
    encode_utf8(s)
}

/// `start..end` with trailing `\n`/`\r` bytes of `b` removed from the end, never past `start`.
pub open spec fn trim_newlines_end(b: Seq<u8>, start: int, end: int) -> int
    decreases end - start,
{
    if start < end && end <= b.len() && (b[end - 1] == 10u8 || b[end - 1] == 13u8) {
        trim_newlines_end(b, start, end - 1)
    } else {
        end
    }
}

/// A block with trailing newline bytes dropped from its range.
pub open spec fn trimmed(b: Seq<u8>, blk: Block) -> Block {
    Block {
        range: Range {
            start: blk.range.start,
            end: trim_newlines_end(b, blk.range.start as int, blk.range.end as int) as usize,
        },
        kind: blk.kind,
    }
}

/// Whether a trimmed block stays: it is non-empty, and (when asked) not front matter.
pub open spec fn kept(blk: Block, drop_metadata: bool) -> bool {
    blk.range.start < blk.range.end && !(drop_metadata && blk.kind is Metadata)
}

/// Raw blocks with trailing newlines trimmed, then empty blocks (and, when asked, front
/// matter) dropped, in order.
pub open spec fn finished_blocks(b: Seq<u8>, raw: Seq<Block>, drop_metadata: bool) -> Seq<Block>
    decreases raw.len(),
{
    if raw.len() == 0 {
        seq![]
    } else {
        let prev = finished_blocks(b, raw.drop_last(), drop_metadata);
        let t = trimmed(b, raw.last());
        if kept(t, drop_metadata) {
            prev.push(t)
        } else {
            prev
        }
    }
}

/// A diff kind: drawn by the diff renderer.
pub open spec fn is_diff_kind(k: BlockKind) -> bool {
    k is DiffFileHeader || k is DiffHunk
}

/// Finishing keeps each block's kind: no diff kind appears unless a raw block has one,
/// and front matter is gone when it is dropped.
pub proof fn lemma_finished_kinds(b: Seq<u8>, raw: Seq<Block>, drop_metadata: bool)
    ensures
        (forall|j: int| 0 <= j < raw.len() ==> !is_diff_kind(#[trigger] raw[j].kind)) ==> forall|
            k: int,
        |
            0 <= k < finished_blocks(b, raw, drop_metadata).len() ==> !is_diff_kind(
                #[trigger] finished_blocks(b, raw, drop_metadata)[k].kind,
            ),
        drop_metadata ==> forall|k: int|
            0 <= k < finished_blocks(b, raw, drop_metadata).len() ==> !((#[trigger] finished_blocks(
                b,
                raw,
                drop_metadata,
            )[k]).kind is Metadata),
    decreases raw.len(),
{
    if raw.len() > 0 {
        let prefix = raw.drop_last();
        lemma_finished_kinds(b, prefix, drop_metadata);
        if forall|j: int| 0 <= j < raw.len() ==> !is_diff_kind(#[trigger] raw[j].kind) {
            assert forall|j: int| 0 <= j < prefix.len() implies !is_diff_kind(
                #[trigger] prefix[j].kind,
            ) by {
                assert(prefix[j] == raw[j]);
            }
            assert(!is_diff_kind(raw[raw.len() - 1].kind));
        }
    }
}

/// Trimming takes off trailing newline bytes and nothing else: the trimmed range stays
/// inside the original, no longer ends in a newline byte, and every byte cut off is one.
pub proof fn lemma_trim_newlines_end(b: Seq<u8>, start: int, end: int)
    requires
        0 <= start <= end <= b.len(),
    ensures
        start <= trim_newlines_end(b, start, end) <= end,
        trim_newlines_end(b, start, end) < end ==> (b[trim_newlines_end(b, start, end)] == 10u8
            || b[trim_newlines_end(b, start, end)] == 13u8),
        trim_newlines_end(b, start, end) > start ==> !(b[trim_newlines_end(b, start, end) - 1]
            == 10u8 || b[trim_newlines_end(b, start, end) - 1] == 13u8),
        forall|j: int|
            trim_newlines_end(b, start, end) <= j < end ==> (#[trigger] b[j] == 10u8 || b[j] == 13u8),
    decreases end - start,
{
    if start < end && (b[end - 1] == 10u8 || b[end - 1] == 13u8) {
        lemma_trim_newlines_end(b, start, end - 1);
    }
}

/// Exec form of `trim_newlines_end`.
fn trim_end_index(b: &[u8], start: usize, end: usize) -> (r: usize)
    requires
        start <= end <= b@.len(),
    ensures
        r == trim_newlines_end(b@, start as int, end as int),
{
    let mut e = end;
    while e > start && (b[e - 1] == 10u8 || b[e - 1] == 13u8)
        invariant
            start <= e <= end <= b@.len(),
            trim_newlines_end(b@, start as int, end as int) == trim_newlines_end(
                b@,
                start as int,
                e as int,
            ),
        decreases e,
    {
        e = e - 1;
    }
    e
}

/// Trim trailing newlines off each block and keep the non-empty ones (and, when asked,
/// the ones that are not front matter).
pub fn finish_blocks(b: &[u8], raw: Vec<Block>, drop_metadata: bool) -> (out: Vec<Block>)
    requires
        forall|k: int|
            0 <= k < raw@.len() ==> (#[trigger] raw@[k]).range.start <= raw@[k].range.end
                <= b@.len(),
    ensures
        out@ == finished_blocks(b@, raw@, drop_metadata),
{
    let mut out: Vec<Block> = Vec::new();
    let mut i: usize = 0;
    while i < raw.len()
        invariant
            i <= raw@.len(),
            forall|k: int|
                0 <= k < raw@.len() ==> (#[trigger] raw@[k]).range.start <= raw@[k].range.end
                    <= b@.len(),
            out@ == finished_blocks(b@, raw@.take(i as int), drop_metadata),
        decreases raw@.len() - i,
    {
        let blk = &raw[i];
        let end = trim_end_index(b, blk.range.start, blk.range.end);
        let t = Block { range: Range { start: blk.range.start, end }, kind: blk.kind };
        proof {
            assert(raw@.take(i + 1).drop_last() =~= raw@.take(i as int));
            assert(raw@.take(i + 1).last() == raw@[i as int]);
            assert(t == trimmed(b@, raw@[i as int]));
        }
        if t.range.start < t.range.end && !(drop_metadata && t.kind == BlockKind::Metadata) {
            out.push(t);
        }
        i = i + 1;
    }
    assert(raw@.take(raw@.len() as int) =~= raw@);
    out
}

} // verus!

verus! {

/// `diff --git `
pub open spec fn diff_git_marker() -> Seq<u8> {
    seq![100u8, 105, 102, 102, 32, 45, 45, 103, 105, 116, 32]
}

/// `Index: `
pub open spec fn index_marker() -> Seq<u8> {
    seq![73u8, 110, 100, 101, 120, 58, 32]
}

/// `--- `
pub open spec fn old_file_marker() -> Seq<u8> {
    seq![45u8, 45, 45, 32]
}

/// `+++ `
pub open spec fn new_file_marker() -> Seq<u8> {
    seq![43u8, 43, 43, 32]
}

/// Where the diff scan stands after some lines: the blocks closed so far, the block still
/// open (its start and kind), and the body lines still owed to the current hunk.
pub struct DiffScan {
    pub blocks: Seq<Block>,
    pub open: Option<(usize, BlockKind)>,
    pub hunk: Option<(usize, usize)>,
}

/// The closed blocks after closing the open one (if any) at byte `at`.
pub open spec fn close_open(st: DiffScan, at: usize) -> Seq<Block> {
    match st.open {
        Some((from, kind)) => st.blocks.push(Block { range: Range { start: from, end: at }, kind }),
        None => st.blocks,
    }
}

/// Body lines still owed after a hunk line starting with `first` (its first byte, if any).
pub open spec fn consume_hunk_line(old: usize, new: usize, first: Option<u8>) -> (usize, usize) {
    let dec_old = if old > 0 { (old - 1) as usize } else { 0 };
    let dec_new = if new > 0 { (new - 1) as usize } else { 0 };
    match first {
        Some(c) => if c == 45u8 {
            (dec_old, new)
        } else if c == 43u8 {
            (old, dec_new)
        } else if c == 92u8 {
            (old, new)
        } else {
            (dec_old, dec_new)
        },
        None => (dec_old, dec_new),
    }
}

/// The line at `pos` opens a file section: `diff --git `, `Index: `, or a `--- ` line
/// followed by a `+++ ` line while no file header is open.
pub open spec fn starts_file_section(b: Seq<u8>, pos: int, st: DiffScan) -> bool {
    let e = line_end(b, pos);
    ||| has_prefix(b, pos, diff_git_marker())
    ||| has_prefix(b, pos, index_marker())
    ||| (has_prefix(b, pos, old_file_marker()) && !(st.open matches Some((_, k)) && k
        is DiffFileHeader) && e < b.len() && has_prefix(b, e + 1, new_file_marker()))
}

/// The characters of bytes `start..end`.
pub open spec fn chars_between(b: Seq<u8>, start: int, end: int) -> Seq<char> {
    decode_utf8(b.subrange(start, end))
}

/// The open hunk still owes body lines.
pub open spec fn hunk_owes_lines(hunk: Option<(usize, usize)>) -> bool {
    match hunk {
        Some((old, new)) => old > 0 || new > 0,
        None => false,
    }
}

/// One line of the diff scan: the line at byte `pos`.
pub open spec fn diff_step(b: Seq<u8>, pos: int, st: DiffScan) -> DiffScan {
    let e = line_end(b, pos);
    if hunk_owes_lines(st.hunk) {
        let (old, new) = st.hunk.unwrap();
        let first = if pos < e {
            Some(b[pos])
        } else {
            None
        };
        DiffScan { hunk: Some(consume_hunk_line(old, new, first)), ..st }
    } else {
        match hunk_counts(chars_between(b, pos, e)) {
            Some((old, new)) => DiffScan {
                blocks: close_open(st, pos as usize),
                open: Some((pos as usize, BlockKind::DiffHunk)),
                hunk: Some((old, new)),
            },
            None => if starts_file_section(b, pos, st) {
                DiffScan {
                    blocks: close_open(st, pos as usize),
                    open: Some((pos as usize, BlockKind::DiffFileHeader)),
                    hunk: st.hunk,
                }
            } else if st.open is None {
                DiffScan { open: Some((pos as usize, BlockKind::DiffFileHeader)), ..st }
            } else {
                st
            },
        }
    }
}

/// The diff scan over every line from byte `pos` on.
pub open spec fn diff_scan(b: Seq<u8>, pos: nat, st: DiffScan) -> DiffScan
    decreases b.len() - pos,
{
    if pos > b.len() {
        st
    } else {
        let next = diff_step(b, pos as int, st);
        let e = line_end(b, pos as int);
        if e < b.len() {
            proof {
                lemma_line_end(b, pos as int);
            }
            diff_scan(b, (e + 1) as nat, next)
        } else {
            next
        }
    }
}

/// The raw blocks of a unified diff: file headers and hunks, cut at line starts; lines
/// before the first recognized header join the first header block.
pub open spec fn diff_blocks(b: Seq<u8>) -> Seq<Block> {
    let st = diff_scan(b, 0, DiffScan { blocks: seq![], open: None, hunk: None });
    close_open(st, b.len() as usize)
}

/// Exec state of the diff scan.
struct DiffCursor {
    blocks: Vec<Block>,
    open: Option<(usize, BlockKind)>,
    hunk: Option<(usize, usize)>,
}

impl DiffCursor {
    spec fn scan(&self) -> DiffScan {
        DiffScan { blocks: self.blocks@, open: self.open, hunk: self.hunk }
    }

    fn close(&mut self, at: usize)
        ensures
            final(self).blocks@ == close_open(old(self).scan(), at),
            final(self).open == old(self).open,
            final(self).hunk == old(self).hunk,
    {
        if let Some((from, kind)) = self.open {
            self.blocks.push(Block { range: Range { start: from, end: at }, kind });
        }
    }
}

fn marker_diff_git() -> (r: [u8; 11])
    ensures
        r@ == diff_git_marker(),
{
    [100u8, 105, 102, 102, 32, 45, 45, 103, 105, 116, 32]
}

fn marker_index() -> (r: [u8; 7])
    ensures
        r@ == index_marker(),
{
    [73u8, 110, 100, 101, 120, 58, 32]
}

fn marker_old_file() -> (r: [u8; 4])
    ensures
        r@ == old_file_marker(),
{
    [45u8, 45, 45, 32]
}

fn marker_new_file() -> (r: [u8; 4])
    ensures
        r@ == new_file_marker(),
{
    [43u8, 43, 43, 32]
}

/// Cut a unified diff into blocks by walking its lines with their byte offsets. Inside a
/// hunk, the old/new line counts from the `@@` header say how many body lines still
/// belong to it, so body text that looks like a header cannot split a hunk.
pub fn split_diff_blocks(source: &str) -> (blocks: Vec<Block>)
    ensures
        blocks@ == diff_blocks(utf8_bytes(source@)),
{
    let b = source.as_bytes();
    let ghost bs = b@;
    proof {
        encode_utf8_valid_utf8(source@);
    }
    assert(bs == utf8_bytes(source@));
    let ghost init = DiffScan { blocks: seq![], open: None, hunk: None };
    let mut cur = DiffCursor { blocks: Vec::new(), open: None, hunk: None };
    let mut pos: usize = 0;
    let git = marker_diff_git();
    let index = marker_index();
    let old_file = marker_old_file();
    let new_file = marker_new_file();
    loop
        invariant_except_break
            pos <= bs.len(),
            pos == 0 || is_newline_byte(bs[pos - 1]),
            diff_scan(bs, pos as nat, cur.scan()) == diff_scan(bs, 0, init),
        invariant
            b@ == bs,
            bs == source.spec_bytes(),
            valid_utf8(bs),
            git@ == diff_git_marker(),
            index@ == index_marker(),
            old_file@ == old_file_marker(),
            new_file@ == new_file_marker(),
        ensures
            cur.scan() == diff_scan(bs, 0, init),
        decreases bs.len() - pos,
    {
        let e = crate::text::find_line_end(b, pos);
        proof {
            lemma_line_end(bs, pos as int);
            lemma_line_boundaries(bs, pos as int);
        }
        let ghost before = cur.scan();
        let mut consumed = false;
        if let Some((old, new)) = cur.hunk {
            if old > 0 || new > 0 {
                let first = if pos < e {
                    Some(b[pos])
                } else {
                    None
                };
                let dec_old = if old > 0 {
                    old - 1
                } else {
                    0
                };
                let dec_new = if new > 0 {
                    new - 1
                } else {
                    0
                };
                let next = match first {
                    Some(c) => if c == 45u8 {
                        (dec_old, new)
                    } else if c == 43u8 {
                        (old, dec_new)
                    } else if c == 92u8 {
                        (old, new)
                    } else {
                        (dec_old, dec_new)
                    },
                    None => (dec_old, dec_new),
                };
                cur.hunk = Some(next);
                consumed = true;
            }
        }
        if !consumed {
            let line = crate::text::sub_str(source, pos, e);
            let header = hunk_header(line);
            let file_start = bytes_match_at(b, pos, git.as_slice()) || bytes_match_at(
                b,
                pos,
                index.as_slice(),
            ) || (bytes_match_at(b, pos, old_file.as_slice()) && !matches!(
                cur.open,
                Some((_, BlockKind::DiffFileHeader))
            ) && e < b.len() && bytes_match_at(b, e + 1, new_file.as_slice()));
            assert(file_start == starts_file_section(bs, pos as int, before));
            match header {
                Some((old, new)) => {
                    cur.close(pos);
                    cur.open = Some((pos, BlockKind::DiffHunk));
                    cur.hunk = Some((old, new));
                },
                None => {
                    if file_start {
                        cur.close(pos);
                        cur.open = Some((pos, BlockKind::DiffFileHeader));
                    } else if cur.open.is_none() {
                        cur.open = Some((pos, BlockKind::DiffFileHeader));
                    }
                },
            }
        }
        assert(cur.scan() == diff_step(bs, pos as int, before));
        if e < b.len() {
            pos = e + 1;
        } else {
            break;
        }
    }
    cur.close(b.len());
    cur.blocks
}

} // verus!

verus! {

/// `p` starts a line of `b`: the start of the text or just after a `\n`.
pub open spec fn is_line_start(b: Seq<u8>, p: int) -> bool {
    p == 0 || (0 < p <= b.len() && is_newline_byte(b[p - 1]))
}

/// A raw block from the diff scan: cut at line starts (or the end of the text).
pub open spec fn cut_at_lines(b: Seq<u8>, blk: Block) -> bool {
    &&& blk.range.start <= blk.range.end <= b.len()
    &&& is_line_start(b, blk.range.start as int)
    &&& (is_line_start(b, blk.range.end as int) || blk.range.end == b.len())
}

/// What the diff scan keeps true up to byte `pos`.
pub open spec fn scan_cut_at_lines(b: Seq<u8>, st: DiffScan, pos: int) -> bool {
    &&& forall|k: int|
        0 <= k < st.blocks.len() ==> cut_at_lines(b, #[trigger] st.blocks[k])
            && st.blocks[k].range.end <= pos
    &&& (st.open matches Some((from, _)) ==> is_line_start(b, from as int) && from <= pos)
}

proof fn lemma_close_open_cuts(b: Seq<u8>, st: DiffScan, at: usize)
    requires
        at <= b.len(),
        is_line_start(b, at as int) || at == b.len(),
        scan_cut_at_lines(b, st, at as int),
    ensures
        forall|k: int|
            0 <= k < close_open(st, at).len() ==> cut_at_lines(b, #[trigger] close_open(st, at)[k])
                && close_open(st, at)[k].range.end <= at,
{
    let c = close_open(st, at);
    assert forall|k: int| 0 <= k < c.len() implies cut_at_lines(b, #[trigger] c[k]) && c[k].range.end
        <= at by {
        if k < st.blocks.len() {
            assert(c[k] == st.blocks[k]);
        }
    }
}

proof fn lemma_diff_scan_cuts(b: Seq<u8>, pos: nat, st: DiffScan)
    requires
        b.len() <= usize::MAX,
        pos <= b.len(),
        is_line_start(b, pos as int),
        scan_cut_at_lines(b, st, pos as int),
    ensures
        scan_cut_at_lines(b, diff_scan(b, pos, st), b.len() as int),
    decreases b.len() - pos,
{
    lemma_line_end(b, pos as int);
    let next = diff_step(b, pos as int, st);
    let e = line_end(b, pos as int);
    lemma_close_open_cuts(b, st, pos as usize);
    assert(scan_cut_at_lines(b, next, pos as int));
    if e < b.len() {
        assert(scan_cut_at_lines(b, next, e + 1));
        lemma_diff_scan_cuts(b, (e + 1) as nat, next);
    }
}

proof fn lemma_diff_blocks_cut_at_lines(b: Seq<u8>)
    requires
        b.len() <= usize::MAX,
    ensures
        forall|k: int|
            0 <= k < diff_blocks(b).len() ==> cut_at_lines(b, #[trigger] diff_blocks(b)[k]),
{
    let init = DiffScan { blocks: seq![], open: None, hunk: None };
    lemma_diff_scan_cuts(b, 0, init);
    let st = diff_scan(b, 0, init);
    lemma_close_open_cuts(b, st, b.len() as usize);
}

/// `blocks` cover bytes `0..end` back to back, in order.
pub open spec fn tiles_prefix(blocks: Seq<Block>, end: int) -> bool {
    &&& blocks.len() == 0 ==> end == 0
    &&& blocks.len() > 0 ==> blocks[0].range.start == 0 && blocks.last().range.end == end
    &&& forall|k: int|
        0 <= k < blocks.len() - 1 ==> #[trigger] blocks[k].range.end == blocks[k + 1].range.start
}

/// The closed blocks of a scan cover everything before its open block (nothing is open
/// only before the first line).
pub open spec fn scan_tiles(st: DiffScan, pos: int) -> bool {
    match st.open {
        None => st.blocks.len() == 0 && pos == 0 && st.hunk is None,
        Some((from, _)) => tiles_prefix(st.blocks, from as int) && from <= pos,
    }
}

proof fn lemma_close_open_tiles(st: DiffScan, at: usize)
    requires
        scan_tiles(st, at as int),
        st.open is Some,
    ensures
        tiles_prefix(close_open(st, at), at as int),
{
    let c = close_open(st, at);
    assert forall|k: int| 0 <= k < c.len() - 1 implies #[trigger] c[k].range.end == c[k + 1].range.start by {
        if k < st.blocks.len() - 1 {
            assert(c[k] == st.blocks[k] && c[k + 1] == st.blocks[k + 1]);
        }
    }
}

proof fn lemma_diff_scan_tiles(b: Seq<u8>, pos: nat, st: DiffScan)
    requires
        b.len() <= usize::MAX,
        pos <= b.len(),
        scan_tiles(st, pos as int),
    ensures
        scan_tiles(diff_scan(b, pos, st), b.len() as int),
        diff_scan(b, pos, st).open is Some,
    decreases b.len() - pos,
{
    lemma_line_end(b, pos as int);
    let next = diff_step(b, pos as int, st);
    let e = line_end(b, pos as int);
    if st.open is Some {
        lemma_close_open_tiles(st, pos as usize);
    }
    assert(next.open is Some);
    assert(scan_tiles(next, pos as int));
    if e < b.len() {
        assert(scan_tiles(next, e + 1));
        lemma_diff_scan_tiles(b, (e + 1) as nat, next);
    }
}

/// The raw blocks of a diff cover the whole text back to back, in order: every line,
/// including lines before the first recognized header, belongs to exactly one block.
pub proof fn lemma_diff_blocks_tile(b: Seq<u8>)
    requires
        b.len() <= usize::MAX,
    ensures
        diff_blocks(b).len() > 0,
        tiles_prefix(diff_blocks(b), b.len() as int),
{
    let init = DiffScan { blocks: seq![], open: None, hunk: None };
    lemma_diff_scan_tiles(b, 0, init);
    let st = diff_scan(b, 0, init);
    lemma_close_open_tiles(st, b.len() as usize);
}

/// Each block ends no later than the next one starts.
pub open spec fn in_order(blocks: Seq<Block>) -> bool {
    forall|k: int|
        0 <= k < blocks.len() - 1 ==> #[trigger] blocks[k].range.end <= blocks[k + 1].range.start
}

pub proof fn lemma_finished_in_order(b: Seq<u8>, raw: Seq<Block>, drop_metadata: bool)
    requires
        in_order(raw),
        forall|k: int| 0 <= k < raw.len() ==> (#[trigger] raw[k]).range.start <= raw[k].range.end <= b.len(),
    ensures
        in_order(finished_blocks(b, raw, drop_metadata)),
        raw.len() > 0 ==> forall|k: int|
            0 <= k < finished_blocks(b, raw, drop_metadata).len() ==> (#[trigger] finished_blocks(
                b,
                raw,
                drop_metadata,
            )[k]).range.end <= raw.last().range.end,
    decreases raw.len(),
{
    if raw.len() > 0 {
        let last = raw.last();
        let prefix = raw.drop_last();
        assert(raw[raw.len() - 1] == last);
        assert forall|k: int| 0 <= k < prefix.len() implies (#[trigger] prefix[k]).range.start
            <= prefix[k].range.end <= b.len() by {
            assert(prefix[k] == raw[k]);
        }
        assert forall|k: int| 0 <= k < prefix.len() - 1 implies #[trigger] prefix[k].range.end
            <= prefix[k + 1].range.start by {
            assert(prefix[k] == raw[k] && prefix[k + 1] == raw[k + 1]);
        }
        lemma_finished_in_order(b, prefix, drop_metadata);
        lemma_trim_newlines_end(b, last.range.start as int, last.range.end as int);
        let prev = finished_blocks(b, prefix, drop_metadata);
        let out = finished_blocks(b, raw, drop_metadata);
        if prefix.len() > 0 {
            assert(raw[raw.len() - 2] == prefix.last());
            assert(prefix.last().range.end <= last.range.start);
        }
        assert forall|k: int| 0 <= k < out.len() implies (#[trigger] out[k]).range.end
            <= last.range.end by {
            if k < prev.len() {
                assert(out[k] == prev[k]);
                assert(prefix.len() > 0);
            }
        }
        assert forall|k: int| 0 <= k < out.len() - 1 implies #[trigger] out[k].range.end
            <= out[k + 1].range.start by {
            if k + 1 < prev.len() {
                assert(out[k] == prev[k] && out[k + 1] == prev[k + 1]);
            } else {
                assert(out[k] == prev[k]);
                assert(prefix.len() > 0);
            }
        }
    }
}

/// While a hunk still owes body lines, a line never closes or opens a block, whatever
/// it looks like (a removed line reading `--- x` stays in its hunk).
pub proof fn lemma_hunk_body_never_splits(b: Seq<u8>, pos: int, st: DiffScan)
    requires
        hunk_owes_lines(st.hunk),
    ensures
        diff_step(b, pos, st).blocks == st.blocks,
        diff_step(b, pos, st).open == st.open,
{
}

/// A line whose first byte is an ASCII character other than blank space and `@` is no
/// hunk header.
proof fn lemma_line_not_hunk(b: Seq<u8>, pos: int)
    requires
        valid_utf8(b),
        is_line_start(b, pos),
        pos < line_end(b, pos),
        b[pos] < 0x80u8,
        b[pos] != 64u8,
        b[pos] != 32u8,
        !(9u8 <= b[pos] <= 13u8),
    ensures
        hunk_counts(chars_between(b, pos, line_end(b, pos))) is None,
{
    let e = line_end(b, pos);
    lemma_line_end(b, pos);
    lemma_line_boundaries(b, pos);
    let s = b.subrange(pos, e);
    lemma_boundary_in_prefix(b, pos, e);
    let pre = b.subrange(0, e);
    valid_utf8_split(pre, pos);
    assert(pre.subrange(pos, pre.len() as int) =~= s);
    let x = s[0];
    assert(x == b[pos]);
    assert((x & 0x7Fu8) == x) by (bit_vector)
        requires
            x < 0x80u8,
    ;
    let t = decode_utf8(s);
    assert(t[0] as u32 == x as u32);
    if hunk_counts(t) is Some {
        lemma_hunk_header_starts_with_at(t);
        assert(!unicode_white_space(t[0]));
        assert(skip_white(t, 0) == 0);
    }
}

/// A line that starts with `diff --git ` or `Index: ` opens a file section.
proof fn lemma_file_marker_line(b: Seq<u8>, pos: int, st: DiffScan)
    requires
        valid_utf8(b),
        is_line_start(b, pos),
        has_prefix(b, pos, diff_git_marker()) || has_prefix(b, pos, index_marker()),
    ensures
        hunk_counts(chars_between(b, pos, line_end(b, pos))) is None,
        starts_file_section(b, pos, st),
{
    lemma_line_end(b, pos);
    let e = line_end(b, pos);
    if has_prefix(b, pos, diff_git_marker()) {
        assert(b[pos] == 100u8) by {
            assert(b.subrange(pos, pos + 11)[0] == b[pos]);
        }
    } else {
        assert(b[pos] == 73u8) by {
            assert(b.subrange(pos, pos + 7)[0] == b[pos]);
        }
    }
    if e <= pos {
        assert(is_newline_byte(b[e]));
    }
    lemma_line_not_hunk(b, pos);
}

/// The block open at some point of the scan is the next block the finished scan closes:
/// the blocks closed so far stay as they are, and the next one starts where the open
/// block started and has its kind.
proof fn lemma_open_block_closes(b: Seq<u8>, pos: nat, st: DiffScan)
    requires
        b.len() <= usize::MAX,
        st.open is Some,
    ensures
        ({
            let fin = close_open(diff_scan(b, pos, st), b.len() as usize);
            &&& fin.len() > st.blocks.len()
            &&& fin.subrange(0, st.blocks.len() as int) == st.blocks
            &&& fin[st.blocks.len() as int].range.start == st.open.unwrap().0
            &&& fin[st.blocks.len() as int].kind == st.open.unwrap().1
        }),
    decreases b.len() - pos,
{
    let n = st.blocks.len() as int;
    let fin = close_open(diff_scan(b, pos, st), b.len() as usize);
    if pos > b.len() {
        assert(fin.subrange(0, n) =~= st.blocks);
    } else {
        lemma_line_end(b, pos as int);
        let next = diff_step(b, pos as int, st);
        let e = line_end(b, pos as int);
        assert(next.open is Some);
        if e < b.len() {
            lemma_open_block_closes(b, (e + 1) as nat, next);
        } else {
            assert(fin == close_open(next, b.len() as usize));
        }
        let m = next.blocks.len() as int;
        if next.blocks == st.blocks {
            assert(next.open == st.open);
            assert(fin.subrange(0, n) =~= st.blocks);
        } else {
            assert(next.blocks == close_open(st, pos as usize));
            assert(fin.subrange(0, m) == next.blocks);
            assert(fin[n] == fin.subrange(0, m)[n]);
            assert(fin.subrange(0, n) =~= fin.subrange(0, m).subrange(0, n));
            assert(next.blocks.subrange(0, n) =~= st.blocks);
        }
    }
}

/// A `diff --git ` or `Index: ` line that no hunk body is owed starts a file-header block
/// of its own, whatever the scan stands in: the block open before it closes at that line,
/// and the finished scan's next block is a `DiffFileHeader` starting at the line's first
/// byte.
pub proof fn lemma_file_marker_starts_file_header(b: Seq<u8>, pos: nat, st: DiffScan)
    requires
        b.len() <= usize::MAX,
        valid_utf8(b),
        is_line_start(b, pos as int),
        has_prefix(b, pos as int, diff_git_marker()) || has_prefix(b, pos as int, index_marker()),
        !hunk_owes_lines(st.hunk),
    ensures
        ({
            let before = close_open(st, pos as usize);
            let fin = close_open(diff_scan(b, pos, st), b.len() as usize);
            &&& fin.len() > before.len()
            &&& fin.subrange(0, before.len() as int) == before
            &&& fin[before.len() as int].range.start == pos
            &&& fin[before.len() as int].kind is DiffFileHeader
        }),
{
    lemma_file_marker_line(b, pos as int, st);
    lemma_line_end(b, pos as int);
    let next = diff_step(b, pos as int, st);
    assert(next.blocks == close_open(st, pos as usize));
    assert(next.open == Some((pos as usize, BlockKind::DiffFileHeader)));
    let e = line_end(b, pos as int);
    if e < b.len() {
        lemma_open_block_closes(b, (e + 1) as nat, next);
    } else {
        lemma_open_block_closes(b, (b.len() + 1) as nat, next);
    }
}

/// How a line inside a hunk body settles what the hunk still owes: a `-` line takes one
/// old line, a `+` line one new line, a `\` note (no newline at end of file) takes
/// nothing, and any other line (context) one of each. A context line, and a `-` or `+`
/// line while lines of its side are owed, brings the hunk nearer its end.
pub proof fn lemma_hunk_line_consumption(b: Seq<u8>, pos: int, st: DiffScan)
    requires
        0 <= pos <= b.len(),
        hunk_owes_lines(st.hunk),
    ensures
        ({
            let (old, new) = st.hunk.unwrap();
            let after = diff_step(b, pos, st).hunk.unwrap();
            let first_is = |c: u8| pos < line_end(b, pos) && b[pos] == c;
            &&& diff_step(b, pos, st).hunk is Some
            &&& first_is(92u8) ==> after == (old, new)
            &&& first_is(45u8) ==> after.0 == old - 1 || (old == 0 && after.0 == 0)
            &&& first_is(45u8) ==> after.1 == new
            &&& first_is(43u8) ==> after.0 == old
            &&& first_is(43u8) ==> after.1 == new - 1 || (new == 0 && after.1 == 0)
            &&& !first_is(92u8) && !first_is(45u8) && !first_is(43u8) ==> (after.0 == old - 1 || (
            old == 0 && after.0 == 0)) && (after.1 == new - 1 || (new == 0 && after.1 == 0))
            &&& (first_is(45u8) && old > 0) || (first_is(43u8) && new > 0) || (!first_is(92u8)
                && !first_is(45u8) && !first_is(43u8)) ==> after.0 + after.1 < old + new
        }),
{
}

/// A block of a well-formed document: non-empty, inside the text, both ends on character
/// boundaries, and not ending in a newline byte.
pub open spec fn block_fits(b: Seq<u8>, blk: Block) -> bool {
    &&& blk.range.start < blk.range.end <= b.len()
    &&& is_char_boundary(b, blk.range.start as int)
    &&& is_char_boundary(b, blk.range.end as int)
    &&& !(b[blk.range.end - 1] == 10u8 || b[blk.range.end - 1] == 13u8)
}

/// A raw block whose ends sit on character boundaries.
pub open spec fn raw_fits(b: Seq<u8>, blk: Block) -> bool {
    &&& blk.range.start <= blk.range.end <= b.len()
    &&& is_char_boundary(b, blk.range.start as int)
    &&& is_char_boundary(b, blk.range.end as int)
}

pub proof fn lemma_finished_fit(b: Seq<u8>, raw: Seq<Block>, drop_metadata: bool)
    requires
        valid_utf8(b),
        forall|k: int| 0 <= k < raw.len() ==> raw_fits(b, #[trigger] raw[k]),
    ensures
        forall|k: int|
            0 <= k < finished_blocks(b, raw, drop_metadata).len() ==> block_fits(
                b,
                #[trigger] finished_blocks(b, raw, drop_metadata)[k],
            ),
    decreases raw.len(),
{
    if raw.len() > 0 {
        let last = raw.last();
        assert(raw_fits(b, raw[raw.len() - 1]));
        lemma_finished_fit(b, raw.drop_last(), drop_metadata);
        lemma_trim_newlines_end(b, last.range.start as int, last.range.end as int);
        let t = trim_newlines_end(b, last.range.start as int, last.range.end as int);
        if t < last.range.end {
            is_char_boundary_iff_not_is_continuation_byte(b, t);
        }
        let prev = finished_blocks(b, raw.drop_last(), drop_metadata);
        let out = finished_blocks(b, raw, drop_metadata);
        assert forall|k: int| 0 <= k < out.len() implies block_fits(b, #[trigger] out[k]) by {
            if k < prev.len() {
                assert(out[k] == prev[k]);
            } else {
                assert(out[k] == trimmed(b, last));
            }
        }
    }
}

/// The source text split into top-level blocks with byte ranges.
#[derive(Debug)]
pub struct Document {
    pub source: String,
    pub blocks: Vec<Block>,
}

impl Document {
    /// The source as UTF-8 bytes: what block ranges index.
    pub open spec fn bytes(&self) -> Seq<u8> {
        utf8_bytes(self.source@)
    }

    /// Every block is non-empty, inside the source, cut at character boundaries, and
    /// free of trailing newlines.
    pub open spec fn wf(&self) -> bool {
        forall|k: int| 0 <= k < self.blocks@.len() ==> block_fits(self.bytes(), #[trigger] self.blocks@[k])
    }

    /// Split a unified diff into file-header and hunk blocks. One block per hunk; lines
    /// before the first header join the first header block. Trailing newlines are not
    /// part of a block, and empty blocks are dropped.
    pub fn parse_diff(source: String) -> (d: Self)
        ensures
            d.source == source,
            d.blocks@ == finished_blocks(
                utf8_bytes(source@),
                diff_blocks(utf8_bytes(source@)),
                false,
            ),
            d.wf(),
            in_order(d.blocks@),
    {
        let raw = split_diff_blocks(source.as_str());
        let b = source.as_str().as_bytes();
        let n = b.len();
        let ghost bs = utf8_bytes(source@);
        proof {
            encode_utf8_valid_utf8(source@);
            assert(bs.len() == n);
            lemma_diff_blocks_cut_at_lines(bs);
            assert forall|k: int| 0 <= k < raw@.len() implies raw_fits(bs, #[trigger] raw@[k]) by {
                assert(cut_at_lines(bs, raw@[k]));
                let s = raw@[k].range.start as int;
                let e = raw@[k].range.end as int;
                lemma_line_boundaries(bs, s);
                is_char_boundary_start_end_of_seq(bs);
                if e < bs.len() {
                    lemma_line_boundaries(bs, e);
                }
            }
        }
        let blocks = finish_blocks(b, raw, false);
        proof {
            lemma_finished_fit(bs, raw@, false);
            lemma_diff_blocks_tile(bs);
            assert forall|k: int| 0 <= k < raw@.len() - 1 implies #[trigger] raw@[k].range.end
                <= raw@[k + 1].range.start by {
                assert(tiles_prefix(raw@, bs.len() as int));
            }
            lemma_finished_in_order(bs, raw@, false);
        }
        Document { source, blocks }
    }

    /// Source text of block `index`. Empty for an out-of-range index.
    pub fn block_text(&self, index: usize) -> (r: &str)
        requires
            self.wf(),
        ensures
            index < self.blocks@.len() ==> r.spec_bytes() == self.bytes().subrange(
                self.blocks@[index as int].range.start as int,
                self.blocks@[index as int].range.end as int,
            ),
            index >= self.blocks@.len() ==> r@ == Seq::<char>::empty(),
    {
        if index < self.blocks.len() {
            let blk = &self.blocks[index];
            assert(block_fits(self.bytes(), self.blocks@[index as int]));
            crate::text::sub_str(self.source.as_str(), blk.range.start, blk.range.end)
        } else {
            proof {
                reveal_strlit("");
            }
            ""
        }
    }

    /// The first block whose range contains byte `offset`.
    pub fn block_containing(&self, offset: usize) -> (r: Option<usize>)
        ensures
            match r {
                Some(k) => k < self.blocks@.len() && self.blocks@[k as int].range.start <= offset
                    < self.blocks@[k as int].range.end && forall|j: int|
                    0 <= j < k ==> !((#[trigger] self.blocks@[j]).range.start <= offset
                        < self.blocks@[j].range.end),
                None => forall|j: int|
                    0 <= j < self.blocks@.len() ==> !((#[trigger] self.blocks@[j]).range.start <= offset
                        < self.blocks@[j].range.end),
            },
    {
        let mut k: usize = 0;
        while k < self.blocks.len()
            invariant
                k <= self.blocks@.len(),
                forall|j: int|
                    0 <= j < k ==> !((#[trigger] self.blocks@[j]).range.start <= offset
                        < self.blocks@[j].range.end),
            decreases self.blocks@.len() - k,
        {
            let blk = &self.blocks[k];
            if blk.range.start <= offset && offset < blk.range.end {
                return Some(k);
            }
            k = k + 1;
        }
        None
    }
}

} // verus!
