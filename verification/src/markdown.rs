//! Top-level Markdown blocks: the parser's event stream walked at depth zero.

use std::ops::Range;

use pulldown_cmark::{Options, Parser};
use vstd::prelude::*;

use crate::doc::{
    block_fits, finish_blocks, finished_blocks, in_order, is_diff_kind, lemma_finished_fit,
    lemma_finished_in_order, lemma_finished_kinds, raw_fits, utf8_bytes, Block, BlockKind,
    Document,
};
use crate::text::{chars_of, push_char, text_equal};
use vstd::string::StringSliceAdditionalSpecFns;
use vstd::utf8::*;

verus! {

/// What one parser event means for block splitting.
#[derive(Debug, Clone, Copy, PartialEq, Eq, Structural)]
pub enum MdStep {
    /// A container starts; the kind its tag gives when it is a top-level block.
    Open(BlockKind),
    /// A container ends.
    Close,
    /// A thematic break.
    Rule,
    /// Any other leaf event (text, html, breaks, ...).
    Leaf,
}

/// One parser event with the byte range it maps to in the source.
#[derive(Debug)]
pub struct MdEvent {
    pub step: MdStep,
    pub range: Range<usize>,
}

/// Strikethrough (`~~x~~`).
pub const STRIKETHROUGH: u32 = 8;
/// GFM task lists.
pub const TASKLISTS: u32 = 16;
/// `{#id .class}` heading attributes.
pub const HEADING_ATTRIBUTES: u32 = 64;
/// YAML front matter.
pub const YAML_METADATA: u32 = 128;
/// `^sup^`.
pub const SUPERSCRIPT: u32 = 8192;
/// `~sub~`.
pub const SUBSCRIPT: u32 = 16384;
/// `$math$`.
pub const MATH: u32 = 1024;
/// Footnotes.
pub const FOOTNOTES: u32 = 4;
/// Definition lists.
pub const DEFINITION_LIST: u32 = 4096;
/// GFM blockquote tags and other GFM extensions.
pub const GFM: u32 = 2048;
/// Tables.
pub const TABLES: u32 = 2;

/// The option bits the renderer enables.
pub open spec fn render_options() -> u32 {
    STRIKETHROUGH | TASKLISTS | HEADING_ATTRIBUTES | YAML_METADATA | SUPERSCRIPT | SUBSCRIPT
        | MATH | FOOTNOTES | DEFINITION_LIST | GFM | TABLES
}

/// The option set the renderer enables, so block boundaries agree with it.
pub fn parse_options() -> (r: u32)
    ensures
        r == render_options(),
{
    STRIKETHROUGH | TASKLISTS | HEADING_ATTRIBUTES | YAML_METADATA | SUPERSCRIPT | SUBSCRIPT
        | MATH | FOOTNOTES | DEFINITION_LIST | GFM | TABLES
}

/// The event stream `pulldown_cmark` produces for `source` with the given option bits:
/// each event's `Debug` text with its source range.
pub uninterp spec fn markdown_event_texts(source: Seq<char>, options: u32) -> Seq<
    (Seq<char>, Range<usize>),
>;

/// Event texts with their ranges, taken by their views.
pub open spec fn text_views(v: Seq<(String, Range<usize>)>) -> Seq<(Seq<char>, Range<usize>)> {
    Seq::new(v.len(), |j: int| (v[j].0@, v[j].1))
}

/// `Parser::new_ext(source, options).into_offset_iter()`, each event handed out as its
/// `Debug` text (the variant's name, then its fields) with its source range. Claimed: the
/// result is a function of the source and the options alone. Nothing is said of which
/// events come or of their ranges.
#[verifier::external_body]
fn markdown_events(source: &str, options: u32) -> (events: Vec<(String, Range<usize>)>)
    ensures
        text_views(events@) == markdown_event_texts(source@, options),
{
    let mut events = Vec::new();
    for (event, range) in Parser::new_ext(source, Options::from_bits_truncate(options)).into_offset_iter() {
        events.push((format!("{event:?}"), range));
    }
    events
}

pub open spec fn is_ascii_letter(c: char) -> bool {
    ('a' <= c <= 'z') || ('A' <= c <= 'Z')
}

/// The first index at or after `i` that does not hold an ASCII letter (or the length).
pub open spec fn name_end(t: Seq<char>, i: int) -> int
    decreases t.len() - i,
{
    if i < 0 || i >= t.len() {
        t.len() as int
    } else if is_ascii_letter(t[i]) {
        name_end(t, i + 1)
    } else {
        i
    }
}

/// The name (a run of ASCII letters) that starts at `i`; empty past the end.
pub open spec fn name_at(t: Seq<char>, i: int) -> Seq<char> {
    if 0 <= i <= t.len() {
        t.subrange(i, name_end(t, i))
    } else {
        seq![]
    }
}

/// The block kind a start tag's variant name gives at the top level: headings,
/// paragraphs, lists, code blocks, block quotes, tables, html blocks and front matter are
/// told apart; every other tag is `Other`.
pub open spec fn tag_kind(name: Seq<char>) -> BlockKind {
    if name == "Heading"@ {
        BlockKind::Heading
    } else if name == "Paragraph"@ {
        BlockKind::Paragraph
    } else if name == "List"@ {
        BlockKind::List
    } else if name == "CodeBlock"@ {
        BlockKind::CodeBlock
    } else if name == "BlockQuote"@ {
        BlockKind::BlockQuote
    } else if name == "Table"@ {
        BlockKind::Table
    } else if name == "HtmlBlock"@ {
        BlockKind::Html
    } else if name == "MetadataBlock"@ {
        BlockKind::Metadata
    } else {
        BlockKind::Other
    }
}

/// What an event, read from its `Debug` text, means for block splitting: `Start(tag)`
/// opens a container of the tag's kind, `End(..)` closes one, `Rule` is a thematic break,
/// anything else a leaf.
pub open spec fn event_step(t: Seq<char>) -> MdStep {
    let name = name_at(t, 0);
    if name == "Start"@ {
        MdStep::Open(tag_kind(name_at(t, name_end(t, 0) + 1)))
    } else if name == "End"@ {
        MdStep::Close
    } else if name == "Rule"@ {
        MdStep::Rule
    } else {
        MdStep::Leaf
    }
}

/// The events read from an event stream's texts.
pub open spec fn stream_events(texts: Seq<(Seq<char>, Range<usize>)>) -> Seq<MdEvent> {
    Seq::new(texts.len(), |j: int| MdEvent { step: event_step(texts[j].0), range: texts[j].1 })
}

proof fn lemma_name_end(t: Seq<char>, i: int)
    requires
        0 <= i <= t.len(),
    ensures
        i <= name_end(t, i) <= t.len(),
    decreases t.len() - i,
{
    if i < t.len() && is_ascii_letter(t[i]) {
        lemma_name_end(t, i + 1);
    }
}

/// A run of ASCII letters from `i` to `j`, followed by the end or by another character,
/// is the name at `i`.
proof fn lemma_name_run(t: Seq<char>, i: int, j: int)
    requires
        0 <= i <= j <= t.len(),
        forall|l: int| i <= l < j ==> is_ascii_letter(#[trigger] t[l]),
        j == t.len() || !is_ascii_letter(t[j]),
    ensures
        name_end(t, i) == j,
    decreases j - i,
{
    if i < j {
        lemma_name_run(t, i + 1, j);
    }
}

/// The event text `Start(` + `name` + `rest`, for a tag name of letters followed by
/// anything that is not a letter, opens a container of the kind `name` gives.
proof fn lemma_start_text(name: Seq<char>, rest: Seq<char>)
    requires
        forall|l: int| 0 <= l < name.len() ==> is_ascii_letter(#[trigger] name[l]),
        rest.len() == 0 || !is_ascii_letter(rest[0]),
    ensures
        event_step("Start("@ + name + rest) == MdStep::Open(tag_kind(name)),
{
    reveal_strlit("Start(");
    reveal_strlit("Start");
    let t = "Start("@ + name + rest;
    lemma_name_run(t, 0, 5);
    assert(name_at(t, 0) =~= "Start"@);
    let e: int = 6 + name.len() as int;
    assert forall|l: int| 6 <= l < e implies is_ascii_letter(#[trigger] t[l]) by {
        assert(t[l] == name[l - 6]);
    }
    if e < t.len() {
        assert(t[e] == rest[0]);
    }
    lemma_name_run(t, 6, e);
    assert(name_at(t, 6) =~= name);
}

/// The block tag names are letters and differ pairwise (by length, or else by their
/// first letter).
proof fn lemma_tag_names()
    ensures
        "Heading"@.len() == 7 && "Paragraph"@.len() == 9 && "List"@.len() == 4
            && "CodeBlock"@.len() == 9 && "BlockQuote"@.len() == 10 && "Table"@.len() == 5
            && "HtmlBlock"@.len() == 9 && "MetadataBlock"@.len() == 13,
        "Paragraph"@[0] == 'P' && "CodeBlock"@[0] == 'C' && "HtmlBlock"@[0] == 'H',
        forall|l: int| 0 <= l < "Heading"@.len() ==> is_ascii_letter(#[trigger] "Heading"@[l]),
        forall|l: int| 0 <= l < "Paragraph"@.len() ==> is_ascii_letter(#[trigger] "Paragraph"@[l]),
        forall|l: int| 0 <= l < "List"@.len() ==> is_ascii_letter(#[trigger] "List"@[l]),
        forall|l: int| 0 <= l < "CodeBlock"@.len() ==> is_ascii_letter(#[trigger] "CodeBlock"@[l]),
        forall|l: int|
            0 <= l < "BlockQuote"@.len() ==> is_ascii_letter(#[trigger] "BlockQuote"@[l]),
        forall|l: int| 0 <= l < "Table"@.len() ==> is_ascii_letter(#[trigger] "Table"@[l]),
        forall|l: int| 0 <= l < "HtmlBlock"@.len() ==> is_ascii_letter(#[trigger] "HtmlBlock"@[l]),
        forall|l: int|
            0 <= l < "MetadataBlock"@.len() ==> is_ascii_letter(#[trigger] "MetadataBlock"@[l]),
        "Paragraph"@ != "CodeBlock"@ && "Paragraph"@ != "HtmlBlock"@ && "CodeBlock"@ != "HtmlBlock"@,
{
    reveal_strlit("Heading");
    reveal_strlit("Paragraph");
    reveal_strlit("List");
    reveal_strlit("CodeBlock");
    reveal_strlit("BlockQuote");
    reveal_strlit("Table");
    reveal_strlit("HtmlBlock");
    reveal_strlit("MetadataBlock");
    assert("Paragraph"@[0] != "CodeBlock"@[0]);
    assert("Paragraph"@[0] != "HtmlBlock"@[0]);
    assert("CodeBlock"@[0] != "HtmlBlock"@[0]);
}

/// Each tag a top-level block is told apart by opens a block of its own kind, whatever
/// follows its name in the event text (its fields): headings, paragraphs, lists, code
/// blocks, block quotes, tables, html blocks and front matter.
pub proof fn lemma_block_tags_keep_their_kinds(rest: Seq<char>)
    requires
        rest.len() == 0 || !is_ascii_letter(rest[0]),
    ensures
        event_step("Start("@ + "Heading"@ + rest) == MdStep::Open(BlockKind::Heading),
        event_step("Start("@ + "Paragraph"@ + rest) == MdStep::Open(BlockKind::Paragraph),
        event_step("Start("@ + "List"@ + rest) == MdStep::Open(BlockKind::List),
        event_step("Start("@ + "CodeBlock"@ + rest) == MdStep::Open(BlockKind::CodeBlock),
        event_step("Start("@ + "BlockQuote"@ + rest) == MdStep::Open(BlockKind::BlockQuote),
        event_step("Start("@ + "Table"@ + rest) == MdStep::Open(BlockKind::Table),
        event_step("Start("@ + "HtmlBlock"@ + rest) == MdStep::Open(BlockKind::Html),
        event_step("Start("@ + "MetadataBlock"@ + rest) == MdStep::Open(BlockKind::Metadata),
{
    lemma_tag_names();
    lemma_start_text("Heading"@, rest);
    lemma_start_text("Paragraph"@, rest);
    lemma_start_text("List"@, rest);
    lemma_start_text("CodeBlock"@, rest);
    lemma_start_text("BlockQuote"@, rest);
    lemma_start_text("Table"@, rest);
    lemma_start_text("HtmlBlock"@, rest);
    lemma_start_text("MetadataBlock"@, rest);
}

/// A tag name gives a kind other than `Other` exactly when it is the name of that kind's
/// tag: no two tags share a kind, and every other tag (list items, emphasis, links, ...)
/// is `Other`.
pub proof fn lemma_tag_kinds_are_distinct(name: Seq<char>)
    ensures
        tag_kind(name) is Heading <==> name == "Heading"@,
        tag_kind(name) is Paragraph <==> name == "Paragraph"@,
        tag_kind(name) is List <==> name == "List"@,
        tag_kind(name) is CodeBlock <==> name == "CodeBlock"@,
        tag_kind(name) is BlockQuote <==> name == "BlockQuote"@,
        tag_kind(name) is Table <==> name == "Table"@,
        tag_kind(name) is Html <==> name == "HtmlBlock"@,
        tag_kind(name) is Metadata <==> name == "MetadataBlock"@,
{
    lemma_tag_names();
}

/// Exec form of `name_at` over a character vector.
fn name_of(s: &Vec<char>, from: usize) -> (r: (usize, String))
    requires
        from <= s@.len(),
    ensures
        r.0 == name_end(s@, from as int),
        r.1@ == name_at(s@, from as int),
{
    let mut name = String::new();
    let mut i = from;
    while i < s.len() && (('a' <= s[i] && s[i] <= 'z') || ('A' <= s[i] && s[i] <= 'Z'))
        invariant
            from <= i <= s@.len(),
            name_end(s@, from as int) == name_end(s@, i as int),
            name@ == s@.subrange(from as int, i as int),
        decreases s@.len() - i,
    {
        push_char(&mut name, s[i]);
        assert(s@.subrange(from as int, i + 1) =~= s@.subrange(from as int, i as int).push(s@[i as int]));
        i = i + 1;
    }
    (i, name)
}

/// Exec form of `tag_kind`.
fn kind_of(name: &str) -> (r: BlockKind)
    ensures
        r == tag_kind(name@),
{
    if text_equal(name, "Heading") {
        BlockKind::Heading
    } else if text_equal(name, "Paragraph") {
        BlockKind::Paragraph
    } else if text_equal(name, "List") {
        BlockKind::List
    } else if text_equal(name, "CodeBlock") {
        BlockKind::CodeBlock
    } else if text_equal(name, "BlockQuote") {
        BlockKind::BlockQuote
    } else if text_equal(name, "Table") {
        BlockKind::Table
    } else if text_equal(name, "HtmlBlock") {
        BlockKind::Html
    } else if text_equal(name, "MetadataBlock") {
        BlockKind::Metadata
    } else {
        BlockKind::Other
    }
}

/// Exec form of `event_step`.
pub fn event_step_of(text: &str) -> (r: MdStep)
    ensures
        r == event_step(text@),
{
    let s = chars_of(text);
    let (end, name) = name_of(&s, 0);
    proof {
        lemma_name_end(s@, 0);
    }
    if text_equal(name.as_str(), "Start") {
        let tag = if end < s.len() {
            name_of(&s, end + 1).1
        } else {
            String::new()
        };
        MdStep::Open(kind_of(tag.as_str()))
    } else if text_equal(name.as_str(), "End") {
        MdStep::Close
    } else if text_equal(name.as_str(), "Rule") {
        MdStep::Rule
    } else {
        MdStep::Leaf
    }
}

/// The events an event stream's texts stand for, each read by `event_step`.
pub fn read_events(texts: &Vec<(String, Range<usize>)>) -> (events: Vec<MdEvent>)
    ensures
        events@ == stream_events(text_views(texts@)),
{
    let mut events: Vec<MdEvent> = Vec::new();
    let mut i: usize = 0;
    while i < texts.len()
        invariant
            i <= texts@.len(),
            events@.len() == i,
            forall|j: int|
                0 <= j < i ==> #[trigger] events@[j] == stream_events(text_views(texts@))[j],
        decreases texts@.len() - i,
    {
        let step = event_step_of(texts[i].0.as_str());
        let r = &texts[i].1;
        events.push(MdEvent { step, range: Range { start: r.start, end: r.end } });
        i = i + 1;
    }
    assert(events@ =~= stream_events(text_views(texts@)));
    events
}

/// Where the depth-zero walk stands: blocks closed so far, the nesting depth, and the
/// top-level block still open (its start and kind).
pub struct MdScan {
    pub blocks: Seq<Block>,
    pub depth: nat,
    pub open: Option<(usize, BlockKind)>,
}

/// One event of the walk.
pub open spec fn md_step(st: MdScan, ev: MdEvent) -> MdScan {
    match ev.step {
        MdStep::Open(kind) => MdScan {
            open: if st.depth == 0 {
                Some((ev.range.start, kind))
            } else {
                st.open
            },
            depth: st.depth + 1,
            ..st
        },
        MdStep::Close => {
            let depth: nat = if st.depth > 0 {
                (st.depth - 1) as nat
            } else {
                0
            };
            if depth == 0 && st.open is Some {
                let (start, kind) = st.open.unwrap();
                MdScan {
                    blocks: st.blocks.push(
                        Block { range: Range { start, end: ev.range.end }, kind },
                    ),
                    depth,
                    open: None,
                }
            } else {
                MdScan { depth, ..st }
            }
        },
        MdStep::Rule => if st.depth == 0 {
            MdScan {
                blocks: st.blocks.push(Block { range: ev.range, kind: BlockKind::Rule }),
                ..st
            }
        } else {
            st
        },
        MdStep::Leaf => if st.depth == 0 {
            MdScan {
                blocks: st.blocks.push(Block { range: ev.range, kind: BlockKind::Other }),
                ..st
            }
        } else {
            st
        },
    }
}

/// The walk over a whole event sequence.
pub open spec fn md_scan(events: Seq<MdEvent>) -> MdScan
    decreases events.len(),
{
    if events.len() == 0 {
        MdScan { blocks: seq![], depth: 0, open: None }
    } else {
        md_step(md_scan(events.drop_last()), events.last())
    }
}

/// Cut the event stream at depth-zero block boundaries: a depth-zero start opens a block
/// that its matching end closes; a depth-zero rule or other leaf is a block of its own.
pub fn top_level_blocks(events: &Vec<MdEvent>) -> (blocks: Vec<Block>)
    ensures
        blocks@ == md_scan(events@).blocks,
{
    let mut blocks: Vec<Block> = Vec::new();
    let mut depth: usize = 0;
    let mut open: Option<(usize, BlockKind)> = None;
    let mut i: usize = 0;
    while i < events.len()
        invariant
            i <= events@.len(),
            depth <= i,
            md_scan(events@.take(i as int)) == (MdScan { blocks: blocks@, depth: depth as nat, open }),
        decreases events@.len() - i,
    {
        let ev = &events[i];
        proof {
            assert(events@.take(i + 1).drop_last() =~= events@.take(i as int));
            assert(events@.take(i + 1).last() == events@[i as int]);
        }
        match ev.step {
            MdStep::Open(kind) => {
                if depth == 0 {
                    open = Some((ev.range.start, kind));
                }
                depth = depth + 1;
            },
            MdStep::Close => {
                depth = if depth > 0 {
                    depth - 1
                } else {
                    0
                };
                if depth == 0 {
                    if let Some((start, kind)) = open {
                        blocks.push(Block { range: Range { start, end: ev.range.end }, kind });
                        open = None;
                    }
                }
            },
            MdStep::Rule => {
                if depth == 0 {
                    blocks.push(
                        Block {
                            range: Range { start: ev.range.start, end: ev.range.end },
                            kind: BlockKind::Rule,
                        },
                    );
                }
            },
            MdStep::Leaf => {
                if depth == 0 {
                    blocks.push(
                        Block {
                            range: Range { start: ev.range.start, end: ev.range.end },
                            kind: BlockKind::Other,
                        },
                    );
                }
            },
        }
        i = i + 1;
    }
    assert(events@.take(events@.len() as int) =~= events@);
    blocks
}

/// The parser's events for `source` under the renderer's options.
pub fn source_events(source: &str) -> (events: Vec<MdEvent>)
    ensures
        events@ == stream_events(markdown_event_texts(source@, render_options())),
{
    let texts = markdown_events(source, parse_options());
    read_events(&texts)
}

/// An event that opens a container opens one of a kind the markdown renderer draws.
pub open spec fn opens_markdown(step: MdStep) -> bool {
    match step {
        MdStep::Open(kind) => !is_diff_kind(kind),
        _ => true,
    }
}

proof fn lemma_stream_opens_markdown(texts: Seq<(Seq<char>, Range<usize>)>)
    ensures
        forall|j: int|
            0 <= j < stream_events(texts).len() ==> opens_markdown(
                #[trigger] stream_events(texts)[j].step,
            ),
{
}

/// The depth-zero walk makes blocks of markdown kinds only, when every event that opens a
/// container opens one.
proof fn lemma_scan_kinds(events: Seq<MdEvent>)
    requires
        forall|j: int| 0 <= j < events.len() ==> opens_markdown(#[trigger] events[j].step),
    ensures
        forall|k: int|
            0 <= k < md_scan(events).blocks.len() ==> !is_diff_kind(
                #[trigger] md_scan(events).blocks[k].kind,
            ),
        md_scan(events).open matches Some(o) ==> !is_diff_kind(o.1),
    decreases events.len(),
{
    if events.len() > 0 {
        let prefix = events.drop_last();
        assert forall|j: int| 0 <= j < prefix.len() implies opens_markdown(
            #[trigger] prefix[j].step,
        ) by {
            assert(prefix[j] == events[j]);
        }
        lemma_scan_kinds(prefix);
        assert(opens_markdown(events[events.len() - 1].step));
    }
}

/// Every raw block sits inside the text with both ends on character boundaries.
pub open spec fn all_raw_fit(b: Seq<u8>, raw: Seq<Block>) -> bool {
    forall|k: int| 0 <= k < raw.len() ==> raw_fits(b, #[trigger] raw[k])
}

/// The document blocks for an event stream: the depth-zero blocks, trimmed of trailing
/// newlines, empty ones and front matter dropped; none at all when some raw block does
/// not sit inside the text on character boundaries, or the raw blocks overlap or come out
/// of order.
pub open spec fn markdown_blocks(b: Seq<u8>, events: Seq<MdEvent>) -> Seq<Block> {
    let raw = md_scan(events).blocks;
    if all_raw_fit(b, raw) && in_order(raw) {
        finished_blocks(b, raw, true)
    } else {
        seq![]
    }
}

/// Blocks of `source` from its event stream (see `markdown_blocks`).
pub fn blocks_from_events(source: &str, events: &Vec<MdEvent>) -> (blocks: Vec<Block>)
    ensures
        blocks@ == markdown_blocks(utf8_bytes(source@), events@),
        forall|k: int|
            0 <= k < blocks@.len() ==> block_fits(utf8_bytes(source@), #[trigger] blocks@[k]),
        in_order(blocks@),
        forall|k: int| 0 <= k < blocks@.len() ==> !((#[trigger] blocks@[k]).kind is Metadata),
        (forall|j: int| 0 <= j < events@.len() ==> opens_markdown(#[trigger] events@[j].step))
            ==> forall|k: int| 0 <= k < blocks@.len() ==> !is_diff_kind(#[trigger] blocks@[k].kind),
{
    let raw = top_level_blocks(events);
    let b = source.as_bytes();
    let ghost bs = utf8_bytes(source@);
    assert(b@ == bs);
    proof {
        encode_utf8_valid_utf8(source@);
    }
    let mut k: usize = 0;
    while k < raw.len()
        invariant
            k <= raw@.len(),
            raw@ == md_scan(events@).blocks,
            b@ == bs,
            bs == source.spec_bytes(),
            forall|j: int| 0 <= j < k ==> raw_fits(bs, #[trigger] raw@[j]),
            forall|j: int| 0 <= j < k - 1 ==> #[trigger] raw@[j].range.end <= raw@[j + 1].range.start,
        decreases raw@.len() - k,
    {
        let r = &raw[k];
        if !(r.range.start <= r.range.end && r.range.end <= b.len()
            && source.is_char_boundary(r.range.start) && source.is_char_boundary(r.range.end)) {
            assert(!raw_fits(bs, raw@[k as int]));
            return Vec::new();
        }
        if k > 0 && raw[k - 1].range.end > r.range.start {
            assert(!in_order(raw@)) by {
                assert(raw@[k - 1].range.end > raw@[(k - 1) + 1].range.start);
            }
            return Vec::new();
        }
        k = k + 1;
    }
    let blocks = finish_blocks(b, raw, true);
    proof {
        lemma_finished_fit(bs, raw@, true);
        lemma_finished_in_order(bs, raw@, true);
        lemma_finished_kinds(bs, raw@, true);
        if forall|j: int| 0 <= j < events@.len() ==> opens_markdown(#[trigger] events@[j].step) {
            lemma_scan_kinds(events@);
        }
    }
    blocks
}

impl Document {
    /// Split Markdown into its top-level blocks (see `markdown_blocks`): in order, none of
    /// them front matter or diff text.
    pub fn parse(source: String) -> (d: Self)
        ensures
            d.source == source,
            d.blocks@ == markdown_blocks(
                utf8_bytes(source@),
                stream_events(markdown_event_texts(source@, render_options())),
            ),
            d.wf(),
            in_order(d.blocks@),
            forall|k: int|
                0 <= k < d.blocks@.len() ==> !((#[trigger] d.blocks@[k]).kind is Metadata)
                    && !is_diff_kind(d.blocks@[k].kind),
    {
        let events = source_events(source.as_str());
        proof {
            lemma_stream_opens_markdown(markdown_event_texts(source@, render_options()));
        }
        let blocks = blocks_from_events(source.as_str(), &events);
        Document { source, blocks }
    }
}

} // verus!
