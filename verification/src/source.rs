//! What the app opens: a document source, not necessarily a file.
//!
//! A file on disk, a Workspaces document, and an agent's last reply are all sources. The
//! `transient` flag is the only behavioural switch: transient sources get no sidecar, no
//! history, no drafts.

use vstd::prelude::*;
use vstd::string::StringSliceAdditionalSpecFns;

use crate::doc::utf8_bytes;
use crate::text::{decimal, push_char, push_decimal};

verus! {

/// Where a document came from. The app never interprets these beyond display.
#[derive(Debug, Clone)]
pub enum Provenance {
    /// A file on this machine (its path as text).
    File { path: String },
    /// A Workspaces document.
    Workspace { workspace_id: String, document_id: String },
    /// An agent's message, handed in by a host integration.
    AgentMessage { host: String, session: Option<String>, message_id: Option<String> },
    /// Standard input or another one-off feed.
    Stdin,
}

/// How the content parses. The app picks the parser from this, not from the provenance
/// or the file name.
#[derive(Debug, Clone, Copy, PartialEq, Eq, Structural)]
pub enum SourceFormat {
    /// Markdown, block-split by the markdown parser.
    Markdown,
    /// A unified diff (git or plain). File headers and hunks render as blocks.
    Diff,
}

/// A document to review and what it is.
#[derive(Debug, Clone)]
pub struct DocumentSource {
    /// Raw text. Byte offsets in anchors index into this exact string.
    pub content: String,
    /// What to call it in the UI.
    pub name: String,
    /// True when nothing about this document should be persisted.
    pub transient: bool,
    pub provenance: Provenance,
    /// Git blob sha of `content`; the `version` every anchor made against it carries.
    pub version: String,
    /// How `content` parses.
    pub format: SourceFormat,
}

/// Two optional texts are the same.
pub open spec fn same_opt_text(a: Option<String>, b: Option<String>) -> bool {
    match (a, b) {
        (Some(x), Some(y)) => x@ == y@,
        (None, None) => true,
        _ => false,
    }
}

fn opt_text_eq(a: &Option<String>, b: &Option<String>) -> (r: bool)
    ensures
        r == same_opt_text(*a, *b),
{
    match (a, b) {
        (Some(x), Some(y)) => x.eq(y),
        (None, None) => true,
        _ => false,
    }
}

/// Two provenances name the same origin: same variant, same texts.
pub open spec fn same_provenance(a: Provenance, b: Provenance) -> bool {
    match (a, b) {
        (Provenance::File { path: x }, Provenance::File { path: y }) => x@ == y@,
        (
            Provenance::Workspace { workspace_id: w1, document_id: d1 },
            Provenance::Workspace { workspace_id: w2, document_id: d2 },
        ) => w1@ == w2@ && d1@ == d2@,
        (
            Provenance::AgentMessage { host: h1, session: s1, message_id: m1 },
            Provenance::AgentMessage { host: h2, session: s2, message_id: m2 },
        ) => h1@ == h2@ && same_opt_text(s1, s2) && same_opt_text(m1, m2),
        (Provenance::Stdin, Provenance::Stdin) => true,
        _ => false,
    }
}

impl PartialEq for Provenance {
    fn eq(&self, other: &Self) -> (r: bool) {
        match (self, other) {
            (Provenance::File { path: x }, Provenance::File { path: y }) => x.eq(y),
            (
                Provenance::Workspace { workspace_id: w1, document_id: d1 },
                Provenance::Workspace { workspace_id: w2, document_id: d2 },
            ) => w1.eq(w2) && d1.eq(d2),
            (
                Provenance::AgentMessage { host: h1, session: s1, message_id: m1 },
                Provenance::AgentMessage { host: h2, session: s2, message_id: m2 },
            ) => h1.eq(h2) && opt_text_eq(s1, s2) && opt_text_eq(m1, m2),
            (Provenance::Stdin, Provenance::Stdin) => true,
            _ => false,
        }
    }
}

impl vstd::std_specs::cmp::PartialEqSpecImpl for Provenance {
    open spec fn obeys_eq_spec() -> bool {
        true
    }

    open spec fn eq_spec(&self, other: &Self) -> bool {
        same_provenance(*self, *other)
    }
}

impl Eq for Provenance {
}

/// Two sources are the same: same texts, flags, provenance and format.
pub open spec fn same_source(a: DocumentSource, b: DocumentSource) -> bool {
    &&& a.content@ == b.content@
    &&& a.name@ == b.name@
    &&& a.transient == b.transient
    &&& same_provenance(a.provenance, b.provenance)
    &&& a.version@ == b.version@
    &&& a.format == b.format
}

impl PartialEq for DocumentSource {
    fn eq(&self, other: &Self) -> (r: bool) {
        self.content == other.content && self.name == other.name && self.transient
            == other.transient && self.provenance.eq(&other.provenance) && self.version
            == other.version && self.format == other.format
    }
}

impl vstd::std_specs::cmp::PartialEqSpecImpl for DocumentSource {
    open spec fn obeys_eq_spec() -> bool {
        true
    }

    open spec fn eq_spec(&self, other: &Self) -> bool {
        same_source(*self, *other)
    }
}

impl Eq for DocumentSource {
}

/// The SHA-1 digest of `data`.
pub uninterp spec fn sha1_of(data: Seq<u8>) -> Seq<u8>;

/// `sha1_smol::Sha1::from(data).digest().bytes()`. Claimed: the digest is a function of
/// the data and is 20 bytes long.
#[verifier::external_body]
fn sha1_digest(data: &[u8]) -> (r: Vec<u8>)
    ensures
        r@ == sha1_of(data@),
        r@.len() == 20,
{
    sha1_smol::Sha1::from(data).digest().bytes().to_vec()
}

/// The bytes git hashes for a blob: `blob `, the length in decimal, a NUL, the content.
pub open spec fn blob_frame(content: Seq<u8>) -> Seq<u8> {
    seq![98u8, 108, 111, 98, 32] + decimal(content.len()).map_values(|c: char| c as u8) + seq![0u8]
        + content
}

/// Lowercase hex digit for `d < 16`.
pub open spec fn hex_char(d: nat) -> char {
    if d < 10 {
        ('0' as nat + d) as char
    } else {
        ('a' as nat + d - 10) as char
    }
}

/// Lowercase hex of a byte string, two digits per byte.
pub open spec fn hex_of(bytes: Seq<u8>) -> Seq<char>
    decreases bytes.len(),
{
    if bytes.len() == 0 {
        seq![]
    } else {
        hex_of(bytes.drop_last()) + seq![
            hex_char(bytes.last() as nat / 16),
            hex_char(bytes.last() as nat % 16),
        ]
    }
}

/// The git blob id of `content`.
pub open spec fn blob_sha_of(content: Seq<char>) -> Seq<char> {
    hex_of(sha1_of(blob_frame(utf8_bytes(content))))
}

fn hex_digit(d: u8) -> (c: char)
    requires
        d < 16,
    ensures
        c == hex_char(d as nat),
{
    if d < 10 {
        ((48u8 + d) as char)
    } else {
        ((87u8 + d) as char)
    }
}

/// Git blob sha (lowercase hex) of `content`.
pub fn blob_sha(content: &str) -> (r: String)
    ensures
        r@ == blob_sha_of(content@),
{
    let b = content.as_bytes();
    let mut framed: Vec<u8> = Vec::new();
    framed.push(98u8);
    framed.push(108u8);
    framed.push(111u8);
    framed.push(98u8);
    framed.push(32u8);
    let mut len_text = String::new();
    push_decimal(&mut len_text, b.len());
    let digits = crate::text::chars_of(len_text.as_str());
    let mut i: usize = 0;
    while i < digits.len()
        invariant
            i <= digits@.len(),
            digits@ == decimal(b@.len()),
            framed@ == seq![98u8, 108, 111, 98, 32] + digits@.take(i as int).map_values(
                |c: char| c as u8,
            ),
        decreases digits@.len() - i,
    {
        framed.push(digits[i] as u8);
        proof {
            assert(digits@.take(i + 1) =~= digits@.take(i as int).push(digits@[i as int]));
        }
        i = i + 1;
    }
    assert(digits@.take(digits@.len() as int) =~= digits@);
    framed.push(0u8);
    let mut j: usize = 0;
    let ghost head = framed@;
    while j < b.len()
        invariant
            j <= b@.len(),
            framed@ == head + b@.take(j as int),
        decreases b@.len() - j,
    {
        framed.push(b[j]);
        proof {
            assert(b@.take(j + 1) =~= b@.take(j as int).push(b@[j as int]));
        }
        j = j + 1;
    }
    assert(b@.take(b@.len() as int) =~= b@);
    assert(framed@ =~= blob_frame(utf8_bytes(content@)));
    let digest = sha1_digest(framed.as_slice());
    let mut out = String::new();
    let mut k: usize = 0;
    while k < digest.len()
        invariant
            k <= digest@.len(),
            out@ == hex_of(digest@.take(k as int)),
        decreases digest@.len() - k,
    {
        let byte = digest[k];
        push_char(&mut out, hex_digit(byte / 16));
        push_char(&mut out, hex_digit(byte % 16));
        proof {
            assert(digest@.take(k + 1).drop_last() =~= digest@.take(k as int));
        }
        k = k + 1;
    }
    assert(digest@.take(digest@.len() as int) =~= digest@);
    out
}

/// The last component of a path.
pub uninterp spec fn file_name_of(path: Seq<char>) -> Option<Seq<char>>;

/// `Path::new(path).file_name()`, as text. Claimed: the result is a function of the path.
#[verifier::external_body]
fn path_file_name(path: &str) -> (r: Option<String>)
    ensures
        match r {
            Some(n) => file_name_of(path@) == Some(n@),
            None => file_name_of(path@) is None,
        },
{
    std::path::Path::new(path).file_name().map(|n| n.to_string_lossy().into_owned())
}

/// What a file source is called: its file name, or the whole path when it has none.
pub open spec fn file_display_name(path: Seq<char>) -> Seq<char> {
    match file_name_of(path) {
        Some(n) => n,
        None => path,
    }
}

/// Two sources built from the same content carry the same version, whatever their name,
/// provenance or format.
pub proof fn lemma_version_tracks_content(a: DocumentSource, b: DocumentSource)
    requires
        a.version@ == blob_sha_of(a.content@),
        b.version@ == blob_sha_of(b.content@),
        a.content@ == b.content@,
    ensures
        a.version@ == b.version@,
{
}

impl DocumentSource {
    /// A Markdown source; its version is the git blob sha of the content.
    pub fn new(content: String, name: String, transient: bool, provenance: Provenance) -> (r: Self)
        ensures
            r.content == content,
            r.name == name,
            r.transient == transient,
            r.provenance == provenance,
            r.version@ == blob_sha_of(content@),
            r.format == SourceFormat::Markdown,
    {
        let version = blob_sha(content.as_str());
        DocumentSource { content, name, transient, provenance, version, format: SourceFormat::Markdown }
    }

    /// A persistent Markdown source read from the file at `path`, named by its file name.
    pub fn file(path: String, content: String) -> (r: Self)
        ensures
            r.content == content,
            r.name@ == file_display_name(path@),
            !r.transient,
            r.provenance matches Provenance::File { path: p } && p == path,
            r.version@ == blob_sha_of(content@),
            r.format == SourceFormat::Markdown,
    {
        let name = match path_file_name(path.as_str()) {
            Some(n) => n,
            None => path.clone(),
        };
        Self::new(content, name, false, Provenance::File { path })
    }

    /// A unified diff as a transient document: comments live for the session, and a
    /// regenerated patch is a new review.
    pub fn diff(path: String, content: String) -> (r: Self)
        ensures
            r.content == content,
            r.name@ == file_display_name(path@),
            r.transient,
            r.provenance matches Provenance::File { path: p } && p == path,
            r.version@ == blob_sha_of(content@),
            r.format == SourceFormat::Diff,
    {
        let mut source = Self::file(path, content);
        source.transient = true;
        source.format = SourceFormat::Diff;
        source
    }
}

} // verus!
