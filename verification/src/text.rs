//! Byte- and character-level helpers shared by the document and overlay modules.

use vstd::prelude::*;
use vstd::utf8::*;
use vstd::string::StringSliceAdditionalSpecFns;

verus! {

broadcast use vstd::seq_lib::group_seq_properties;

/// The byte `\n`.
pub open spec fn is_newline_byte(b: u8) -> bool {
    b == 10u8
}

/// `p` occurs in `b` starting at byte `pos`.
pub open spec fn has_prefix(b: Seq<u8>, pos: int, p: Seq<u8>) -> bool {
    &&& 0 <= pos
    &&& pos + p.len() <= b.len()
    &&& b.subrange(pos, pos + p.len()) == p
}

/// Whether `pat` occurs in `b` at `pos`.
pub fn bytes_match_at(b: &[u8], pos: usize, pat: &[u8]) -> (r: bool)
    ensures
        r == has_prefix(b@, pos as int, pat@),
{
    if pos > b.len() || pat.len() > b.len() - pos {
        return false;
    }
    let mut i: usize = 0;
    while i < pat.len()
        invariant
            pos + pat@.len() <= b@.len(),
            b@.len() == b.len(),
            i <= pat@.len(),
            forall|j: int| 0 <= j < i ==> b@[pos + j] == pat@[j],
        decreases pat@.len() - i,
    {
        if b[pos + i] != pat[i] {
            assert(b@.subrange(pos as int, pos + pat@.len())[i as int] != pat@[i as int]);
            return false;
        }
        i = i + 1;
    }
    assert(b@.subrange(pos as int, pos + pat@.len()) =~= pat@);
    true
}

/// First index at or after `pos` holding `\n`, or the length when there is none.
pub open spec fn line_end(b: Seq<u8>, pos: int) -> int
    decreases b.len() - pos,
{
    if pos >= b.len() || pos < 0 {
        b.len() as int
    } else if is_newline_byte(b[pos]) {
        pos
    } else {
        line_end(b, pos + 1)
    }
}

pub proof fn lemma_line_end(b: Seq<u8>, pos: int)
    requires
        0 <= pos <= b.len(),
    ensures
        pos <= line_end(b, pos) <= b.len(),
        line_end(b, pos) < b.len() ==> is_newline_byte(b[line_end(b, pos)]),
        forall|j: int| pos <= j < line_end(b, pos) ==> !is_newline_byte(#[trigger] b[j]),
    decreases b.len() - pos,
{
    if pos < b.len() && !is_newline_byte(b[pos]) {
        lemma_line_end(b, pos + 1);
    }
}

/// Exec form of `line_end`.
pub fn find_line_end(b: &[u8], pos: usize) -> (e: usize)
    requires
        pos <= b@.len(),
    ensures
        e == line_end(b@, pos as int),
{
    proof {
        lemma_line_end(b@, pos as int);
    }
    let mut i = pos;
    while i < b.len() && b[i] != 10u8
        invariant
            pos <= i <= b@.len(),
            line_end(b@, pos as int) == line_end(b@, i as int),
        decreases b@.len() - i,
    {
        i = i + 1;
    }
    i
}

/// An ASCII byte that starts a character is followed by a character boundary.
pub proof fn lemma_ascii_boundary_next(b: Seq<u8>, i: int)
    requires
        valid_utf8(b),
        0 <= i < b.len(),
        is_char_boundary(b, i),
        b[i] < 0x80,
    ensures
        is_char_boundary(b, i + 1),
    decreases b.len(),
{
    let l = length_of_first_scalar(b);
    let t = pop_first_scalar(b);
    assert(valid_first_scalar(b));
    assert(valid_utf8(t));
    assert(1 <= l <= b.len());
    assert(t.len() == b.len() - l);
    if i == 0 {
        assert(l == 1);
        assert(is_char_boundary(t, 0));
    } else {
        assert(is_char_boundary(t, i - l));
        assert(t[i - l] == b[i]);
        lemma_ascii_boundary_next(t, i - l);
    }
}

/// Boundaries of a valid encoding carry over to a prefix that ends on a boundary.
pub proof fn lemma_boundary_in_prefix(b: Seq<u8>, p: int, e: int)
    requires
        valid_utf8(b),
        0 <= p <= e <= b.len(),
        is_char_boundary(b, p),
        is_char_boundary(b, e),
    ensures
        valid_utf8(b.subrange(0, e)),
        is_char_boundary(b.subrange(0, e), p),
{
    valid_utf8_split(b, e);
    let pre = b.subrange(0, e);
    if p < e {
        is_char_boundary_iff_not_is_continuation_byte(b, p);
        is_char_boundary_iff_not_is_continuation_byte(pre, p);
    } else {
        assert(pre.subrange(0, pre.len() as int) =~= pre);
        is_char_boundary_start_end_of_seq(pre);
    }
}

/// A position right after a `\n` (or the start) is a character boundary, and so is every
/// `\n` and the end.
pub proof fn lemma_line_boundaries(b: Seq<u8>, pos: int)
    requires
        valid_utf8(b),
        0 <= pos <= b.len(),
        pos == 0 || is_newline_byte(b[pos - 1]),
    ensures
        is_char_boundary(b, pos),
        is_char_boundary(b, line_end(b, pos)),
{
    is_char_boundary_start_end_of_seq(b);
    if pos > 0 {
        is_char_boundary_iff_not_is_continuation_byte(b, pos - 1);
        lemma_ascii_boundary_next(b, pos - 1);
    }
    lemma_line_end(b, pos);
    let e = line_end(b, pos);
    if e < b.len() {
        is_char_boundary_iff_not_is_continuation_byte(b, e);
    }
}

/// The text of bytes `start..end` of `s`, both ends on character boundaries.
pub fn sub_str(s: &str, start: usize, end: usize) -> (r: &str)
    requires
        start <= end <= s.spec_bytes().len(),
        is_char_boundary(s.spec_bytes(), start as int),
        is_char_boundary(s.spec_bytes(), end as int),
    ensures
        r.spec_bytes() == s.spec_bytes().subrange(start as int, end as int),
        r@ == decode_utf8(s.spec_bytes().subrange(start as int, end as int)),
{
    let ghost b = s.spec_bytes();
    proof {
        encode_utf8_valid_utf8(s@);
        lemma_boundary_in_prefix(b, start as int, end as int);
    }
    let (head, _) = s.split_at(end);
    assert(head.spec_bytes() =~= b.subrange(0, end as int));
    let (_, mid) = head.split_at(start);
    assert(mid.spec_bytes() =~= b.subrange(start as int, end as int));
    proof {
        encode_utf8_decode_utf8(mid@);
    }
    mid
}

/// The characters of `s`, one by one.
pub fn chars_of(s: &str) -> (v: Vec<char>)
    ensures
        v@ == s@,
{
    let mut v: Vec<char> = Vec::new();
    for c in it: s.chars()
        invariant
            it.seq() == s@,
            v@ == s@.take(it.index() as int),
    {
        v.push(c);
        assert(s@.take(it.index() + 1) =~= v@);
    }
    assert(v@ =~= s@);
    v
}

} // verus!

verus! {

/// Whether two texts are the same.
pub fn text_equal(a: &str, b: &str) -> (r: bool)
    ensures
        r == (a@ == b@),
{
    let x = a.as_bytes();
    let y = b.as_bytes();
    proof {
        encode_utf8_decode_utf8(a@);
        encode_utf8_decode_utf8(b@);
    }
    if x.len() != y.len() {
        return false;
    }
    let mut i: usize = 0;
    while i < x.len()
        invariant
            x@.len() == y@.len(),
            x@ == a.spec_bytes(),
            y@ == b.spec_bytes(),
            i <= x@.len(),
            x@.len() == x.len(),
            forall|j: int| 0 <= j < i ==> x@[j] == y@[j],
        decreases x@.len() - i,
    {
        if x[i] != y[i] {
            return false;
        }
        i = i + 1;
    }
    assert(x@ =~= y@);
    true
}

/// `String::push`: appends one character.
#[verifier::external_body]
pub fn push_char(s: &mut String, c: char)
    ensures
        final(s)@ == old(s)@.push(c),
{
    s.push(c);
}

/// `String::push_str`: appends a text.
#[verifier::external_body]
pub fn push_text(s: &mut String, t: &str)
    ensures
        final(s)@ == old(s)@ + t@,
{
    s.push_str(t);
}

/// The ASCII digit for `d < 10`.
pub open spec fn digit_char(d: nat) -> char {
    ('0' as nat + d) as char
}

/// Decimal digits of `n`, most significant first, no leading zeros.
pub open spec fn decimal(n: nat) -> Seq<char>
    decreases n,
{
    if n < 10 {
        seq![digit_char(n)]
    } else {
        decimal(n / 10).push(digit_char(n % 10))
    }
}

/// Appends the decimal digits of `n`.
pub fn push_decimal(s: &mut String, n: usize)
    ensures
        final(s)@ == old(s)@ + decimal(n as nat),
    decreases n,
{
    if n >= 10 {
        push_decimal(s, n / 10);
    }
    let d = (n % 10) as u32;
    let c = if d == 0 { '0' } else if d == 1 { '1' } else if d == 2 { '2' } else if d == 3 { '3' }
        else if d == 4 { '4' } else if d == 5 { '5' } else if d == 6 { '6' } else if d == 7 { '7' }
        else if d == 8 { '8' } else { '9' };
    assert(c == digit_char((n % 10) as nat));
    push_char(s, c);
}

} // verus!
