//! Hunk headers of a unified diff: `@@ -a[,b] +c[,d] @@`.

use vstd::prelude::*;

use crate::text::{decimal, digit_char};

verus! {

broadcast use vstd::seq_lib::group_seq_properties;

/// The Unicode `White_Space` property, which `char::is_whitespace` tests.
pub open spec fn unicode_white_space(c: char) -> bool {
    let u = c as u32;
    ||| 0x09 <= u <= 0x0d
    ||| u == 0x20
    ||| u == 0x85
    ||| u == 0xa0
    ||| u == 0x1680
    ||| 0x2000 <= u <= 0x200a
    ||| u == 0x2028
    ||| u == 0x2029
    ||| u == 0x202f
    ||| u == 0x205f
    ||| u == 0x3000
}

/// Whether `c` has the Unicode `White_Space` property, as `char::is_whitespace` tests it.
fn char_is_whitespace(c: char) -> (r: bool)
    ensures
        r == unicode_white_space(c),
{
    let u = c as u32;
    (0x09 <= u && u <= 0x0d) || u == 0x20 || u == 0x85 || u == 0xa0 || u == 0x1680 || (0x2000
        <= u && u <= 0x200a) || u == 0x2028 || u == 0x2029 || u == 0x202f || u == 0x205f || u
        == 0x3000
}

/// First index at or after `i` that is not whitespace (or the length).
pub open spec fn skip_white(s: Seq<char>, i: int) -> int
    decreases s.len() - i,
{
    if i < 0 || i >= s.len() {
        s.len() as int
    } else if unicode_white_space(s[i]) {
        skip_white(s, i + 1)
    } else {
        i
    }
}

/// First index at or after `i` that is whitespace (or the length).
pub open spec fn word_end(s: Seq<char>, i: int) -> int
    decreases s.len() - i,
{
    if i < 0 || i >= s.len() {
        s.len() as int
    } else if unicode_white_space(s[i]) {
        i
    } else {
        word_end(s, i + 1)
    }
}

/// The next whitespace-separated word at or after `from`, as a character range: what
/// `split_whitespace` yields next.
pub open spec fn next_word(s: Seq<char>, from: int) -> Option<(int, int)> {
    let a = skip_white(s, from);
    if a >= s.len() {
        None
    } else {
        Some((a, word_end(s, a)))
    }
}

pub open spec fn is_ascii_digit(c: char) -> bool {
    '0' <= c <= '9'
}

/// The decimal value of a string of ASCII digits.
pub open spec fn digits_value(d: Seq<char>) -> nat
    decreases d.len(),
{
    if d.len() == 0 {
        0
    } else {
        digits_value(d.drop_last()) * 10 + (d.last() as nat - '0' as nat) as nat
    }
}

/// Whether `d` is one or more ASCII digits.
pub open spec fn all_digits(d: Seq<char>) -> bool {
    d.len() > 0 && forall|i: int| 0 <= i < d.len() ==> is_ascii_digit(#[trigger] d[i])
}

/// A decimal number of a hunk header: one or more ASCII digits whose value fits in
/// `usize`, and nothing else (no sign, no space).
pub open spec fn header_number(d: Seq<char>) -> Option<usize> {
    if all_digits(d) && digits_value(d) <= usize::MAX {
        Some(digits_value(d) as usize)
    } else {
        None
    }
}

/// The line count of one side of a hunk header, `-a[,b]` (with `sign` `-`) or `+c[,d]`
/// (with `sign` `+`): `b` when given, else 1. `None` unless the word is the sign followed
/// by a decimal start line and, optionally, a comma and a decimal count.
#[verifier::opaque]
pub open spec fn side_count(t: Seq<char>, sign: char) -> Option<usize> {
    if t.len() >= 1 && t[0] == sign {
        let body = t.drop_first();
        if exists|k: int| 0 <= k < body.len() && body[k] == ',' {
            let k = choose|k: int|
                0 <= k < body.len() && body[k] == ',' && forall|j: int|
                    0 <= j < k ==> body[j] != ',';
            if header_number(body.take(k)) is Some {
                header_number(body.subrange(k + 1, body.len() as int))
            } else {
                None
            }
        } else if header_number(body) is Some {
            Some(1)
        } else {
            None
        }
    } else {
        None
    }
}

/// Whether `line[w.0..w.1]` is the word `@@`.
pub open spec fn is_at_at(line: Seq<char>, w: (int, int)) -> bool {
    line.subrange(w.0, w.1) == seq!['@', '@']
}

/// Old and new line counts of a `@@ -a[,b] +c[,d] @@` header: its first four
/// whitespace-separated words are `@@`, the old side, the new side and `@@` (anything may
/// follow). `None` for any other line.
pub open spec fn hunk_counts(line: Seq<char>) -> Option<(usize, usize)> {
    match next_word(line, 0) {
        Some(a) => if is_at_at(line, a) {
            match next_word(line, a.1) {
                Some(b) => match next_word(line, b.1) {
                    Some(c) => match next_word(line, c.1) {
                        Some(d) => if is_at_at(line, d) {
                            match (
                                side_count(line.subrange(b.0, b.1), '-'),
                                side_count(line.subrange(c.0, c.1), '+'),
                            ) {
                                (Some(old), Some(new)) => Some((old, new)),
                                _ => None,
                            }
                        } else {
                            None
                        },
                        None => None,
                    },
                    None => None,
                },
                None => None,
            }
        } else {
            None
        },
        None => None,
    }
}

proof fn lemma_skip_white(s: Seq<char>, i: int)
    requires
        0 <= i <= s.len(),
    ensures
        i <= skip_white(s, i) <= s.len(),
        forall|j: int| i <= j < skip_white(s, i) ==> unicode_white_space(#[trigger] s[j]),
        skip_white(s, i) < s.len() ==> !unicode_white_space(s[skip_white(s, i)]),
    decreases s.len() - i,
{
    if i < s.len() && unicode_white_space(s[i]) {
        lemma_skip_white(s, i + 1);
    }
}

proof fn lemma_word_end(s: Seq<char>, i: int)
    requires
        0 <= i <= s.len(),
    ensures
        i <= word_end(s, i) <= s.len(),
    decreases s.len() - i,
{
    if i < s.len() && !unicode_white_space(s[i]) {
        lemma_word_end(s, i + 1);
    }
}

/// Exec form of `next_word`.
fn find_word(s: &Vec<char>, from: usize) -> (r: Option<(usize, usize)>)
    requires
        from <= s@.len(),
    ensures
        match r {
            Some((a, b)) => next_word(s@, from as int) == Some((a as int, b as int)),
            None => next_word(s@, from as int) is None,
        },
{
    let mut a = from;
    while a < s.len() && char_is_whitespace(s[a])
        invariant
            from <= a <= s@.len(),
            skip_white(s@, from as int) == skip_white(s@, a as int),
        decreases s@.len() - a,
    {
        a = a + 1;
    }
    if a >= s.len() {
        return None;
    }
    let mut b = a;
    while b < s.len() && !char_is_whitespace(s[b])
        invariant
            a <= b <= s@.len(),
            word_end(s@, a as int) == word_end(s@, b as int),
        decreases s@.len() - b,
    {
        b = b + 1;
    }
    Some((a, b))
}

/// A hunk header's first non-blank character is `@`.
pub proof fn lemma_hunk_header_starts_with_at(line: Seq<char>)
    requires
        hunk_counts(line) is Some,
    ensures
        skip_white(line, 0) < line.len(),
        line[skip_white(line, 0)] == '@',
{
    lemma_skip_white(line, 0);
    let a = skip_white(line, 0);
    assert(a < line.len());
    lemma_word_end(line, a);
    let e = word_end(line, a);
    assert(next_word(line, 0) == Some((a, e)));
    assert(is_at_at(line, (a, e)));
    let w = line.subrange(a, e);
    assert(w =~= seq!['@', '@']);
    assert(w.len() == 2);
    assert(w[0] == line[a + 0]);
    assert(seq!['@', '@'][0] == '@');
}

/// Blank characters from `i` up to a non-blank one at `j`: the next word starts at `j`.
pub proof fn lemma_skip_white_to(t: Seq<char>, i: int, j: int)
    requires
        0 <= i <= j < t.len(),
        forall|l: int| i <= l < j ==> unicode_white_space(#[trigger] t[l]),
        !unicode_white_space(t[j]),
    ensures
        skip_white(t, i) == j,
    decreases j - i,
{
    if i < j {
        lemma_skip_white_to(t, i + 1, j);
    }
}

/// Non-blank characters from `i` up to a blank one (or the end) at `j`: the word ends at
/// `j`.
pub proof fn lemma_word_end_to(t: Seq<char>, i: int, j: int)
    requires
        0 <= i <= j <= t.len(),
        forall|l: int| i <= l < j ==> !unicode_white_space(#[trigger] t[l]),
        j == t.len() || unicode_white_space(t[j]),
    ensures
        word_end(t, i) == j,
    decreases j - i,
{
    if i < j {
        lemma_word_end_to(t, i + 1, j);
    }
}

/// The decimal digits of `n` are ASCII digits that read back as `n`.
pub proof fn lemma_decimal_reads_back(n: nat)
    ensures
        all_digits(decimal(n)),
        digits_value(decimal(n)) == n,
    decreases n,
{
    let d = decimal(n);
    if n < 10 {
        assert(digit_char(n) as nat == '0' as nat + n);
        assert(d.drop_last() =~= seq![]);
        assert(digits_value(d.drop_last()) == 0);
        assert(d.last() == digit_char(n));
        assert(digits_value(d) == 0 * 10 + (d.last() as nat - '0' as nat) as nat);
    } else {
        lemma_decimal_reads_back(n / 10);
        let prev = decimal(n / 10);
        assert(digit_char(n % 10) as nat == '0' as nat + n % 10);
        assert(d.drop_last() =~= prev);
        assert(d.last() == digit_char(n % 10));
        assert(n == (n / 10) * 10 + n % 10) by (nonlinear_arith);
        assert(digits_value(d) == digits_value(prev) * 10 + (d.last() as nat - '0' as nat) as nat);
        assert forall|i: int| 0 <= i < d.len() implies is_ascii_digit(#[trigger] d[i]) by {
            if i < prev.len() {
                assert(d[i] == prev[i]);
            }
        }
    }
}

/// The side `sign` `1` `,` followed by decimal digits reads as the digits' value.
pub proof fn lemma_side_count_reads(sign: char, d: Seq<char>)
    requires
        all_digits(d),
        digits_value(d) <= usize::MAX,
    ensures
        side_count(seq![sign, '1', ','] + d, sign) == Some(digits_value(d) as usize),
{
    reveal(side_count);
    let t = seq![sign, '1', ','] + d;
    let body = t.drop_first();
    assert(body =~= seq!['1', ','] + d);
    assert(body[1] == ',');
    let ch = choose|k: int|
        0 <= k < body.len() && body[k] == ',' && forall|j: int| 0 <= j < k ==> body[j] != ',';
    assert(ch == 1) by {
        assert(body[0] == '1');
        if ch > 1 {
            assert(body[1] != ',');
        }
    }
    let one = body.take(1);
    assert(one =~= seq!['1']);
    assert(one.drop_last() =~= seq![]);
    assert(digits_value(one.drop_last()) == 0);
    assert(one.last() == '1');
    assert(digits_value(one) == 0 * 10 + ('1' as nat - '0' as nat) as nat);
    assert(all_digits(one));
    assert(body.subrange(2, body.len() as int) =~= d);
}

proof fn lemma_digits_value_prefix(d: Seq<char>, i: int)
    requires
        0 <= i <= d.len(),
    ensures
        digits_value(d.take(i)) <= digits_value(d),
    decreases d.len() - i,
{
    if i < d.len() {
        lemma_digits_value_prefix(d, i + 1);
        assert(d.take(i + 1).drop_last() =~= d.take(i));
    } else {
        assert(d.take(i) =~= d);
    }
}

/// `header_number` over the characters `s[from..to]`.
fn parse_decimal_range(s: &Vec<char>, from: usize, to: usize) -> (r: Option<usize>)
    requires
        from <= to <= s@.len(),
    ensures
        r == header_number(s@.subrange(from as int, to as int)),
{
    let ghost digits = s@.subrange(from as int, to as int);
    if from == to {
        return None;
    }
    let mut value: usize = 0;
    let mut i = from;
    while i < to
        invariant
            from <= i <= to <= s@.len(),
            digits == s@.subrange(from as int, to as int),
            value == digits_value(digits.take(i - from)),
            forall|j: int| 0 <= j < i - from ==> is_ascii_digit(#[trigger] digits[j]),
        decreases to - i,
    {
        let c = s[i];
        proof {
            assert(digits.take(i - from + 1).drop_last() =~= digits.take(i - from));
            assert(digits.take(i - from + 1).last() == c);
            assert(digits[i - from] == c);
        }
        if !('0' <= c && c <= '9') {
            assert(!is_ascii_digit(digits[i - from]));
            return None;
        }
        assert(digits_value(digits.take(i - from + 1)) == value * 10 + (c as nat - '0' as nat));
        let d = (c as u32 - '0' as u32) as usize;
        let next = match value.checked_mul(10) {
            Some(m) => m.checked_add(d),
            None => None,
        };
        match next {
            Some(n) => {
                value = n;
            },
            None => {
                proof {
                    lemma_digits_value_prefix(digits, i - from + 1);
                    assert(digits_value(digits) > usize::MAX);
                }
                return None;
            },
        }
        i = i + 1;
    }
    assert(digits.take(to - from) =~= digits);
    Some(value)
}

/// First index of `,` in `s[from..to]`, if any.
fn find_comma(s: &Vec<char>, from: usize, to: usize) -> (r: Option<usize>)
    requires
        from <= to <= s@.len(),
    ensures
        match r {
            Some(k) => from <= k < to && s@[k as int] == ',' && forall|j: int|
                from <= j < k ==> s@[j] != ',',
            None => forall|j: int| from <= j < to ==> s@[j] != ',',
        },
{
    let mut k = from;
    while k < to
        invariant
            from <= k <= to <= s@.len(),
            forall|j: int| from <= j < k ==> s@[j] != ',',
        decreases to - k,
    {
        if s[k] == ',' {
            return Some(k);
        }
        k = k + 1;
    }
    None
}

/// `side_count` over the characters `s[from..to]`.
fn side_count_range(s: &Vec<char>, from: usize, to: usize, sign: char) -> (r: Option<usize>)
    requires
        from <= to <= s@.len(),
    ensures
        r == side_count(s@.subrange(from as int, to as int), sign),
{
    reveal(side_count);
    let ghost t = s@.subrange(from as int, to as int);
    if from == to || s[from] != sign {
        return None;
    }
    let ghost body = t.drop_first();
    assert(body =~= s@.subrange(from + 1, to as int));
    match find_comma(s, from + 1, to) {
        Some(k) => {
            let ghost kk = k - from - 1;
            assert(0 <= kk < body.len() && body[kk] == ',');
            let ghost ch = choose|k: int|
                0 <= k < body.len() && body[k] == ',' && forall|j: int|
                    0 <= j < k ==> body[j] != ',';
            assert(ch == kk) by {
                if ch < kk {
                    assert(body[ch] == s@[from + 1 + ch]);
                } else if ch > kk {
                    assert(body[kk] == ',');
                }
            }
            assert(body.take(kk) =~= s@.subrange(from + 1, k as int));
            assert(body.subrange(kk + 1, body.len() as int) =~= s@.subrange(k + 1, to as int));
            if parse_decimal_range(s, from + 1, k).is_none() {
                return None;
            }
            parse_decimal_range(s, k + 1, to)
        },
        None => {
            assert forall|k: int| 0 <= k < body.len() implies body[k] != ',' by {
                assert(body[k] == s@[from + 1 + k]);
            }
            if parse_decimal_range(s, from + 1, to).is_none() {
                return None;
            }
            Some(1)
        },
    }
}

/// Whether the characters `s[from..to]` are the word `@@`.
fn at_at_range(s: &Vec<char>, from: usize, to: usize) -> (r: bool)
    requires
        from <= to <= s@.len(),
    ensures
        r == (s@.subrange(from as int, to as int) == seq!['@', '@']),
{
    let r = to - from == 2 && s[from] == '@' && s[from + 1] == '@';
    proof {
        let w = s@.subrange(from as int, to as int);
        if r {
            assert(w =~= seq!['@', '@']);
        } else if w == seq!['@', '@'] {
            assert(w.len() == 2);
            assert(w[0] == s@[from as int]);
            assert(w[1] == s@[from + 1]);
        }
    }
    r
}

/// Old and new line counts from a `@@ -a[,b] +c[,d] @@` header. `None` for any other line.
#[verifier::rlimit(40)]
pub fn hunk_header(line: &str) -> (r: Option<(usize, usize)>)
    ensures
        r == hunk_counts(line@),
{
    let s = crate::text::chars_of(line);
    let Some((a0, a1)) = find_word(&s, 0) else { return None };
    proof {
        lemma_skip_white(s@, 0);
        lemma_word_end(s@, a0 as int);
    }
    if !at_at_range(&s, a0, a1) {
        return None;
    }
    let Some((b0, b1)) = find_word(&s, a1) else { return None };
    proof {
        lemma_skip_white(s@, a1 as int);
        lemma_word_end(s@, b0 as int);
    }
    let Some((c0, c1)) = find_word(&s, b1) else { return None };
    proof {
        lemma_skip_white(s@, b1 as int);
        lemma_word_end(s@, c0 as int);
    }
    let Some((d0, d1)) = find_word(&s, c1) else { return None };
    proof {
        lemma_skip_white(s@, c1 as int);
        lemma_word_end(s@, d0 as int);
    }
    if !at_at_range(&s, d0, d1) {
        return None;
    }
    let old = side_count_range(&s, b0, b1, '-');
    let new = side_count_range(&s, c0, c1, '+');
    match (old, new) {
        (Some(o), Some(n)) => Some((o, n)),
        _ => None,
    }
}

} // verus!
