use vstd::prelude::*;
use vstd::string::StringSliceAdditionalSpecFns;
use vstd::utf8::{
    is_char_boundary, is_char_boundary_iff_not_is_continuation_byte,
    is_char_boundary_start_end_of_seq, is_continuation_byte, is_leading_byte_width_1,
    is_leading_byte_width_2, is_leading_byte_width_3, is_leading_byte_width_4,
    length_of_first_scalar, pop_first_scalar, valid_first_scalar, valid_utf8, valid_utf8_concat,
    valid_utf8_split,
};

use crate::error::{Encoding, Error};

verus! {

/// The byte length of the UTF-8 scalar encoding that starts with leading
/// byte `b`, or 0 when `b` cannot lead an encoding.
pub open spec fn width_of_lead(b: u8) -> int {
    if is_leading_byte_width_1(b) {
        1
    } else if is_leading_byte_width_2(b) {
        2
    } else if is_leading_byte_width_3(b) {
        3
    } else if is_leading_byte_width_4(b) {
        4
    } else {
        0
    }
}

/// Number of UTF-16 code units of a scalar whose UTF-8 encoding is `w` bytes
/// long: the scalars with 4-byte UTF-8 encodings are exactly those needing a
/// surrogate pair.
pub open spec fn units16_of_width(w: int) -> int {
    if w == 4 {
        2
    } else {
        1
    }
}

/// Number of UTF-16 code units of the text held by the valid UTF-8 bytes `s`.
pub open spec fn utf16_units(s: Seq<u8>) -> int
    recommends
        valid_utf8(s),
    decreases s.len(),
    when valid_utf8(s)
{
    if s.len() == 0 {
        0
    } else {
        units16_of_width(length_of_first_scalar(s)) + utf16_units(pop_first_scalar(s))
    }
}

/// Number of codepoints held by the valid UTF-8 bytes `s`.
pub open spec fn char_count(s: Seq<u8>) -> int
    recommends
        valid_utf8(s),
    decreases s.len(),
    when valid_utf8(s)
{
    if s.len() == 0 {
        0
    } else {
        1 + char_count(pop_first_scalar(s))
    }
}

/// Both counts lie between one per scalar and one per byte.
pub proof fn lemma_counts_bounds(s: Seq<u8>)
    requires
        valid_utf8(s),
    ensures
        0 <= char_count(s) <= utf16_units(s) <= s.len(),
        s.len() > 0 ==> 1 <= char_count(s),
    decreases s.len(),
{
    if s.len() > 0 {
        let w = length_of_first_scalar(s);
        assert(1 <= w <= 4);
        assert(w <= s.len());
        lemma_counts_bounds(pop_first_scalar(s));
        assert(units16_of_width(w) <= w);
    }
}

/// The counts of a concatenation of valid UTF-8 parts are the sums of the
/// parts' counts.
pub proof fn lemma_counts_concat(a: Seq<u8>, b: Seq<u8>)
    requires
        valid_utf8(a),
        valid_utf8(b),
    ensures
        valid_utf8(a + b),
        utf16_units(a + b) == utf16_units(a) + utf16_units(b),
        char_count(a + b) == char_count(a) + char_count(b),
    decreases a.len(),
{
    valid_utf8_concat(a, b);
    if a.len() == 0 {
        assert(a + b =~= b);
    } else {
        let rest = pop_first_scalar(a);
        assert(length_of_first_scalar(a) >= 1);
        lemma_counts_concat(rest, b);
        assert(pop_first_scalar(a + b) =~= rest + b);
        assert(length_of_first_scalar(a + b) == length_of_first_scalar(a));
    }
}

/// What one step from character boundary `i` of valid UTF-8 text looks like:
/// the leading byte at `i` determines the scalar's width `w`; the bytes up to
/// `i + w` are its continuation bytes and no boundary falls among them;
/// `i + w` is the next boundary, and the prefix counts grow by one scalar.
pub proof fn lemma_boundary_scalar(s: Seq<u8>, i: int)
    requires
        valid_utf8(s),
        is_char_boundary(s, i),
        0 <= i < s.len(),
    ensures
        ({
            let w = width_of_lead(s[i]);
            &&& 1 <= w <= 4
            &&& i + w <= s.len()
            &&& is_char_boundary(s, i + w)
            &&& forall|j: int| i < j < i + w ==> !is_char_boundary(s, j)
            &&& valid_utf8(s.take(i))
            &&& valid_utf8(s.take(i + w))
            &&& utf16_units(s.take(i + w)) == utf16_units(s.take(i)) + units16_of_width(w)
            &&& char_count(s.take(i + w)) == char_count(s.take(i)) + 1
        }),
{
    valid_utf8_split(s, i);
    let suf = s.subrange(i, s.len() as int);
    assert(valid_utf8(suf));
    assert(suf.len() > 0);
    assert(valid_first_scalar(suf));
    assert(suf[0] == s[i]);
    let w = width_of_lead(s[i]);
    assert(w == length_of_first_scalar(suf));
    assert(1 <= w <= 4);
    assert(i + w <= s.len());
    // the bytes after the leading byte are continuation bytes
    assert(forall|j: int| 0 < j < w ==> is_continuation_byte(suf[j]));
    assert forall|j: int| i < j < i + w implies !is_char_boundary(s, j) by {
        assert(s[j] == suf[j - i]);
        assert(is_continuation_byte(s[j]));
        is_char_boundary_iff_not_is_continuation_byte(s, j);
    }
    // the next position is a boundary
    if i + w == s.len() {
        is_char_boundary_start_end_of_seq(s);
    } else {
        let rest = pop_first_scalar(suf);
        assert(valid_utf8(rest));
        assert(rest.len() > 0);
        assert(valid_first_scalar(rest));
        assert(rest[0] == s[i + w]);
        assert(!is_continuation_byte(s[i + w]));
        is_char_boundary_iff_not_is_continuation_byte(s, i + w);
    }
    // counts grow by exactly one scalar
    let scalar = s.subrange(i, i + w);
    assert(valid_utf8(scalar)) by {
        assert(valid_first_scalar(scalar)) by {
            assert(forall|j: int| 0 <= j < w ==> scalar[j] == suf[j]);
        }
        assert(length_of_first_scalar(scalar) == w);
        assert(pop_first_scalar(scalar) =~= Seq::<u8>::empty());
        assert(valid_utf8(pop_first_scalar(scalar)));
    }
    assert(utf16_units(scalar) == units16_of_width(w) && char_count(scalar) == 1) by {
        assert(length_of_first_scalar(scalar) == w);
        assert(pop_first_scalar(scalar) =~= Seq::<u8>::empty());
        assert(utf16_units(pop_first_scalar(scalar)) == 0);
        assert(char_count(pop_first_scalar(scalar)) == 0);
    }
    lemma_counts_concat(s.take(i), scalar);
    assert(s.take(i + w) =~= s.take(i) + scalar);
}

/// A column `n` in encoding `enc` names byte offset `b` of the line `line`:
/// `b` is a character boundary, and the prefix before it holds exactly `n`
/// units of the encoding (bytes, UTF-16 code units, or codepoints).
pub open spec fn col_ok(enc: Encoding, line: Seq<u8>, n: int, b: int) -> bool {
    match enc {
        Encoding::UTF8 => b == n && 0 <= n <= line.len() && is_char_boundary(line, n),
        Encoding::UTF16 => 0 <= b <= line.len() && is_char_boundary(line, b) && utf16_units(
            line.take(b),
        ) == n,
        Encoding::UTF32 => 0 <= b <= line.len() && is_char_boundary(line, b) && char_count(
            line.take(b),
        ) == n,
    }
}

/// The error reported when column `n` names no byte offset of `line`:
/// out of bounds when it lies past the line's units, between character
/// boundaries otherwise. A UTF-32 column can never fall mid-character.
pub open spec fn col_err(enc: Encoding, line: Seq<u8>, n: int) -> Error {
    match enc {
        Encoding::UTF8 => if n > line.len() {
            Error::OutOfBoundsColumn
        } else {
            Error::InBetweenCharBoundaries { encoding: Encoding::UTF8 }
        },
        Encoding::UTF16 => if n > utf16_units(line) {
            Error::OutOfBoundsColumn
        } else {
            Error::InBetweenCharBoundaries { encoding: Encoding::UTF16 }
        },
        Encoding::UTF32 => Error::OutOfBoundsColumn,
    }
}

/// The column in encoding `enc` of the character boundary `b` of `line`.
pub open spec fn col_of_byte(enc: Encoding, line: Seq<u8>, b: int) -> int {
    match enc {
        Encoding::UTF8 => b,
        Encoding::UTF16 => utf16_units(line.take(b)),
        Encoding::UTF32 => char_count(line.take(b)),
    }
}

/// Between two character boundaries the prefix counts strictly grow.
pub proof fn lemma_counts_monotone(s: Seq<u8>, b1: int, b2: int)
    requires
        valid_utf8(s),
        is_char_boundary(s, b1),
        is_char_boundary(s, b2),
        0 <= b1 <= b2 <= s.len(),
    ensures
        valid_utf8(s.take(b1)),
        utf16_units(s.take(b1)) <= utf16_units(s.take(b2)),
        char_count(s.take(b1)) <= char_count(s.take(b2)),
        b1 < b2 ==> utf16_units(s.take(b1)) < utf16_units(s.take(b2)) && char_count(s.take(b1))
            < char_count(s.take(b2)),
    decreases b2 - b1,
{
    valid_utf8_split(s, b1);
    if b1 < b2 {
        lemma_boundary_scalar(s, b1);
        let w = width_of_lead(s[b1]);
        assert(b1 + w <= b2) by {
            if b2 < b1 + w {
                assert(!is_char_boundary(s, b2));
            }
        }
        lemma_counts_monotone(s, b1 + w, b2);
    }
}

/// The byte length of the scalar led by `b`, read off the leading byte.
fn scalar_width(b: u8) -> (w: usize)
    requires
        1 <= width_of_lead(b),
    ensures
        w as int == width_of_lead(b),
{
    if b < 0x80 {
        1
    } else if b < 0xE0 {
        2
    } else if b < 0xF0 {
        3
    } else {
        4
    }
}

/// Translates a UTF-8 byte column into the byte offset it already is, after
/// validating that it lies on a character boundary of the line.
fn utf8_to_byte(line: &[u8], n: usize) -> (r: Result<usize, Error>)
    requires
        valid_utf8(line@),
    ensures
        match r {
            Ok(b) => col_ok(Encoding::UTF8, line@, n as int, b as int),
            Err(e) => (forall|b: int| !col_ok(Encoding::UTF8, line@, n as int, b)) && e == col_err(
                Encoding::UTF8,
                line@,
                n as int,
            ),
        },
{
    let len = line.len();
    if n > len {
        return Err(Error::OutOfBoundsColumn);
    }
    proof {
        is_char_boundary_start_end_of_seq(line@);
    }
    if n == len {
        return Ok(n);
    }
    let b = line[n];
    proof {
        is_char_boundary_iff_not_is_continuation_byte(line@, n as int);
    }
    if 0x80 <= b && b < 0xC0 {
        Err(Error::InBetweenCharBoundaries { encoding: Encoding::UTF8 })
    } else {
        Ok(n)
    }
}

/// Translates a UTF-16 column into a byte offset by walking the line's
/// scalars and summing their UTF-16 unit counts.
#[verifier::loop_isolation(false)]
fn utf16_to_byte(line: &[u8], n: usize) -> (r: Result<usize, Error>)
    requires
        valid_utf8(line@),
    ensures
        match r {
            Ok(b) => col_ok(Encoding::UTF16, line@, n as int, b as int),
            Err(e) => (forall|b: int| !col_ok(Encoding::UTF16, line@, n as int, b)) && e == col_err(
                Encoding::UTF16,
                line@,
                n as int,
            ),
        },
{
    let len = line.len();
    let mut i: usize = 0;
    let mut acc: usize = 0;
    proof {
        is_char_boundary_start_end_of_seq(line@);
        assert(line@.take(0) =~= Seq::<u8>::empty());
    }
    while i < len && acc < n
        invariant
            0 <= i <= len,
            is_char_boundary(line@, i as int),
            acc == utf16_units(line@.take(i as int)),
            acc <= n,
        decreases len - i,
    {
        let b = line[i];
        proof {
            lemma_boundary_scalar(line@, i as int);
        }
        let w = scalar_width(b);
        if w == 4 {
            if acc + 1 == n {
                proof {
                    lemma_counts_monotone(line@, i as int + 4, len as int);
                    assert(line@.take(len as int) =~= line@);
                    lemma_refute_utf16_col(line@, n as int, i as int);
                }
                return Err(Error::InBetweenCharBoundaries { encoding: Encoding::UTF16 });
            }
            acc = acc + 2;
        } else {
            acc = acc + 1;
        }
        i = i + w;
    }
    if acc == n {
        Ok(i)
    } else {
        proof {
            assert(line@.take(len as int) =~= line@);
            assert(utf16_units(line@) < n);
            assert forall|b: int| !col_ok(Encoding::UTF16, line@, n as int, b) by {
                if 0 <= b <= line@.len() && is_char_boundary(line@, b) {
                    lemma_counts_monotone(line@, b, len as int);
                }
            }
        }
        Err(Error::OutOfBoundsColumn)
    }
}

/// No character boundary of `line` carries exactly `n` UTF-16 units when `n`
/// falls between the two units of the surrogate pair that starts at `i`.
proof fn lemma_refute_utf16_col(line: Seq<u8>, n: int, i: int)
    requires
        valid_utf8(line),
        is_char_boundary(line, i),
        0 <= i < line.len(),
        width_of_lead(line[i]) == 4,
        utf16_units(line.take(i)) == n - 1,
        n <= utf16_units(line),
    ensures
        forall|b: int| !col_ok(Encoding::UTF16, line, n, b),
        col_err(Encoding::UTF16, line, n) == (Error::InBetweenCharBoundaries {
            encoding: Encoding::UTF16,
        }),
{
    lemma_boundary_scalar(line, i);
    assert forall|b: int| !col_ok(Encoding::UTF16, line, n, b) by {
        if 0 <= b <= line.len() && is_char_boundary(line, b) {
            if b <= i {
                lemma_counts_monotone(line, b, i);
            } else if b < i + 4 {
                assert(!is_char_boundary(line, b));
            } else {
                lemma_counts_monotone(line, i + 4, b);
            }
        }
    }
}

/// Translates a UTF-32 column into a byte offset by walking the line's
/// scalars and counting them.
#[verifier::loop_isolation(false)]
fn utf32_to_byte(line: &[u8], n: usize) -> (r: Result<usize, Error>)
    requires
        valid_utf8(line@),
    ensures
        match r {
            Ok(b) => col_ok(Encoding::UTF32, line@, n as int, b as int),
            Err(e) => (forall|b: int| !col_ok(Encoding::UTF32, line@, n as int, b)) && e == col_err(
                Encoding::UTF32,
                line@,
                n as int,
            ),
        },
{
    let len = line.len();
    let mut i: usize = 0;
    let mut cnt: usize = 0;
    proof {
        is_char_boundary_start_end_of_seq(line@);
        assert(line@.take(0) =~= Seq::<u8>::empty());
    }
    while i < len && cnt < n
        invariant
            0 <= i <= len,
            is_char_boundary(line@, i as int),
            cnt == char_count(line@.take(i as int)),
            cnt <= n,
        decreases len - i,
    {
        let b = line[i];
        proof {
            lemma_boundary_scalar(line@, i as int);
        }
        let w = scalar_width(b);
        cnt = cnt + 1;
        i = i + w;
    }
    if cnt == n {
        Ok(i)
    } else {
        proof {
            assert(line@.take(len as int) =~= line@);
            assert(char_count(line@) < n);
            assert forall|b: int| !col_ok(Encoding::UTF32, line@, n as int, b) by {
                if 0 <= b <= line@.len() && is_char_boundary(line@, b) {
                    lemma_counts_monotone(line@, b, len as int);
                }
            }
        }
        Err(Error::OutOfBoundsColumn)
    }
}

/// Translates a column in the given encoding into the byte offset it names
/// within the line, or says exactly why it names none.
pub(crate) fn col_to_byte(enc: Encoding, line: &[u8], n: usize) -> (r: Result<usize, Error>)
    requires
        valid_utf8(line@),
    ensures
        match r {
            Ok(b) => col_ok(enc, line@, n as int, b as int),
            Err(e) => (forall|b: int| !col_ok(enc, line@, n as int, b)) && e == col_err(
                enc,
                line@,
                n as int,
            ),
        },
{
    match enc {
        Encoding::UTF8 => utf8_to_byte(line, n),
        Encoding::UTF16 => utf16_to_byte(line, n),
        Encoding::UTF32 => utf32_to_byte(line, n),
    }
}

/// Translates a UTF-8 byte offset within the line back into a column in the
/// given encoding. Fails when the offset lies past the line or inside the
/// encoding of one character.
#[verifier::loop_isolation(false)]
pub(crate) fn col_from_byte(enc: Encoding, line: &[u8], b: usize) -> (r: Result<usize, Error>)
    requires
        valid_utf8(line@),
    ensures
        match r {
            Ok(u) => b <= line@.len() && is_char_boundary(line@, b as int) && u == col_of_byte(
                enc,
                line@,
                b as int,
            ),
            Err(e) => (b > line@.len() || !is_char_boundary(line@, b as int)) && e == (if b
                > line@.len() {
                Error::OutOfBoundsColumn
            } else {
                Error::InBetweenCharBoundaries { encoding: Encoding::UTF8 }
            }),
        },
{
    let len = line.len();
    if b > len {
        return Err(Error::OutOfBoundsColumn);
    }
    proof {
        is_char_boundary_start_end_of_seq(line@);
    }
    if b < len {
        let lead = line[b];
        proof {
            is_char_boundary_iff_not_is_continuation_byte(line@, b as int);
        }
        if 0x80 <= lead && lead < 0xC0 {
            return Err(Error::InBetweenCharBoundaries { encoding: Encoding::UTF8 });
        }
    }
    match enc {
        Encoding::UTF8 => Ok(b),
        Encoding::UTF16 => {
            let mut i: usize = 0;
            let mut acc: usize = 0;
            proof {
                assert(line@.take(0) =~= Seq::<u8>::empty());
            }
            while i < b
                invariant
                    0 <= i <= b,
                    is_char_boundary(line@, i as int),
                    acc == utf16_units(line@.take(i as int)),
                    acc <= i,
                decreases b - i,
            {
                let lead = line[i];
                proof {
                    lemma_boundary_scalar(line@, i as int);
                    let w = width_of_lead(line@[i as int]);
                    if b < i + w {
                        assert(!is_char_boundary(line@, b as int));
                    }
                }
                let w = scalar_width(lead);
                if w == 4 {
                    acc = acc + 2;
                } else {
                    acc = acc + 1;
                }
                i = i + w;
            }
            Ok(acc)
        },
        Encoding::UTF32 => {
            let mut i: usize = 0;
            let mut cnt: usize = 0;
            proof {
                assert(line@.take(0) =~= Seq::<u8>::empty());
            }
            while i < b
                invariant
                    0 <= i <= b,
                    is_char_boundary(line@, i as int),
                    cnt == char_count(line@.take(i as int)),
                    cnt <= i,
                decreases b - i,
            {
                let lead = line[i];
                proof {
                    lemma_boundary_scalar(line@, i as int);
                    let w = width_of_lead(line@[i as int]);
                    if b < i + w {
                        assert(!is_char_boundary(line@, b as int));
                    }
                }
                let w = scalar_width(lead);
                cnt = cnt + 1;
                i = i + w;
            }
            Ok(cnt)
        },
    }
}

/// The byte offset where the `nth` codepoint of `s` starts.
#[verifier::loop_isolation(false)]
pub fn utf8(s: &str, nth: usize) -> (r: usize)
    requires
        valid_utf8(s.spec_bytes()) ==> nth < char_count(s.spec_bytes()),
    ensures
        r < s.spec_bytes().len(),
        is_char_boundary(s.spec_bytes(), r as int),
        char_count(s.spec_bytes().take(r as int)) == nth,
{
    let bytes = s.as_bytes();
    let len = bytes.len();
    proof {
        vstd::utf8::encode_utf8_valid_utf8(s@);
        is_char_boundary_start_end_of_seq(bytes@);
        assert(bytes@.take(0) =~= Seq::<u8>::empty());
    }
    let mut i: usize = 0;
    let mut cnt: usize = 0;
    while cnt < nth
        invariant
            0 <= i <= len,
            is_char_boundary(bytes@, i as int),
            cnt == char_count(bytes@.take(i as int)),
            cnt <= nth,
        decreases nth - cnt,
    {
        proof {
            assert(i < len) by {
                if i == len {
                    assert(bytes@.take(len as int) =~= bytes@);
                }
            }
            lemma_boundary_scalar(bytes@, i as int);
        }
        let w = scalar_width(bytes[i]);
        cnt = cnt + 1;
        i = i + w;
    }
    proof {
        assert(i < len) by {
            if i == len {
                assert(bytes@.take(len as int) =~= bytes@);
            }
        }
    }
    i
}

/// The byte offset where the `nth` codepoint of `s` starts; `nth` equal to
/// the codepoint count is accepted and names the end of `s`.
#[verifier::loop_isolation(false)]
pub fn utf8_exclusive(s: &str, nth: usize) -> (r: usize)
    requires
        valid_utf8(s.spec_bytes()) ==> nth <= char_count(s.spec_bytes()),
    ensures
        r <= s.spec_bytes().len(),
        is_char_boundary(s.spec_bytes(), r as int),
        char_count(s.spec_bytes().take(r as int)) == nth,
{
    let bytes = s.as_bytes();
    let len = bytes.len();
    proof {
        vstd::utf8::encode_utf8_valid_utf8(s@);
        is_char_boundary_start_end_of_seq(bytes@);
        assert(bytes@.take(0) =~= Seq::<u8>::empty());
    }
    let mut i: usize = 0;
    let mut cnt: usize = 0;
    while cnt < nth
        invariant
            0 <= i <= len,
            is_char_boundary(bytes@, i as int),
            cnt == char_count(bytes@.take(i as int)),
            cnt <= nth,
        decreases nth - cnt,
    {
        proof {
            assert(i < len) by {
                if i == len {
                    assert(bytes@.take(len as int) =~= bytes@);
                    lemma_counts_monotone(bytes@, i as int, len as int);
                }
            }
            lemma_boundary_scalar(bytes@, i as int);
        }
        let w = scalar_width(bytes[i]);
        cnt = cnt + 1;
        i = i + w;
    }
    i
}

/// The byte offset just past the prefix of `s` that holds exactly `nth`
/// UTF-16 code units, when such a prefix ends on a codepoint; 0 for `nth`
/// zero on an empty string; and `nth` itself when `nth` overshoots the
/// string's unit count by exactly one.
#[verifier::loop_isolation(false)]
#[verifier::rlimit(60)]
pub fn utf16_exclusive(s: &str, nth: usize) -> (r: usize)
    requires
        ({
            let t = s.spec_bytes();
            ||| (t.len() == 0 && nth == 0)
            ||| (exists|bb: int|
                0 < bb <= t.len() && #[trigger] is_char_boundary(t, bb) && utf16_units(t.take(bb))
                    == nth)
            ||| nth == utf16_units(t) + 1
        }),
    ensures
        ({
            let t = s.spec_bytes();
            &&& ((t.len() == 0 && nth == 0) ==> r == 0)
            &&& ((exists|bb: int|
                0 < bb <= t.len() && #[trigger] is_char_boundary(t, bb) && utf16_units(t.take(bb))
                    == nth) ==> 0 < r <= t.len() && is_char_boundary(t, r as int) && utf16_units(
                t.take(r as int),
            ) == nth)
            &&& (nth == utf16_units(t) + 1 ==> r == nth)
        }),
{
    let bytes = s.as_bytes();
    let len = bytes.len();
    proof {
        vstd::utf8::encode_utf8_valid_utf8(s@);
        is_char_boundary_start_end_of_seq(bytes@);
        assert(bytes@.take(0) =~= Seq::<u8>::empty());
        assert(bytes@.take(len as int) =~= bytes@);
        lemma_counts_bounds(bytes@);
    }
    if len == 0 {
        proof {
            if nth != 0 {
                assert(nth == 1);
            }
        }
        if nth == 0 {
            return 0;
        }
        return nth;
    }
    proof {
        assert(nth >= 1) by {
            if nth == 0 {
                if exists|bb: int|
                    0 < bb <= bytes@.len() && #[trigger] is_char_boundary(bytes@, bb)
                        && utf16_units(bytes@.take(bb)) == nth {
                    let bb = choose|bb: int|
                        0 < bb <= bytes@.len() && #[trigger] is_char_boundary(bytes@, bb)
                            && utf16_units(bytes@.take(bb)) == nth;
                    lemma_counts_monotone(bytes@, 0, bb);
                }
            }
        }
    }
    let mut i: usize = 0;
    let mut acc: usize = 0;
    while i < len
        invariant
            0 <= i <= len,
            is_char_boundary(bytes@, i as int),
            acc == utf16_units(bytes@.take(i as int)),
            acc < nth,
            acc <= i,
        decreases len - i,
    {
        let b = bytes[i];
        proof {
            lemma_boundary_scalar(bytes@, i as int);
        }
        let w = scalar_width(b);
        let u: usize = if w == 4 {
            2
        } else {
            1
        };
        if u == 2 && nth - acc == 1 {
            proof {
                lemma_counts_monotone(bytes@, i as int + 4, len as int);
                lemma_refute_utf16_col(bytes@, nth as int, i as int);
                assert(false) by {
                    if exists|bb: int|
                        0 < bb <= bytes@.len() && #[trigger] is_char_boundary(bytes@, bb)
                            && utf16_units(bytes@.take(bb)) == nth {
                        let bb = choose|bb: int|
                            0 < bb <= bytes@.len() && #[trigger] is_char_boundary(bytes@, bb)
                                && utf16_units(bytes@.take(bb)) == nth;
                        assert(!col_ok(Encoding::UTF16, bytes@, nth as int, bb));
                    }
                }
            }
            // a surrogate-straddling count is outside this function's domain
            return 0;
        }
        let newacc = acc + u;
        let next = i + w;
        if newacc == nth {
            proof {
                lemma_counts_monotone(bytes@, next as int, len as int);
            }
            return next;
        }
        proof {
            assert(newacc < nth) by {
                if newacc > nth {
                    assert(u == 2 && nth == acc + 1);
                }
            }
        }
        acc = newacc;
        i = next;
    }
    proof {
        assert(acc == utf16_units(bytes@));
        assert forall|bb: int|
            0 < bb <= bytes@.len() && is_char_boundary(bytes@, bb) implies utf16_units(
            bytes@.take(bb),
        ) != nth by {
            lemma_counts_monotone(bytes@, bb, len as int);
        }
    }
    if acc + 1 == nth {
        return nth;
    }
    // a count past the string's units is outside this function's domain
    proof {
        assert(false);
    }
    0
}

} // verus!
