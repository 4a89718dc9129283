use vstd::prelude::*;
use vstd::string::StringSliceAdditionalSpecFns;
use vstd::utf8::{
    encode_utf8, encode_utf8_valid_utf8, is_char_boundary,
    is_char_boundary_iff_not_is_continuation_byte, is_char_boundary_start_end_of_seq,
    is_continuation_byte, valid_utf8, valid_utf8_concat, valid_utf8_split,
};

use crate::change::{correct_positions, grid_le, Change, GridIndex};
use crate::encodings::{col_err, col_of_byte, col_ok, col_to_byte, lemma_boundary_scalar, width_of_lead};
use crate::eol_indexes::{
    index_wf, lemma_index_len_bound, lemma_sorted_len_bound, row_start_at, EolIndexes,
};
use crate::error::{Encoding, Error};
use crate::lines::{
    eols, lemma_eols_prefix_sorted, scan_eols, shift_up, trim_eol, trim_eol_len, CR, NL,
};
use crate::splice::splice;
use crate::updateables::{ChangeContext, UpdateContext, Updateable};

verus! {

/// An incremental text buffer: the document bytes, the current end-of-line
/// index, and a snapshot of the index from before the running edit.
///
/// All columns handed to its methods are read in the encoding the buffer was
/// constructed with; internally everything is UTF-8 bytes.
pub struct Text {
    /// The end-of-line byte positions of the text.
    pub br_indexes: EolIndexes,
    /// The end-of-line positions from before the current edit. Holds no
    /// entries until the first edit runs.
    pub old_br_indexes: EolIndexes,
    /// The stored document, as UTF-8 bytes.
    pub text: Vec<u8>,
    /// The encoding that columns handed to this buffer are read in.
    pub encoding: Encoding,
}

/// End of the byte slice of row `r`: one past the row's terminator, or the end
/// of the text for the last row.
pub open spec fn row_slice_end(text: Seq<u8>, br: Seq<usize>, r: int) -> int {
    if r + 1 < br.len() {
        br[r + 1] + 1
    } else {
        text.len() as int
    }
}

/// The byte slice of row `r`, terminator included.
pub open spec fn row_slice(text: Seq<u8>, br: Seq<usize>, r: int) -> Seq<u8> {
    text.subrange(row_start_at(br, r), row_slice_end(text, br, r))
}

/// The line that columns are translated against: the row slice of `r` with
/// its terminator stripped; the last row is taken as it stands.
pub open spec fn norm_line(text: Seq<u8>, br: Seq<usize>, r: int) -> Seq<u8> {
    if r + 1 < br.len() {
        trim_eol(row_slice(text, br, r))
    } else {
        row_slice(text, br, r)
    }
}

/// The line yielded by row lookup and iteration: the row slice of `r` with a
/// trailing terminator stripped, on every row.
pub open spec fn line_at(text: Seq<u8>, br: Seq<usize>, r: int) -> Seq<u8> {
    trim_eol(row_slice(text, br, r))
}

impl Text {
    /// The document is valid UTF-8 and the index is well formed for it.
    pub open spec fn wf(&self) -> bool {
        &&& valid_utf8(self.text@)
        &&& index_wf(self.text@, self.br_indexes@)
    }

    /// The number of rows.
    pub open spec fn row_count_spec(&self) -> int {
        self.br_indexes@.len() as int
    }
}

/// The text after the synthetic extension normalization may perform: one
/// appended newline.
pub open spec fn ext_text(text: Seq<u8>, ext: bool) -> Seq<u8> {
    if ext {
        text.push(NL)
    } else {
        text
    }
}

/// The index after the synthetic extension: one appended entry for the
/// appended newline.
pub open spec fn ext_br(text: Seq<u8>, br: Seq<usize>, ext: bool) -> Seq<usize> {
    if ext {
        br.push(text.len() as usize)
    } else {
        br
    }
}

/// Position `p`, read in encoding `enc` against the document `(text, br)`,
/// normalizes to the byte-column position `q`; `ext` says whether the
/// document grows by one synthetic newline because `p.row` named the row just
/// past the last one.
pub open spec fn norm_ok(
    text: Seq<u8>,
    br: Seq<usize>,
    enc: Encoding,
    p: GridIndex,
    q: GridIndex,
    ext: bool,
) -> bool {
    if (p.row as int) < br.len() {
        &&& !ext
        &&& q.row == p.row
        &&& col_ok(enc, norm_line(text, br, p.row as int), p.col as int, q.col as int)
    } else if p.row as int == br.len() {
        &&& ext
        &&& q.row == p.row
        &&& q.col == 0
        &&& p.col == 0
    } else {
        false
    }
}

/// Whether normalization of `p` succeeds against `(text, br)`.
pub open spec fn norm_some(text: Seq<u8>, br: Seq<usize>, enc: Encoding, p: GridIndex) -> bool {
    exists|q: GridIndex, ext: bool| norm_ok(text, br, enc, p, q, ext)
}

/// The error normalization reports for `p` when it reports one.
pub open spec fn norm_err(text: Seq<u8>, br: Seq<usize>, enc: Encoding, p: GridIndex) -> Error {
    if (p.row as int) < br.len() {
        col_err(enc, norm_line(text, br, p.row as int), p.col as int)
    } else if p.row as int == br.len() {
        col_err(enc, Seq::<u8>::empty(), p.col as int)
    } else {
        Error::OutOfBoundsRow { max: (br.len() - 1) as usize, current: p.row }
    }
}

/// Appending a synthetic newline keeps the document well formed.
pub proof fn lemma_extend_wf(text: Seq<u8>, br: Seq<usize>)
    requires
        valid_utf8(text),
        index_wf(text, br),
        text.len() + 1 <= usize::MAX,
    ensures
        valid_utf8(ext_text(text, true)),
        index_wf(ext_text(text, true), ext_br(text, br, true)),
{
    assert(valid_utf8(seq![NL])) by {
        let s = seq![NL];
        assert(vstd::utf8::valid_first_scalar(s));
        assert(vstd::utf8::length_of_first_scalar(s) == 1);
        assert(vstd::utf8::pop_first_scalar(s) =~= Seq::<u8>::empty());
        assert(valid_utf8(vstd::utf8::pop_first_scalar(s)));
    }
    valid_utf8_concat(text, seq![NL]);
    assert(ext_text(text, true) =~= text + seq![NL]);
    let t = ext_text(text, true);
    let b = ext_br(text, br, true);
    assert forall|k: int|
        1 <= k < b.len() implies #[trigger] b[k] < t.len() && (t[b[k] as int] == NL || t[b[k]
        as int] == CR) by {
        if k < br.len() {
            assert(b[k] == br[k]);
            assert(t[b[k] as int] == text[br[k] as int]);
        } else {
            assert(b[k] == text.len() as usize);
            assert(t[b[k] as int] == NL);
        }
    }
    assert forall|j: int, k: int|
        1 <= j < k < b.len() implies #[trigger] b[j] < #[trigger] b[k] by {
        if k < br.len() {
        } else {
            assert(b[j] == br[j] && br[j] < text.len());
        }
    }
}

/// What a successful normalization means at the byte level: the extended
/// document stays well formed, the normalized position names a character
/// boundary of it, and that byte position never reaches past the row's
/// terminator.
pub proof fn lemma_norm_facts(
    text: Seq<u8>,
    br: Seq<usize>,
    enc: Encoding,
    p: GridIndex,
    q: GridIndex,
    ext: bool,
)
    requires
        valid_utf8(text),
        index_wf(text, br),
        text.len() + 1 <= usize::MAX,
        norm_ok(text, br, enc, p, q, ext),
    ensures
        ({
            let t = ext_text(text, ext);
            let b = ext_br(text, br, ext);
            let rs = row_start_at(b, q.row as int);
            let pos = rs + q.col;
            &&& valid_utf8(t)
            &&& index_wf(t, b)
            &&& (q.row as int) < b.len()
            &&& q.col <= norm_line(t, b, q.row as int).len()
            &&& 0 <= rs
            &&& pos <= t.len()
            &&& is_char_boundary(t, pos)
            &&& ((q.row as int) + 1 < b.len() ==> pos <= b[q.row as int + 1])
        }),
{
    let t = ext_text(text, ext);
    let b = ext_br(text, br, ext);
    if ext {
        lemma_extend_wf(text, br);
        let r = q.row as int;
        assert(r == br.len());
        assert(row_start_at(b, r) == text.len() + 1);
        is_char_boundary_start_end_of_seq(t);
        assert(row_start_at(b, r) + q.col == t.len() as int);
    } else {
        let r = q.row as int;
        lemma_row_geometry(t, b, r);
        let line = norm_line(t, b, r);
        let rs = row_start_at(b, r);
        let pe = rs + line.len();
        // the column lies within the line and on one of its boundaries
        assert(0 <= q.col <= line.len() && is_char_boundary(line, q.col as int)) by {
            match enc {
                Encoding::UTF8 => {},
                Encoding::UTF16 => {},
                Encoding::UTF32 => {},
            }
        }
        // a boundary of the line slice is a boundary of the whole text
        assert(is_char_boundary(t, rs + q.col)) by {
            assert(line == t.subrange(rs, pe));
            assert(is_char_boundary(t.subrange(rs, pe), (rs + q.col) - rs) <==> is_char_boundary(
                t,
                rs + q.col,
            ));
        }
    }
}

/// A subrange of valid UTF-8 text between two character boundaries is valid
/// UTF-8, and its boundaries are the text's boundaries, shifted.
pub proof fn lemma_subrange_valid(text: Seq<u8>, a: int, b: int)
    requires
        valid_utf8(text),
        is_char_boundary(text, a),
        is_char_boundary(text, b),
        0 <= a <= b <= text.len(),
    ensures
        valid_utf8(text.subrange(a, b)),
        forall|j: int|
            a <= j <= b ==> (is_char_boundary(#[trigger] text.subrange(a, b), j - a)
                <==> is_char_boundary(text, j)),
{
    valid_utf8_split(text, a);
    let suf = text.subrange(a, text.len() as int);
    assert(valid_utf8(suf));
    is_char_boundary_start_end_of_seq(suf);
    assert(is_char_boundary(suf, b - a)) by {
        if b < text.len() {
            is_char_boundary_iff_not_is_continuation_byte(text, b);
            assert(suf[b - a] == text[b]);
            is_char_boundary_iff_not_is_continuation_byte(suf, b - a);
        }
    }
    valid_utf8_split(suf, b - a);
    let sub = text.subrange(a, b);
    assert(sub =~= suf.subrange(0, b - a));
    assert(valid_utf8(sub));
    is_char_boundary_start_end_of_seq(sub);
    assert forall|j: int|
        a <= j <= b implies (is_char_boundary(sub, j - a) <==> is_char_boundary(text, j)) by {
        if j == a || j == b {
            is_char_boundary_start_end_of_seq(text);
            if a == 0 || j == b {
            }
        } else {
            assert(sub[j - a] == text[j]);
            is_char_boundary_iff_not_is_continuation_byte(text, j);
            is_char_boundary_iff_not_is_continuation_byte(sub, j - a);
        }
    }
}

/// Geometry of row `r` in a well-formed document: where the row starts and
/// ends, that those places are character boundaries, and that the stripped
/// lines are valid UTF-8 slices of the text.
pub proof fn lemma_row_geometry(text: Seq<u8>, br: Seq<usize>, r: int)
    requires
        valid_utf8(text),
        index_wf(text, br),
        0 <= r < br.len(),
    ensures
        0 <= row_start_at(br, r) <= row_slice_end(text, br, r) <= text.len(),
        is_char_boundary(text, row_start_at(br, r)),
        ({
            let rs = row_start_at(br, r);
            let pe = rs + norm_line(text, br, r).len();
            &&& pe <= text.len()
            &&& is_char_boundary(text, pe)
            &&& (r + 1 < br.len() ==> pe <= br[r + 1])
            &&& norm_line(text, br, r) == text.subrange(rs, pe)
            &&& valid_utf8(norm_line(text, br, r))
            &&& forall|j: int|
                rs <= j <= pe ==> (is_char_boundary(#[trigger] text.subrange(rs, pe), j - rs)
                    <==> is_char_boundary(text, j))
        }),
        ({
            let rs = row_start_at(br, r);
            let le = rs + line_at(text, br, r).len();
            &&& le <= text.len()
            &&& is_char_boundary(text, le)
            &&& line_at(text, br, r) == text.subrange(rs, le)
            &&& valid_utf8(line_at(text, br, r))
        }),
{
    let rs = row_start_at(br, r);
    let se = row_slice_end(text, br, r);
    assert(0 <= rs);
    assert(rs <= se && se <= text.len()) by {
        if r + 1 < br.len() {
            if r == 0 {
            } else {
                assert(br[r] < br[r + 1]);
            }
            assert(br[r + 1] < text.len());
        } else {
            if r > 0 {
                assert(br[r] < text.len());
            }
        }
    }
    is_char_boundary_start_end_of_seq(text);
    assert(is_char_boundary(text, rs)) by {
        if r > 0 {
            let e = br[r] as int;
            assert(text[e] == NL || text[e] == CR);
            assert(!is_continuation_byte(text[e]));
            is_char_boundary_iff_not_is_continuation_byte(text, e);
            lemma_boundary_scalar(text, e);
            assert(width_of_lead(text[e]) == 1);
        }
    }
    let slice = row_slice(text, br, r);
    let tl = trim_eol_len(slice);
    assert(0 <= tl <= slice.len());
    // one terminator byte is always stripped from a terminated row
    assert(r + 1 < br.len() ==> tl >= 1 && slice.len() >= 1) by {
        if r + 1 < br.len() {
            assert(slice.len() == se - rs);
            assert(slice[slice.len() - 1] == text[br[r + 1] as int]);
        }
    }
    // character boundary where the stripped terminator began
    assert forall|t: int| t == rs + se - rs - tl implies is_char_boundary(text, t) by {
        if tl == 0 {
            assert(t == se);
            if r + 1 < br.len() {
                assert(false);
            }
        } else {
            assert(t < se <= text.len());
            assert(text[t] == slice[slice.len() - tl]);
            assert(slice[slice.len() - tl] == NL || slice[slice.len() - tl] == CR);
            assert(!is_continuation_byte(text[t]));
            is_char_boundary_iff_not_is_continuation_byte(text, t);
        }
    }
    let le = rs + line_at(text, br, r).len();
    assert(line_at(text, br, r) =~= text.subrange(rs, le));
    assert(is_char_boundary(text, le));
    lemma_subrange_valid(text, rs, le);
    let pe = rs + norm_line(text, br, r).len();
    if r + 1 < br.len() {
        assert(norm_line(text, br, r) == line_at(text, br, r));
        assert(pe == br[r + 1] + 1 - tl);
        assert(pe <= br[r + 1]);
    } else {
        assert(norm_line(text, br, r) =~= text.subrange(rs, se));
        assert(pe == se);
    }
    assert(norm_line(text, br, r) =~= text.subrange(rs, pe));
    assert(is_char_boundary(text, pe));
    lemma_subrange_valid(text, rs, pe);
}

/// The text after replacing the byte range `[sb, eb)` with `ins`.
pub open spec fn text_after_splice(text: Seq<u8>, sb: int, eb: int, ins: Seq<u8>) -> Seq<u8> {
    text.subrange(0, sb) + ins + text.subrange(eb, text.len() as int)
}

/// The index after replacing the byte range `[sb, eb)`, which spans rows
/// `srow ..= erow`, with `ins`: the entries of the replaced rows give way to
/// the terminators found in `ins`, and the entries of later rows shift by the
/// size difference.
pub open spec fn br_after_splice(
    br: Seq<usize>,
    srow: int,
    erow: int,
    sb: int,
    eb: int,
    ins: Seq<u8>,
) -> Seq<usize> {
    br.take(srow + 1) + shift_up(eols(ins), sb) + shift_up(
        br.skip(erow + 1),
        ins.len() - (eb - sb),
    )
}

/// Splicing bytes between two character boundaries, on a range that starts in
/// row `srow` and ends in row `erow` short of that row's terminator, keeps
/// the document valid UTF-8 and the updated index well formed.
pub proof fn lemma_splice_wf(
    t: Seq<u8>,
    b: Seq<usize>,
    srow: int,
    erow: int,
    sb: int,
    eb: int,
    ins: Seq<u8>,
)
    requires
        valid_utf8(t),
        index_wf(t, b),
        valid_utf8(ins),
        0 <= srow <= erow < b.len(),
        row_start_at(b, srow) <= sb,
        sb <= eb <= t.len(),
        is_char_boundary(t, sb),
        is_char_boundary(t, eb),
        erow + 1 < b.len() ==> eb <= b[erow + 1],
        t.len() - (eb - sb) + ins.len() <= usize::MAX,
    ensures
        ({
            let nt = text_after_splice(t, sb, eb, ins);
            let nb = br_after_splice(b, srow, erow, sb, eb, ins);
            &&& nt.len() == t.len() - (eb - sb) + ins.len()
            &&& valid_utf8(nt)
            &&& index_wf(nt, nb)
        }),
{
    let nt = text_after_splice(t, sb, eb, ins);
    let nb = br_after_splice(b, srow, erow, sb, eb, ins);
    let pre = t.subrange(0, sb);
    let suf = t.subrange(eb, t.len() as int);
    let d = ins.len() - (eb - sb);
    assert(valid_utf8(nt)) by {
        valid_utf8_split(t, sb);
        valid_utf8_split(t, eb);
        valid_utf8_concat(pre, ins);
        valid_utf8_concat(pre + ins, suf);
        assert(nt =~= (pre + ins) + suf);
    }
    lemma_eols_prefix_sorted(ins, ins.len() as int);
    let found = eols(ins);
    assert(forall|k: int| 1 <= k <= srow ==> #[trigger] b[k] < sb) by {
        assert forall|k: int| 1 <= k <= srow implies #[trigger] b[k] < sb by {
            if k < srow {
                assert(b[k] < b[srow]);
            }
            assert(b[srow] < row_start_at(b, srow));
        }
    }
    assert(forall|k: int| erow < k < b.len() ==> eb <= #[trigger] b[k]) by {
        assert forall|k: int| erow < k < b.len() implies eb <= #[trigger] b[k] by {
            if erow + 1 < k {
                assert(b[erow + 1] < b[k]);
            }
        }
    }
    let n1 = srow + 1;
    let n2 = n1 + found.len();
    assert(nb.len() == n2 + b.len() - erow - 1);
    // the three regions of the new index, pointwise
    assert(forall|k: int| 0 <= k < n1 ==> #[trigger] nb[k] == b[k]);
    assert(forall|j: int| 0 <= j < found.len() ==> #[trigger] nb[n1 + j] == (found[j] + sb) as usize);
    assert(forall|j: int|
        0 <= j < b.len() - erow - 1 ==> #[trigger] nb[n2 + j] == (b[erow + 1 + j] + d) as usize);
    // region values stay in range, so the truncating casts are exact
    assert(forall|j: int| 0 <= j < found.len() ==> 0 <= (#[trigger] found[j]) + sb < sb + ins.len());
    assert forall|j: int|
        0 <= j < b.len() - erow - 1 implies sb + ins.len() <= (#[trigger] b[erow + 1 + j]) + d
        < nt.len() by {
        assert(eb <= b[erow + 1 + j] && b[erow + 1 + j] < t.len());
    }
    // every entry after the sentinel marks an end-of-line byte of the new text
    assert forall|k: int|
        1 <= k < nb.len() implies #[trigger] nb[k] < nt.len() && (nt[nb[k] as int] == NL
        || nt[nb[k] as int] == CR) by {
        if k < n1 {
            assert(nb[k] == b[k] && b[k] < sb);
            assert(nt[nb[k] as int] == t[b[k] as int]);
        } else if k < n2 {
            let j = k - n1;
            let v = (found[j] + sb) as int;
            assert(crate::lines::is_eol_at(ins, found[j] as int));
            assert(nt[v] == ins[found[j] as int]);
        } else {
            let j = k - n2;
            let v = (b[erow + 1 + j] + d) as int;
            assert(v - (sb + ins.len()) == b[erow + 1 + j] - eb);
            assert(nt[v] == suf[b[erow + 1 + j] - eb]);
            assert(suf[b[erow + 1 + j] - eb] == t[b[erow + 1 + j] as int]);
        }
    }
    // the entries after the sentinel strictly increase
    assert forall|j: int, k: int|
        1 <= j < k < nb.len() implies #[trigger] nb[j] < #[trigger] nb[k] by {
        if j < n1 && k < n1 {
        } else if j < n1 {
            assert(nb[j] == b[j] && b[j] < sb);
        } else if j < n2 && k < n2 {
            assert(found[j - n1] < found[k - n1]);
        } else if j < n2 {
            assert(nb[j] < sb + ins.len());
        } else {
            assert(b[erow + 1 + (j - n2)] < b[erow + 1 + (k - n2)]);
        }
    }
}

/// A normalized position keeps its meaning when the document is extended by
/// one synthetic newline: its row, byte offset and boundary status carry over.
pub proof fn lemma_position_transfer(t1: Seq<u8>, b1: Seq<usize>, q: GridIndex, x2: bool)
    requires
        valid_utf8(t1),
        index_wf(t1, b1),
        t1.len() + 1 <= usize::MAX,
        (q.row as int) < b1.len(),
        row_start_at(b1, q.row as int) + q.col <= t1.len(),
        is_char_boundary(t1, row_start_at(b1, q.row as int) + q.col),
        (q.row as int) + 1 < b1.len() ==> row_start_at(b1, q.row as int) + q.col <= b1[q.row as int
            + 1],
    ensures
        ({
            let t2 = ext_text(t1, x2);
            let b2 = ext_br(t1, b1, x2);
            let pos = row_start_at(b2, q.row as int) + q.col;
            &&& (q.row as int) < b2.len()
            &&& row_start_at(b2, q.row as int) == row_start_at(b1, q.row as int)
            &&& pos <= t2.len()
            &&& is_char_boundary(t2, pos)
            &&& ((q.row as int) + 1 < b2.len() ==> pos <= b2[q.row as int + 1])
        }),
{
    if x2 {
        lemma_extend_wf(t1, b1);
        let t2 = ext_text(t1, true);
        let b2 = ext_br(t1, b1, true);
        assert(b2[q.row as int] == b1[q.row as int]);
        let pos = row_start_at(b1, q.row as int) + q.col;
        assert(is_char_boundary(t2, pos)) by {
            is_char_boundary_start_end_of_seq(t2);
            if pos < t1.len() {
                is_char_boundary_iff_not_is_continuation_byte(t1, pos);
                assert(t2[pos] == t1[pos]);
                is_char_boundary_iff_not_is_continuation_byte(t2, pos);
            } else if pos == t1.len() {
                assert(t2[pos] == NL);
                assert(!is_continuation_byte(t2[pos]));
                is_char_boundary_iff_not_is_continuation_byte(t2, pos);
            }
        }
        if (q.row as int) + 1 < b2.len() && !((q.row as int) + 1 < b1.len()) {
            assert(b2[q.row as int + 1] == t1.len() as usize);
        }
    }
}

/// Byte positions of two ordered normalized positions: the earlier one's byte
/// offset does not pass the later one's, entries of rows before the range lie
/// below it, and entries of rows after the range lie at or past its end.
pub proof fn lemma_two_positions(t: Seq<u8>, b: Seq<usize>, s: GridIndex, e: GridIndex)
    requires
        valid_utf8(t),
        index_wf(t, b),
        grid_le(s, e),
        (s.row as int) < b.len(),
        (e.row as int) < b.len(),
        (s.row as int) + 1 < b.len() ==> row_start_at(b, s.row as int) + s.col <= b[s.row as int
            + 1],
        (e.row as int) + 1 < b.len() ==> row_start_at(b, e.row as int) + e.col <= b[e.row as int
            + 1],
        row_start_at(b, s.row as int) + s.col <= t.len(),
        row_start_at(b, e.row as int) + e.col <= t.len(),
    ensures
        ({
            let sb = row_start_at(b, s.row as int) + s.col;
            let eb = row_start_at(b, e.row as int) + e.col;
            0 <= sb <= eb <= t.len()
        }),
{
    let sb = row_start_at(b, s.row as int) + s.col;
    let eb = row_start_at(b, e.row as int) + e.col;
    if (s.row as int) < (e.row as int) {
        assert(s.row as int + 1 < b.len() || s.row as int + 1 == e.row as int);
        assert(sb <= b[s.row as int + 1]);
        if s.row as int + 1 < e.row as int {
            assert(b[s.row as int + 1] < b[e.row as int]);
        }
        assert(b[e.row as int] < row_start_at(b, e.row as int));
    }
}

/// The byte length of the text a change carries.
pub open spec fn change_text_len(change: Change) -> int {
    match change {
        Change::Delete { .. } => 0,
        Change::Insert { text, .. } => encode_utf8(text@).len() as int,
        Change::Replace { text, .. } => encode_utf8(text@).len() as int,
        Change::ReplaceFull(text) => encode_utf8(text@).len() as int,
    }
}

/// Exactly what a successful delete of `start .. end` does to the document,
/// for the given normalization witnesses: each position may extend the
/// document by a synthetic newline, the normalized positions are put in
/// order, and the byte range between them is removed from the text while its
/// rows' entries leave the index.
pub open spec fn delete_shape(
    pre: Text,
    post: Text,
    start: GridIndex,
    end: GridIndex,
    q1: GridIndex,
    q2: GridIndex,
    x1: bool,
    x2: bool,
) -> bool {
    let t0 = pre.text@;
    let b0 = pre.br_indexes@;
    let enc = pre.encoding;
    let t1 = ext_text(t0, x1);
    let b1 = ext_br(t0, b0, x1);
    let t2 = ext_text(t1, x2);
    let b2 = ext_br(t1, b1, x2);
    let s = if grid_le(q1, q2) {
        q1
    } else {
        q2
    };
    let e = if grid_le(q1, q2) {
        q2
    } else {
        q1
    };
    let sb = row_start_at(b2, s.row as int) + s.col;
    let eb = row_start_at(b2, e.row as int) + e.col;
    &&& norm_ok(t0, b0, enc, start, q1, x1)
    &&& norm_ok(t1, b1, enc, end, q2, x2)
    &&& post.text@ == text_after_splice(t2, sb, eb, Seq::<u8>::empty())
    &&& post.br_indexes@ == br_after_splice(b2, s.row as int, e.row as int, sb, eb, Seq::<u8>::empty())
    &&& post.old_br_indexes@ == b0
    &&& post.encoding == enc
}

/// A successful delete relates the old and new buffer by [`delete_shape`],
/// for some pair of normalization witnesses.
pub open spec fn delete_post(pre: Text, post: Text, start: GridIndex, end: GridIndex) -> bool {
    exists|q1: GridIndex, q2: GridIndex, x1: bool, x2: bool|
        delete_shape(pre, post, start, end, q1, q2, x1, x2)
}

/// The error a ranged edit reports: the first of its two positions that fails
/// to normalize decides, the second judged against the document as the first
/// may have extended it.
pub open spec fn range_err(pre: Text, start: GridIndex, end: GridIndex, e: Error) -> bool {
    let t0 = pre.text@;
    let b0 = pre.br_indexes@;
    let enc = pre.encoding;
    if !norm_some(t0, b0, enc, start) {
        e == norm_err(t0, b0, enc, start)
    } else {
        exists|q1: GridIndex, x1: bool|
            {
                &&& #[trigger] norm_ok(t0, b0, enc, start, q1, x1)
                &&& !norm_some(ext_text(t0, x1), ext_br(t0, b0, x1), enc, end)
                &&& e == norm_err(ext_text(t0, x1), ext_br(t0, b0, x1), enc, end)
            }
    }
}

/// Exactly what a successful insert of the characters `s` at `at` does to the
/// document, for the given normalization witness: the UTF-8 bytes of `s` go in
/// at the normalized byte position, the terminators found in them join the
/// index after row `at.row`, and every later entry shifts up by the byte
/// count.
pub open spec fn insert_shape(
    pre: Text,
    post: Text,
    s: Seq<char>,
    at: GridIndex,
    q: GridIndex,
    x: bool,
) -> bool {
    let t0 = pre.text@;
    let b0 = pre.br_indexes@;
    let enc = pre.encoding;
    let t1 = ext_text(t0, x);
    let b1 = ext_br(t0, b0, x);
    let sbytes = encode_utf8(s);
    let ib = row_start_at(b1, q.row as int) + q.col;
    &&& norm_ok(t0, b0, enc, at, q, x)
    &&& post.text@ == text_after_splice(t1, ib, ib, sbytes)
    &&& post.br_indexes@ == br_after_splice(b1, q.row as int, q.row as int, ib, ib, sbytes)
    &&& post.old_br_indexes@ == b0
    &&& post.encoding == enc
}

/// A successful insert relates the old and new buffer by [`insert_shape`],
/// for some normalization witness.
pub open spec fn insert_post(pre: Text, post: Text, s: Seq<char>, at: GridIndex) -> bool {
    exists|q: GridIndex, x: bool| insert_shape(pre, post, s, at, q, x)
}

/// Exactly what a successful replace of `start .. end` by the characters `s`
/// does to the document, for the given normalization witnesses.
pub open spec fn replace_shape(
    pre: Text,
    post: Text,
    s: Seq<char>,
    start: GridIndex,
    end: GridIndex,
    q1: GridIndex,
    q2: GridIndex,
    x1: bool,
    x2: bool,
) -> bool {
    let t0 = pre.text@;
    let b0 = pre.br_indexes@;
    let enc = pre.encoding;
    let t1 = ext_text(t0, x1);
    let b1 = ext_br(t0, b0, x1);
    let t2 = ext_text(t1, x2);
    let b2 = ext_br(t1, b1, x2);
    let ps = if grid_le(q1, q2) {
        q1
    } else {
        q2
    };
    let pe = if grid_le(q1, q2) {
        q2
    } else {
        q1
    };
    let sb = row_start_at(b2, ps.row as int) + ps.col;
    let eb = row_start_at(b2, pe.row as int) + pe.col;
    let sbytes = encode_utf8(s);
    &&& norm_ok(t0, b0, enc, start, q1, x1)
    &&& norm_ok(t1, b1, enc, end, q2, x2)
    &&& post.text@ == text_after_splice(t2, sb, eb, sbytes)
    &&& post.br_indexes@ == br_after_splice(b2, ps.row as int, pe.row as int, sb, eb, sbytes)
    &&& post.old_br_indexes@ == b0
    &&& post.encoding == enc
}

/// A successful replace relates the old and new buffer by [`replace_shape`],
/// for some pair of normalization witnesses.
pub open spec fn replace_post(
    pre: Text,
    post: Text,
    s: Seq<char>,
    start: GridIndex,
    end: GridIndex,
) -> bool {
    exists|q1: GridIndex, q2: GridIndex, x1: bool, x2: bool|
        replace_shape(pre, post, s, start, end, q1, q2, x1, x2)
}

/// What a full replacement by the characters `s` does: the document and its
/// index are rebuilt from `s` alone, and the snapshot holds the old index.
pub open spec fn replace_full_post(pre: Text, post: Text, s: Seq<char>) -> bool {
    &&& post.text@ == encode_utf8(s)
    &&& post.br_indexes@ == seq![0usize] + eols(encode_utf8(s))
    &&& post.old_br_indexes@ == pre.br_indexes@
    &&& post.encoding == pre.encoding
}


/// Shifts every position in `v` up by `by`.
fn offset_positions(v: &mut Vec<usize>, by: usize)
    requires
        forall|k: int| 0 <= k < old(v)@.len() ==> (#[trigger] old(v)@[k]) + by <= usize::MAX,
    ensures
        final(v)@ == shift_up(old(v)@, by as int),
{
    let len = v.len();
    let mut i: usize = 0;
    while i < len
        invariant
            0 <= i <= len,
            v@.len() == len,
            len == old(v)@.len(),
            forall|k: int| 0 <= k < old(v)@.len() ==> (#[trigger] old(v)@[k]) + by <= usize::MAX,
            forall|k: int| 0 <= k < i ==> v@[k] == old(v)@[k] + by,
            forall|k: int| i <= k < len ==> v@[k] == old(v)@[k],
        decreases len - i,
    {
        let x = v[i];
        v.set(i, x + by);
        i = i + 1;
    }
    proof {
        assert(v@ =~= shift_up(old(v)@, by as int));
    }
}

impl Text {
    /// Creates a buffer that reads columns as UTF-8 byte offsets.
    pub fn new(text: String) -> (r: Text)
        ensures
            r.wf(),
            r.text@ == encode_utf8(text@),
            r.br_indexes@ == seq![0usize] + eols(encode_utf8(text@)),
            r.old_br_indexes@ == Seq::<usize>::empty(),
            r.encoding == Encoding::UTF8,
    {
        Text::with_encoding(text, Encoding::UTF8)
    }

    /// Creates a buffer that reads columns as UTF-16 code-unit offsets.
    pub fn new_utf16(text: String) -> (r: Text)
        ensures
            r.wf(),
            r.text@ == encode_utf8(text@),
            r.br_indexes@ == seq![0usize] + eols(encode_utf8(text@)),
            r.old_br_indexes@ == Seq::<usize>::empty(),
            r.encoding == Encoding::UTF16,
    {
        Text::with_encoding(text, Encoding::UTF16)
    }

    /// Creates a buffer that reads columns as codepoint offsets.
    pub fn new_utf32(text: String) -> (r: Text)
        ensures
            r.wf(),
            r.text@ == encode_utf8(text@),
            r.br_indexes@ == seq![0usize] + eols(encode_utf8(text@)),
            r.old_br_indexes@ == Seq::<usize>::empty(),
            r.encoding == Encoding::UTF32,
    {
        Text::with_encoding(text, Encoding::UTF32)
    }

    fn with_encoding(text: String, encoding: Encoding) -> (r: Text)
        ensures
            r.wf(),
            r.text@ == encode_utf8(text@),
            r.br_indexes@ == seq![0usize] + eols(encode_utf8(text@)),
            r.old_br_indexes@ == Seq::<usize>::empty(),
            r.encoding == encoding,
    {
        let br_indexes = EolIndexes::new(text.as_str());
        let bytes = text.as_str().as_bytes_vec();
        proof {
            encode_utf8_valid_utf8(text@);
        }
        Text { br_indexes, old_br_indexes: EolIndexes(Vec::new()), text: bytes, encoding }
    }

    /// The byte position where row `nth` starts, or `None` when the row does
    /// not exist.
    pub fn nth_row(&self, nth: usize) -> (r: Option<usize>)
        requires
            self.wf(),
        ensures
            match r {
                Some(v) => (nth as int) < self.br_indexes@.len() && v == row_start_at(
                    self.br_indexes@,
                    nth as int,
                ),
                None => (nth as int) >= self.br_indexes@.len(),
            },
    {
        let tlen = self.text.len();
        proof {
            assert((nth as int) < self.br_indexes@.len() && nth > 0 ==> self.br_indexes@[nth as int]
                < tlen);
        }
        self.br_indexes.row_start(nth)
    }

    /// The bytes of row `nth` with its terminator stripped, or `None` when
    /// the row does not exist.
    pub fn get_row(&self, nth: usize) -> (r: Option<&[u8]>)
        requires
            self.wf(),
        ensures
            match r {
                Some(l) => (nth as int) < self.br_indexes@.len() && l@ == line_at(
                    self.text@,
                    self.br_indexes@,
                    nth as int,
                ),
                None => (nth as int) >= self.br_indexes@.len(),
            },
    {
        let rc = self.br_indexes.row_count();
        if nth >= rc {
            return None;
        }
        let tlen = self.text.len();
        proof {
            lemma_row_geometry(self.text@, self.br_indexes@, nth as int);
            assert(nth > 0 ==> self.br_indexes@[nth as int] < tlen);
            assert((nth as int) + 1 < self.br_indexes@.len() ==> self.br_indexes@[nth as int + 1]
                < tlen);
        }
        let rs = self.br_indexes.row_start(nth).unwrap();
        let se = if nth + 1 < rc {
            self.br_indexes.0[nth + 1] + 1
        } else {
            self.text.len()
        };
        let slice = vstd::slice::slice_subrange(self.text.as_slice(), rs, se);
        Some(crate::lines::trim_eol_from_end(slice))
    }

    /// All rows of the document in order, each with its terminator stripped.
    pub fn lines(&self) -> (r: Vec<&[u8]>)
        requires
            self.wf(),
        ensures
            r@.len() == self.br_indexes@.len(),
            forall|i: int|
                0 <= i < r@.len() ==> #[trigger] r@[i]@ == line_at(
                    self.text@,
                    self.br_indexes@,
                    i,
                ),
    {
        let rc = self.br_indexes.row_count();
        let mut out: Vec<&[u8]> = Vec::new();
        let mut i: usize = 0;
        while i < rc
            invariant
                0 <= i <= rc,
                rc == self.br_indexes@.len(),
                self.wf(),
                out@.len() == i,
                forall|j: int|
                    0 <= j < i ==> #[trigger] out@[j]@ == line_at(
                        self.text@,
                        self.br_indexes@,
                        j,
                    ),
            decreases rc - i,
        {
            let row = self.get_row(i).unwrap();
            out.push(row);
            i = i + 1;
        }
        out
    }

    /// The line of row `row` that columns are translated against.
    pub(crate) fn norm_line_slice(&self, row: usize) -> (r: &[u8])
        requires
            self.wf(),
            (row as int) < self.br_indexes@.len(),
        ensures
            r@ == norm_line(self.text@, self.br_indexes@, row as int),
            valid_utf8(r@),
    {
        let rc = self.br_indexes.row_count();
        let tlen = self.text.len();
        proof {
            lemma_row_geometry(self.text@, self.br_indexes@, row as int);
            assert(row > 0 ==> self.br_indexes@[row as int] < tlen);
            assert((row as int) + 1 < rc ==> self.br_indexes@[row as int + 1] < tlen);
        }
        let rs = self.br_indexes.row_start(row).unwrap();
        if row + 1 < rc {
            let se = self.br_indexes.0[row + 1] + 1;
            let slice = vstd::slice::slice_subrange(self.text.as_slice(), rs, se);
            crate::lines::trim_eol_from_end(slice)
        } else {
            let slice = vstd::slice::slice_subrange(self.text.as_slice(), rs, tlen);
            proof {
                assert(slice@ =~= norm_line(self.text@, self.br_indexes@, row as int));
            }
            slice
        }
    }

    /// Deletes the text between `start` and `end`, the end exclusive, keeping
    /// the index in step. The positions are read in the buffer's encoding and
    /// swapped if given in reverse order; the observer hears of the change
    /// before the bytes move. On an error the document is untouched.
    #[verifier::rlimit(100)]
    pub fn delete<U: Updateable>(
        &mut self,
        start: GridIndex,
        end: GridIndex,
        updateable: &mut U,
    ) -> (r: Result<(), Error>)
        requires
            old(self).wf(),
            old(self).text@.len() + 2 <= usize::MAX,
        ensures
            final(self).wf(),
            final(self).encoding == old(self).encoding,
            final(self).old_br_indexes@ == old(self).br_indexes@,
            match r {
                Ok(()) => delete_post(*old(self), *final(self), start, end),
                Err(e) => {
                    &&& final(self).text@ == old(self).text@
                    &&& final(self).br_indexes@ == old(self).br_indexes@
                    &&& range_err(*old(self), start, end, e)
                },
            },
    {
        self.update_prep();
        let ghost t0 = old(self).text@;
        let ghost b0 = old(self).br_indexes@;
        let ghost enc = old(self).encoding;
        let rc0 = self.br_indexes.row_count();
        let mut s = start;
        let mut e = end;
        match s.normalize(self) {
            Err(err) => {
                return Err(err);
            },
            Ok(()) => {},
        }
        let ghost x1 = choose|x: bool|
            norm_ok(t0, b0, enc, start, s, x) && self.text@ == ext_text(t0, x)
                && self.br_indexes@ == ext_br(t0, b0, x);
        let ghost q1 = s;
        let ghost t1 = ext_text(t0, x1);
        let ghost b1 = ext_br(t0, b0, x1);
        match e.normalize(self) {
            Err(err) => {
                proof {
                    assert(x1 <==> s.row == rc0);
                }
                if s.row == rc0 {
                    // take back the synthetic newline the first position added
                    let _ = self.text.pop();
                    let _ = self.br_indexes.0.pop();
                    proof {
                        assert(self.text@ =~= t0);
                        assert(self.br_indexes@ =~= b0);
                    }
                }
                return Err(err);
            },
            Ok(()) => {},
        }
        let ghost x2 = choose|x: bool|
            norm_ok(t1, b1, enc, end, e, x) && self.text@ == ext_text(t1, x)
                && self.br_indexes@ == ext_br(t1, b1, x);
        let ghost q2 = e;
        let ghost t2 = ext_text(t1, x2);
        let ghost b2 = ext_br(t1, b1, x2);
        proof {
            lemma_norm_facts(t0, b0, enc, start, q1, x1);
            lemma_norm_facts(t1, b1, enc, end, q2, x2);
            lemma_position_transfer(t1, b1, q1, x2);
        }
        correct_positions(&mut s, &mut e);
        self.apply_delete(s, e, updateable);
        proof {
            assert(delete_shape(*old(self), *self, start, end, q1, q2, x1, x2));
        }
        Ok(())
    }

    /// The core of a delete, once both positions are normalized byte-column
    /// positions in document order.
    #[verifier::spinoff_prover]
    fn apply_delete<U: Updateable>(&mut self, s: GridIndex, e: GridIndex, updateable: &mut U)
        requires
            old(self).wf(),
            grid_le(s, e),
            (s.row as int) < old(self).br_indexes@.len(),
            (e.row as int) < old(self).br_indexes@.len(),
            (s.row as int) + 1 < old(self).br_indexes@.len() ==> row_start_at(
                old(self).br_indexes@,
                s.row as int,
            ) + s.col <= old(self).br_indexes@[s.row as int + 1],
            (e.row as int) + 1 < old(self).br_indexes@.len() ==> row_start_at(
                old(self).br_indexes@,
                e.row as int,
            ) + e.col <= old(self).br_indexes@[e.row as int + 1],
            row_start_at(old(self).br_indexes@, s.row as int) + s.col <= old(self).text@.len(),
            row_start_at(old(self).br_indexes@, e.row as int) + e.col <= old(self).text@.len(),
            is_char_boundary(
                old(self).text@,
                row_start_at(old(self).br_indexes@, s.row as int) + s.col,
            ),
            is_char_boundary(
                old(self).text@,
                row_start_at(old(self).br_indexes@, e.row as int) + e.col,
            ),
        ensures
            final(self).wf(),
            final(self).encoding == old(self).encoding,
            final(self).old_br_indexes == old(self).old_br_indexes,
            ({
                let sb = row_start_at(old(self).br_indexes@, s.row as int) + s.col;
                let eb = row_start_at(old(self).br_indexes@, e.row as int) + e.col;
                &&& final(self).text@ == text_after_splice(
                    old(self).text@,
                    sb,
                    eb,
                    Seq::<u8>::empty(),
                )
                &&& final(self).br_indexes@ == br_after_splice(
                    old(self).br_indexes@,
                    s.row as int,
                    e.row as int,
                    sb,
                    eb,
                    Seq::<u8>::empty(),
                )
            }),
    {
        let ghost t2 = old(self).text@;
        let ghost b2 = old(self).br_indexes@;
        let tlen = self.text.len();
        proof {
            lemma_two_positions(t2, b2, s, e);
            assert(s.row > 0 ==> b2[s.row as int] < tlen);
            assert(e.row > 0 ==> b2[e.row as int] < tlen);
        }
        let row_start_s = self.br_indexes.row_start(s.row).unwrap();
        let row_start_e = self.br_indexes.row_start(e.row).unwrap();
        let start_byte = row_start_s + s.col;
        let end_byte = row_start_e + e.col;
        proof {
            assert(valid_utf8(Seq::<u8>::empty())) by {
                assert(Seq::<u8>::empty().len() == 0);
            }
            lemma_splice_wf(
                t2,
                b2,
                s.row as int,
                e.row as int,
                start_byte as int,
                end_byte as int,
                Seq::<u8>::empty(),
            );
        }
        self.br_indexes.remove_indexes(s.row, e.row);
        proof {
            assert(self.br_indexes@ =~= b2.take(s.row as int + 1) + b2.skip(e.row as int + 1));
            assert forall|k: int|
                (s.row as int) < k < self.br_indexes@.len() implies end_byte - start_byte
                <= #[trigger] self.br_indexes@[k] by {
                assert(self.br_indexes@[k] == b2[k + e.row - s.row]);
                assert(end_byte <= b2[k + e.row - s.row]);
            }
        }
        self.br_indexes.sub_offsets(s.row, end_byte - start_byte);
        proof {
            assert(eols(Seq::<u8>::empty()) =~= Seq::<usize>::empty());
            assert(self.br_indexes@ =~= br_after_splice(
                b2,
                s.row as int,
                e.row as int,
                start_byte as int,
                end_byte as int,
                Seq::<u8>::empty(),
            ));
        }
        let none_s: Vec<u8> = Vec::new();
        updateable.update(
            UpdateContext {
                change: ChangeContext::Delete { start: s, end: e },
                breaklines: &self.br_indexes,
                old_breaklines: &self.old_br_indexes,
                old_str: self.text.as_slice(),
            },
        );
        splice(&mut self.text, start_byte, end_byte, none_s.as_slice());
        proof {
            assert(self.text@ =~= text_after_splice(
                t2,
                start_byte as int,
                end_byte as int,
                Seq::<u8>::empty(),
            ));
        }
    }

    /// Inserts `s` at the position `at`, read in the buffer's encoding, and
    /// keeps the index in step. The observer hears of the change before the
    /// bytes move. On an error the document is untouched.
    pub fn insert<U: Updateable>(&mut self, s: &str, at: GridIndex, updateable: &mut U) -> (r:
        Result<(), Error>)
        requires
            old(self).wf(),
            old(self).text@.len() + 2 + encode_utf8(s@).len() <= usize::MAX,
        ensures
            final(self).wf(),
            final(self).encoding == old(self).encoding,
            final(self).old_br_indexes@ == old(self).br_indexes@,
            match r {
                Ok(()) => insert_post(*old(self), *final(self), s@, at),
                Err(e) => {
                    &&& final(self).text@ == old(self).text@
                    &&& final(self).br_indexes@ == old(self).br_indexes@
                    &&& !norm_some(
                        old(self).text@,
                        old(self).br_indexes@,
                        old(self).encoding,
                        at,
                    )
                    &&& e == norm_err(
                        old(self).text@,
                        old(self).br_indexes@,
                        old(self).encoding,
                        at,
                    )
                },
            },
    {
        self.update_prep();
        let ghost t0 = old(self).text@;
        let ghost b0 = old(self).br_indexes@;
        let ghost enc = old(self).encoding;
        let mut pos = at;
        match pos.normalize(self) {
            Err(err) => {
                return Err(err);
            },
            Ok(()) => {},
        }
        let ghost x = choose|x: bool|
            norm_ok(t0, b0, enc, at, pos, x) && self.text@ == ext_text(t0, x)
                && self.br_indexes@ == ext_br(t0, b0, x);
        let ghost q = pos;
        proof {
            lemma_norm_facts(t0, b0, enc, at, q, x);
        }
        self.apply_insert(s, pos, updateable);
        proof {
            assert(insert_shape(*old(self), *self, s@, at, q, x));
        }
        Ok(())
    }

    /// The core of an insert, once the position is a normalized byte-column
    /// position.
    #[verifier::spinoff_prover]
    #[verifier::rlimit(100)]
    fn apply_insert<U: Updateable>(&mut self, s: &str, at: GridIndex, updateable: &mut U)
        requires
            old(self).wf(),
            (at.row as int) < old(self).br_indexes@.len(),
            (at.row as int) + 1 < old(self).br_indexes@.len() ==> row_start_at(
                old(self).br_indexes@,
                at.row as int,
            ) + at.col <= old(self).br_indexes@[at.row as int + 1],
            row_start_at(old(self).br_indexes@, at.row as int) + at.col <= old(self).text@.len(),
            is_char_boundary(
                old(self).text@,
                row_start_at(old(self).br_indexes@, at.row as int) + at.col,
            ),
            old(self).text@.len() + 1 + encode_utf8(s@).len() <= usize::MAX,
        ensures
            final(self).wf(),
            final(self).encoding == old(self).encoding,
            final(self).old_br_indexes == old(self).old_br_indexes,
            ({
                let ib = row_start_at(old(self).br_indexes@, at.row as int) + at.col;
                &&& final(self).text@ == text_after_splice(
                    old(self).text@,
                    ib,
                    ib,
                    encode_utf8(s@),
                )
                &&& final(self).br_indexes@ == br_after_splice(
                    old(self).br_indexes@,
                    at.row as int,
                    at.row as int,
                    ib,
                    ib,
                    encode_utf8(s@),
                )
            }),
    {
        let ghost t1 = old(self).text@;
        let ghost b1 = old(self).br_indexes@;
        let bytes = s.as_bytes();
        let ghost sbytes = s.spec_bytes();
        let slen = bytes.len();
        let tlen = self.text.len();
        proof {
            encode_utf8_valid_utf8(s@);
            assert(at.row > 0 ==> b1[at.row as int] < tlen);
        }
        let row_start = self.br_indexes.row_start(at.row).unwrap();
        let insert_byte = row_start + at.col;
        proof {
            lemma_splice_wf(
                t1,
                b1,
                at.row as int,
                at.row as int,
                insert_byte as int,
                insert_byte as int,
                sbytes,
            );
            lemma_eols_prefix_sorted(sbytes, sbytes.len() as int);
        }
        let mut found = scan_eols(bytes);
        let flen = found.len();
        proof {
            assert(forall|k: int|
                0 <= k < found@.len() ==> (#[trigger] found@[k]) + insert_byte <= usize::MAX) by {
                assert(forall|k: int|
                    0 <= k < eols(sbytes).len() ==> #[trigger] eols(sbytes)[k] < slen);
            }
        }
        offset_positions(&mut found, insert_byte);
        proof {
            lemma_index_len_bound(t1, b1);
            assert(forall|j: int, k: int|
                0 <= j < k < eols(sbytes).len() ==> #[trigger] eols(sbytes)[j]
                    < #[trigger] eols(sbytes)[k]);
            assert(forall|j: int| 0 <= j < eols(sbytes).len() ==> #[trigger] eols(sbytes)[j] < slen);
            lemma_sorted_len_bound(eols(sbytes), sbytes.len() as int);
        }
        let blen = self.br_indexes.0.len();
        proof {
            assert(blen + flen <= usize::MAX);
        }
        self.br_indexes.add_offsets(at.row, slen);
        self.br_indexes.insert_indexes(at.row + 1, found.as_slice());
        proof {
            assert(self.br_indexes@ =~= br_after_splice(
                b1,
                at.row as int,
                at.row as int,
                insert_byte as int,
                insert_byte as int,
                sbytes,
            ));
        }
        updateable.update(
            UpdateContext {
                change: ChangeContext::Insert {
                    inserted_br_indexes: found.as_slice(),
                    position: at,
                    text: bytes,
                },
                breaklines: &self.br_indexes,
                old_breaklines: &self.old_br_indexes,
                old_str: self.text.as_slice(),
            },
        );
        splice(&mut self.text, insert_byte, insert_byte, bytes);
        proof {
            assert(self.text@ =~= text_after_splice(
                t1,
                insert_byte as int,
                insert_byte as int,
                sbytes,
            ));
        }
    }

    /// Replaces the text between `start` and `end`, the end exclusive, with
    /// `s`, keeping the index in step; the text bytes are shifted at most
    /// once. The observer hears of the change before the bytes move. On an
    /// error the document is untouched.
    pub fn replace<U: Updateable>(
        &mut self,
        s: &str,
        start: GridIndex,
        end: GridIndex,
        updateable: &mut U,
    ) -> (r: Result<(), Error>)
        requires
            old(self).wf(),
            old(self).text@.len() + 3 + encode_utf8(s@).len() <= usize::MAX,
        ensures
            final(self).wf(),
            final(self).encoding == old(self).encoding,
            final(self).old_br_indexes@ == old(self).br_indexes@,
            match r {
                Ok(()) => replace_post(*old(self), *final(self), s@, start, end),
                Err(e) => {
                    &&& final(self).text@ == old(self).text@
                    &&& final(self).br_indexes@ == old(self).br_indexes@
                    &&& range_err(*old(self), start, end, e)
                },
            },
    {
        self.update_prep();
        let ghost t0 = old(self).text@;
        let ghost b0 = old(self).br_indexes@;
        let ghost enc = old(self).encoding;
        let rc0 = self.br_indexes.row_count();
        let mut ps = start;
        let mut pe = end;
        match ps.normalize(self) {
            Err(err) => {
                return Err(err);
            },
            Ok(()) => {},
        }
        let ghost x1 = choose|x: bool|
            norm_ok(t0, b0, enc, start, ps, x) && self.text@ == ext_text(t0, x)
                && self.br_indexes@ == ext_br(t0, b0, x);
        let ghost q1 = ps;
        let ghost t1 = ext_text(t0, x1);
        let ghost b1 = ext_br(t0, b0, x1);
        match pe.normalize(self) {
            Err(err) => {
                proof {
                    assert(x1 <==> ps.row == rc0);
                }
                if ps.row == rc0 {
                    // take back the synthetic newline the first position added
                    let _ = self.text.pop();
                    let _ = self.br_indexes.0.pop();
                    proof {
                        assert(self.text@ =~= t0);
                        assert(self.br_indexes@ =~= b0);
                    }
                }
                return Err(err);
            },
            Ok(()) => {},
        }
        let ghost x2 = choose|x: bool|
            norm_ok(t1, b1, enc, end, pe, x) && self.text@ == ext_text(t1, x)
                && self.br_indexes@ == ext_br(t1, b1, x);
        let ghost q2 = pe;
        proof {
            lemma_norm_facts(t0, b0, enc, start, q1, x1);
            lemma_norm_facts(t1, b1, enc, end, q2, x2);
            lemma_position_transfer(t1, b1, q1, x2);
        }
        correct_positions(&mut ps, &mut pe);
        self.apply_replace(s, ps, pe, updateable);
        proof {
            assert(replace_shape(*old(self), *self, s@, start, end, q1, q2, x1, x2));
        }
        Ok(())
    }

    /// The core of a replace, once both positions are normalized byte-column
    /// positions in document order.
    #[verifier::spinoff_prover]
    #[verifier::rlimit(100)]
    fn apply_replace<U: Updateable>(
        &mut self,
        s: &str,
        ps: GridIndex,
        pe: GridIndex,
        updateable: &mut U,
    )
        requires
            old(self).wf(),
            grid_le(ps, pe),
            (ps.row as int) < old(self).br_indexes@.len(),
            (pe.row as int) < old(self).br_indexes@.len(),
            (ps.row as int) + 1 < old(self).br_indexes@.len() ==> row_start_at(
                old(self).br_indexes@,
                ps.row as int,
            ) + ps.col <= old(self).br_indexes@[ps.row as int + 1],
            (pe.row as int) + 1 < old(self).br_indexes@.len() ==> row_start_at(
                old(self).br_indexes@,
                pe.row as int,
            ) + pe.col <= old(self).br_indexes@[pe.row as int + 1],
            row_start_at(old(self).br_indexes@, ps.row as int) + ps.col <= old(self).text@.len(),
            row_start_at(old(self).br_indexes@, pe.row as int) + pe.col <= old(self).text@.len(),
            is_char_boundary(
                old(self).text@,
                row_start_at(old(self).br_indexes@, ps.row as int) + ps.col,
            ),
            is_char_boundary(
                old(self).text@,
                row_start_at(old(self).br_indexes@, pe.row as int) + pe.col,
            ),
            old(self).text@.len() + 1 + encode_utf8(s@).len() <= usize::MAX,
        ensures
            final(self).wf(),
            final(self).encoding == old(self).encoding,
            final(self).old_br_indexes == old(self).old_br_indexes,
            ({
                let sb = row_start_at(old(self).br_indexes@, ps.row as int) + ps.col;
                let eb = row_start_at(old(self).br_indexes@, pe.row as int) + pe.col;
                &&& final(self).text@ == text_after_splice(old(self).text@, sb, eb, encode_utf8(s@))
                &&& final(self).br_indexes@ == br_after_splice(
                    old(self).br_indexes@,
                    ps.row as int,
                    pe.row as int,
                    sb,
                    eb,
                    encode_utf8(s@),
                )
            }),
    {
        let ghost t2 = old(self).text@;
        let ghost b2 = old(self).br_indexes@;
        let bytes = s.as_bytes();
        let ghost sbytes = s.spec_bytes();
        let slen = bytes.len();
        let tlen = self.text.len();
        proof {
            encode_utf8_valid_utf8(s@);
            lemma_two_positions(t2, b2, ps, pe);
            assert(ps.row > 0 ==> b2[ps.row as int] < tlen);
            assert(pe.row > 0 ==> b2[pe.row as int] < tlen);
        }
        let row_start_s = self.br_indexes.row_start(ps.row).unwrap();
        let row_start_e = self.br_indexes.row_start(pe.row).unwrap();
        let start_byte = row_start_s + ps.col;
        let end_byte = row_start_e + pe.col;
        let old_len = end_byte - start_byte;
        proof {
            lemma_splice_wf(
                t2,
                b2,
                ps.row as int,
                pe.row as int,
                start_byte as int,
                end_byte as int,
                sbytes,
            );
            lemma_eols_prefix_sorted(sbytes, sbytes.len() as int);
            assert forall|k: int|
                (pe.row as int) < k < b2.len() implies end_byte <= #[trigger] b2[k] by {
                if (pe.row as int) + 1 < k {
                    assert(b2[pe.row as int + 1] < b2[k]);
                }
            }
        }
        if old_len < slen {
            self.br_indexes.add_offsets(pe.row, slen - old_len);
        } else if old_len > slen {
            self.br_indexes.sub_offsets(pe.row, old_len - slen);
        }
        let mut found = scan_eols(bytes);
        let flen = found.len();
        proof {
            assert(forall|k: int|
                0 <= k < found@.len() ==> (#[trigger] found@[k]) + start_byte <= usize::MAX) by {
                assert(forall|k: int|
                    0 <= k < eols(sbytes).len() ==> #[trigger] eols(sbytes)[k] < slen);
            }
        }
        offset_positions(&mut found, start_byte);
        proof {
            lemma_index_len_bound(t2, b2);
            assert(forall|j: int, k: int|
                0 <= j < k < eols(sbytes).len() ==> #[trigger] eols(sbytes)[j]
                    < #[trigger] eols(sbytes)[k]);
            assert(forall|j: int| 0 <= j < eols(sbytes).len() ==> #[trigger] eols(sbytes)[j] < slen);
            lemma_sorted_len_bound(eols(sbytes), sbytes.len() as int);
        }
        let blen = self.br_indexes.0.len();
        proof {
            assert(blen + flen <= usize::MAX);
        }
        self.br_indexes.replace_indexes(ps.row, pe.row, found.as_slice());
        proof {
            assert(self.br_indexes@ =~= br_after_splice(
                b2,
                ps.row as int,
                pe.row as int,
                start_byte as int,
                end_byte as int,
                sbytes,
            ));
        }
        updateable.update(
            UpdateContext {
                change: ChangeContext::Replace {
                    start: ps,
                    end: pe,
                    text: bytes,
                    inserted_br_indexes: found.as_slice(),
                },
                breaklines: &self.br_indexes,
                old_breaklines: &self.old_br_indexes,
                old_str: self.text.as_slice(),
            },
        );
        splice(&mut self.text, start_byte, end_byte, bytes);
        proof {
            assert(self.text@ =~= text_after_splice(
                t2,
                start_byte as int,
                end_byte as int,
                sbytes,
            ));
        }
    }

    /// Replaces the whole document with `s`, rebuilding the index by a full
    /// scan. The observer still sees the old text and old index.
    pub fn replace_full<U: Updateable>(&mut self, s: &str, updateable: &mut U) -> (r: Result<
        (),
        Error,
    >)
        ensures
            final(self).wf(),
            replace_full_post(*old(self), *final(self), s@),
            r == Ok::<(), Error>(()),
    {
        self.update_prep();
        self.br_indexes = EolIndexes::new(s);
        let bytes = s.as_bytes();
        updateable.update(
            UpdateContext {
                change: ChangeContext::ReplaceFull { text: bytes },
                breaklines: &self.br_indexes,
                old_breaklines: &self.old_br_indexes,
                old_str: self.text.as_slice(),
            },
        );
        let tlen = self.text.len();
        let blen = bytes.len();
        proof {
            encode_utf8_valid_utf8(s@);
            assert(blen <= usize::MAX);
        }
        splice(&mut self.text, 0, tlen, bytes);
        proof {
            assert(self.text@ =~= s.spec_bytes());
        }
        Ok(())
    }

    /// Performs one change on the document, dispatching on its kind. The
    /// positions carried by the change are read in the buffer's encoding.
    pub fn update<U: Updateable>(&mut self, change: Change, updateable: &mut U) -> (r: Result<
        (),
        Error,
    >)
        requires
            old(self).wf(),
            old(self).text@.len() + 3 + change_text_len(change) <= usize::MAX,
        ensures
            final(self).wf(),
            final(self).encoding == old(self).encoding,
            match change {
                Change::Delete { start, end } => match r {
                    Ok(()) => delete_post(*old(self), *final(self), start, end),
                    Err(e) => final(self).text@ == old(self).text@ && final(self).br_indexes@
                        == old(self).br_indexes@ && range_err(*old(self), start, end, e),
                },
                Change::Insert { at, text } => match r {
                    Ok(()) => insert_post(*old(self), *final(self), text@, at),
                    Err(e) => final(self).text@ == old(self).text@ && final(self).br_indexes@
                        == old(self).br_indexes@ && !norm_some(
                        old(self).text@,
                        old(self).br_indexes@,
                        old(self).encoding,
                        at,
                    ) && e == norm_err(
                        old(self).text@,
                        old(self).br_indexes@,
                        old(self).encoding,
                        at,
                    ),
                },
                Change::Replace { start, end, text } => match r {
                    Ok(()) => replace_post(*old(self), *final(self), text@, start, end),
                    Err(e) => final(self).text@ == old(self).text@ && final(self).br_indexes@
                        == old(self).br_indexes@ && range_err(*old(self), start, end, e),
                },
                Change::ReplaceFull(text) => r == Ok::<(), Error>(()) && replace_full_post(
                    *old(self),
                    *final(self),
                    text@,
                ),
            },
    {
        match change {
            Change::Delete { start, end } => self.delete(start, end, updateable),
            Change::Insert { at, text } => self.insert(text.as_str(), at, updateable),
            Change::Replace { start, end, text } => self.replace(
                text.as_str(),
                start,
                end,
                updateable,
            ),
            Change::ReplaceFull(text) => self.replace_full(text.as_str(), updateable),
        }
    }

    /// Saves the current index as the pre-edit snapshot.
    fn update_prep(&mut self)
        ensures
            final(self).old_br_indexes@ == old(self).br_indexes@,
            final(self).br_indexes == old(self).br_indexes,
            final(self).text == old(self).text,
            final(self).encoding == old(self).encoding,
    {
        self.old_br_indexes.copy_from(&self.br_indexes);
    }
}

} // verus!
