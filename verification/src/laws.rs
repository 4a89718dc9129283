use vstd::prelude::*;
use vstd::utf8::{encode_utf8, is_char_boundary, valid_utf8};

use crate::change::{grid_le, GridIndex};
use crate::encodings::{col_of_byte, col_ok, lemma_counts_monotone};
use crate::eol_indexes::{index_wf, row_start_at};
use crate::error::Encoding;
use crate::lines::{eols, shift_up, trim_eol_len, CR, NL};
use crate::text::{
    br_after_splice, delete_shape, insert_shape, lemma_norm_facts, lemma_row_geometry, line_at,
    replace_full_post, replace_shape, row_slice, row_slice_end, text_after_splice, Text,
};

verus! {

/// Law: row starts strictly increase, and none lies past the end of the text.
pub proof fn law_row_starts_monotone(text: Seq<u8>, br: Seq<usize>, r: int)
    requires
        index_wf(text, br),
        0 <= r < br.len(),
    ensures
        row_start_at(br, r) <= text.len(),
        r + 1 < br.len() ==> row_start_at(br, r) < row_start_at(br, r + 1),
{
    if r > 0 {
        assert(br[r] < text.len());
    }
    if r + 1 < br.len() {
        if r > 0 {
            assert(br[r] < br[r + 1]);
        }
    }
}

/// Law: the row ranges cover the whole text — every byte position lies in the
/// range of exactly the row found by walking back from the last row.
pub proof fn law_row_coverage(text: Seq<u8>, br: Seq<usize>, p: int)
    requires
        index_wf(text, br),
        0 <= p < text.len(),
    ensures
        exists|r: int|
            0 <= r < br.len() && #[trigger] row_start_at(br, r) <= p < row_slice_end(text, br, r),
{
    lemma_find_row(text, br, p, br.len() - 1);
}

proof fn lemma_find_row(text: Seq<u8>, br: Seq<usize>, p: int, r: int)
    requires
        index_wf(text, br),
        0 <= r < br.len(),
        0 <= p < row_slice_end(text, br, r),
    ensures
        exists|r2: int|
            0 <= r2 < br.len() && #[trigger] row_start_at(br, r2) <= p < row_slice_end(text, br, r2),
    decreases r,
{
    if row_start_at(br, r) <= p {
        assert(0 <= r < br.len() && row_start_at(br, r) <= p < row_slice_end(text, br, r));
    } else {
        assert(r >= 1);
        assert(p < row_start_at(br, r));
        assert(row_slice_end(text, br, r - 1) == br[r] + 1);
        lemma_find_row(text, br, p, r - 1);
    }
}

/// Law: translating a column to a byte offset and back yields the column;
/// the byte offset a valid column names is unique.
pub proof fn law_column_round_trip(enc: Encoding, line: Seq<u8>, n: int, b: int)
    requires
        valid_utf8(line),
        col_ok(enc, line, n, b),
    ensures
        col_of_byte(enc, line, b) == n,
{
}

/// Law: translating a character boundary to a column and back names the same
/// boundary.
pub proof fn law_byte_round_trip(enc: Encoding, line: Seq<u8>, b: int)
    requires
        valid_utf8(line),
        is_char_boundary(line, b),
        0 <= b <= line.len(),
    ensures
        col_ok(enc, line, col_of_byte(enc, line, b), b),
{
}

/// Law: a column names at most one byte offset of a line.
pub proof fn law_column_unique(enc: Encoding, line: Seq<u8>, n: int, b1: int, b2: int)
    requires
        valid_utf8(line),
        col_ok(enc, line, n, b1),
        col_ok(enc, line, n, b2),
    ensures
        b1 == b2,
{
    match enc {
        Encoding::UTF8 => {},
        Encoding::UTF16 => {
            if b1 < b2 {
                lemma_counts_monotone(line, b1, b2);
            } else if b2 < b1 {
                lemma_counts_monotone(line, b2, b1);
            }
        },
        Encoding::UTF32 => {
            if b1 < b2 {
                lemma_counts_monotone(line, b1, b2);
            } else if b2 < b1 {
                lemma_counts_monotone(line, b2, b1);
            }
        },
    }
}

/// Law: fully replacing any document with `s` yields the same text and index
/// as constructing a fresh document from `s`.
pub proof fn law_replace_full_like_new(pre: Text, post: Text, fresh: Text, s: Seq<char>)
    requires
        replace_full_post(pre, post, s),
        fresh.text@ == encode_utf8(s),
        fresh.br_indexes@ == seq![0usize] + eols(encode_utf8(s)),
    ensures
        post.text@ == fresh.text@,
        post.br_indexes@ == fresh.br_indexes@,
{
}

/// Law: inserting `ins` at byte `ib` of row `row` and then deleting the byte
/// range it occupies restores the text and the index exactly.
pub proof fn law_insert_delete_round_trip(
    t: Seq<u8>,
    b: Seq<usize>,
    row: int,
    ib: int,
    ins: Seq<u8>,
)
    requires
        index_wf(t, b),
        0 <= row < b.len(),
        row_start_at(b, row) <= ib <= t.len(),
        row + 1 < b.len() ==> ib <= b[row + 1],
        t.len() + ins.len() <= usize::MAX,
        ins.len() <= usize::MAX,
    ensures
        ({
            let nt = text_after_splice(t, ib, ib, ins);
            let nb = br_after_splice(b, row, row, ib, ib, ins);
            let erow = row + eols(ins).len();
            &&& text_after_splice(nt, ib, ib + ins.len(), Seq::<u8>::empty()) == t
            &&& br_after_splice(nb, row, erow, ib, ib + ins.len(), Seq::<u8>::empty()) == b
        }),
{
    let nt = text_after_splice(t, ib, ib, ins);
    let nb = br_after_splice(b, row, row, ib, ib, ins);
    let erow = row + eols(ins).len();
    assert(text_after_splice(nt, ib, ib + ins.len(), Seq::<u8>::empty()) =~= t);
    let back = br_after_splice(nb, row, erow, ib, ib + ins.len(), Seq::<u8>::empty());
    assert(eols(Seq::<u8>::empty()) =~= Seq::<usize>::empty());
    assert(back =~= b) by {
        assert(nb.take(row + 1) =~= b.take(row + 1));
        assert(nb.skip(erow + 1) =~= shift_up(b.skip(row + 1), ins.len() as int));
        assert forall|k: int|
            0 <= k < b.len() - row - 1 implies #[trigger] shift_up(
            shift_up(b.skip(row + 1), ins.len() as int),
            0 - ins.len(),
        )[k] == b.skip(row + 1)[k] by {
            assert(b[row + 1 + k] < t.len());
        }
    }
}

/// The terminator bytes at the end of row `r`'s slice: what `line_at` strips.
pub open spec fn eol_bytes_at(text: Seq<u8>, br: Seq<usize>, r: int) -> Seq<u8> {
    let slice = row_slice(text, br, r);
    slice.skip(slice.len() - trim_eol_len(slice))
}

/// The first `n` row slices of the document, in order.
pub open spec fn concat_rows(text: Seq<u8>, br: Seq<usize>, n: int) -> Seq<u8>
    decreases n,
{
    if n <= 0 {
        Seq::empty()
    } else {
        concat_rows(text, br, n - 1) + row_slice(text, br, n - 1)
    }
}

proof fn lemma_rows_prefix(text: Seq<u8>, br: Seq<usize>, n: int)
    requires
        valid_utf8(text),
        index_wf(text, br),
        1 <= n <= br.len(),
    ensures
        concat_rows(text, br, n) == text.take(row_slice_end(text, br, n - 1)),
    decreases n,
{
    lemma_row_geometry(text, br, n - 1);
    assert(concat_rows(text, br, 0) == Seq::<u8>::empty());
    if n == 1 {
        assert(row_start_at(br, 0) == 0);
        assert(concat_rows(text, br, 1) =~= text.take(row_slice_end(text, br, 0)));
    } else {
        lemma_rows_prefix(text, br, n - 1);
        lemma_row_geometry(text, br, n - 2);
        assert(row_slice_end(text, br, n - 2) == row_start_at(br, n - 1));
        assert(concat_rows(text, br, n) =~= text.take(row_slice_end(text, br, n - 1)));
    }
}

/// Law: the row slices concatenate, in order, to the whole text, and each row
/// slice is the stripped line followed by its stripped terminator.
pub proof fn law_lines_cover_text(text: Seq<u8>, br: Seq<usize>)
    requires
        valid_utf8(text),
        index_wf(text, br),
    ensures
        concat_rows(text, br, br.len() as int) == text,
        forall|r: int|
            0 <= r < br.len() ==> #[trigger] row_slice(text, br, r) == line_at(text, br, r)
                + eol_bytes_at(text, br, r),
{
    lemma_rows_prefix(text, br, br.len() as int);
    assert(text.take(row_slice_end(text, br, br.len() - 1)) =~= text);
    assert forall|r: int|
        0 <= r < br.len() implies #[trigger] row_slice(text, br, r) == line_at(text, br, r)
        + eol_bytes_at(text, br, r) by {
        lemma_row_geometry(text, br, r);
        assert(row_slice(text, br, r) =~= line_at(text, br, r) + eol_bytes_at(text, br, r));
    }
}

/// Two shifts compose, so long as each intermediate value fits the machine.
proof fn lemma_shift_compose(x: Seq<usize>, d1: int, d2: int)
    requires
        forall|k: int|
            0 <= k < x.len() ==> 0 <= (#[trigger] x[k]) + d1 <= usize::MAX && 0 <= x[k] + d1 + d2
                <= usize::MAX,
    ensures
        shift_up(shift_up(x, d1), d2) == shift_up(x, d1 + d2),
{
    assert(shift_up(shift_up(x, d1), d2) =~= shift_up(x, d1 + d2));
}

/// In an index of the form `[0] + low + high` with `low` below `bound` and
/// `high` at or above it, a row bracketed by `bound` sits exactly at the end
/// of `low`.
proof fn lemma_region_count(low: Seq<usize>, high: Seq<usize>, b: Seq<usize>, bound: int, row: int)
    requires
        b == seq![0usize] + low + high,
        forall|k: int| 0 <= k < low.len() ==> (#[trigger] low[k]) < bound,
        forall|k: int| 0 <= k < high.len() ==> bound <= (#[trigger] high[k]),
        0 <= row < b.len(),
        row >= 1 ==> b[row] < bound,
        row + 1 < b.len() ==> bound <= b[row + 1],
    ensures
        low.len() == row,
{
    let np = low.len() as int;
    if row > np {
        assert(b[row] == high[row - 1 - np]);
    }
    if row < np {
        assert(row + 1 < b.len());
        assert(b[row + 1] == low[row]);
    }
}

/// Scanning a three-part concatenation splits into the parts' scans when
/// neither seam splits a `\r\n` pair.
proof fn lemma_eols_three(a: Seq<u8>, b: Seq<u8>, c: Seq<u8>)
    requires
        a.len() + b.len() + c.len() <= usize::MAX,
        !(a.len() > 0 && b.len() > 0 && a[a.len() - 1] == CR && b[0] == NL),
        !(b.len() > 0 && c.len() > 0 && b[b.len() - 1] == CR && c[0] == NL),
        !(b.len() == 0 && a.len() > 0 && c.len() > 0 && a[a.len() - 1] == CR && c[0] == NL),
    ensures
        eols(a + b + c) == eols(a) + shift_up(eols(b), a.len() as int) + shift_up(
            eols(c),
            a.len() as int + b.len() as int,
        ),
{
    crate::lines::lemma_eols_concat(b, c);
    crate::lines::lemma_eols_concat(a, b + c);
    crate::lines::lemma_eols_prefix_sorted(b, b.len() as int);
    crate::lines::lemma_eols_prefix_sorted(c, c.len() as int);
    assert(a + b + c =~= a + (b + c));
    lemma_shift_compose(eols(c), b.len() as int, a.len() as int);
    assert(shift_up(eols(b) + shift_up(eols(c), b.len() as int), a.len() as int) =~= shift_up(
        eols(b),
        a.len() as int,
    ) + shift_up(shift_up(eols(c), b.len() as int), a.len() as int));
}

/// The splice arithmetic behind the rescan law, over abstract entry
/// sequences: `low`, `cut` and `high` are the scanned positions of the kept
/// prefix, the removed range, and the kept suffix; `put` those of the
/// insertion.
#[verifier::spinoff_prover]
#[verifier::rlimit(60)]
proof fn lemma_rescan_core(
    b: Seq<usize>,
    low: Seq<usize>,
    cut: Seq<usize>,
    high: Seq<usize>,
    put: Seq<usize>,
    srow: int,
    erow: int,
    sb: int,
    eb: int,
    inslen: int,
    tlen: int,
)
    requires
        b == seq![0usize] + low + shift_up(cut, sb) + shift_up(high, eb),
        forall|k: int| 0 <= k < low.len() ==> (#[trigger] low[k]) < sb,
        forall|k: int| 0 <= k < cut.len() ==> (#[trigger] cut[k]) < eb - sb,
        forall|k: int| 0 <= k < high.len() ==> (#[trigger] high[k]) < tlen - eb,
        forall|k: int| 0 <= k < put.len() ==> (#[trigger] put[k]) < inslen,
        0 <= sb <= eb <= tlen,
        0 <= inslen,
        tlen + inslen <= usize::MAX,
        0 <= srow <= erow < b.len(),
        srow >= 1 ==> b[srow] < sb,
        srow + 1 < b.len() ==> sb <= b[srow + 1],
        erow >= 1 ==> b[erow] < eb,
        erow + 1 < b.len() ==> eb <= b[erow + 1],
    ensures
        b.take(srow + 1) + shift_up(put, sb) + shift_up(b.skip(erow + 1), inslen - (eb - sb))
            == seq![0usize] + (low + shift_up(put, sb) + shift_up(high, sb + inslen)),
{
    assert(srow == low.len()) by {
        let hi = shift_up(cut, sb) + shift_up(high, eb);
        assert(b =~= seq![0usize] + low + hi);
        assert forall|k: int| 0 <= k < hi.len() implies sb <= (#[trigger] hi[k]) by {
            if k < cut.len() {
                assert(hi[k] == (cut[k] + sb) as usize);
            } else {
                assert(hi[k] == (high[k - cut.len()] + eb) as usize);
            }
        }
        lemma_region_count(low, hi, b, sb, srow);
    }
    assert(erow == low.len() + cut.len()) by {
        let lo = low + shift_up(cut, sb);
        let hi = shift_up(high, eb);
        assert(b =~= seq![0usize] + lo + hi);
        assert forall|k: int| 0 <= k < lo.len() implies (#[trigger] lo[k]) < eb by {
            if k < low.len() {
                assert(lo[k] == low[k]);
            } else {
                assert(lo[k] == (cut[k - low.len()] + sb) as usize);
            }
        }
        assert forall|k: int| 0 <= k < hi.len() implies eb <= (#[trigger] hi[k]) by {
            assert(hi[k] == (high[k] + eb) as usize);
        }
        lemma_region_count(lo, hi, b, eb, erow);
    }
    assert(b.take(srow + 1) =~= seq![0usize] + low);
    assert(b.skip(erow + 1) =~= shift_up(high, eb));
    lemma_shift_compose(high, eb, inslen - (eb - sb));
    assert(shift_up(b.skip(erow + 1), inslen - (eb - sb)) == shift_up(high, sb + inslen));
    assert(b.take(srow + 1) + shift_up(put, sb) + shift_up(b.skip(erow + 1), inslen - (eb - sb))
        =~= seq![0usize] + (low + shift_up(put, sb) + shift_up(high, sb + inslen)));
}

/// Law: when the index equals a fresh scan of the text, a splice whose cut
/// ends and seams do not split a `\r\n` pair leaves the index equal to a
/// fresh scan of the spliced text.
#[verifier::rlimit(60)]
#[verifier::spinoff_prover]
pub proof fn law_splice_rescan(
    t: Seq<u8>,
    b: Seq<usize>,
    srow: int,
    erow: int,
    sb: int,
    eb: int,
    ins: Seq<u8>,
)
    requires
        b == seq![0usize] + eols(t),
        0 <= srow <= erow < b.len(),
        0 <= sb <= eb <= t.len(),
        srow >= 1 ==> b[srow] < sb,
        srow + 1 < b.len() ==> sb <= b[srow + 1],
        erow >= 1 ==> b[erow] < eb,
        erow + 1 < b.len() ==> eb <= b[erow + 1],
        t.len() + ins.len() <= usize::MAX,
        !(0 < sb && sb < t.len() && t[sb - 1] == CR && t[sb] == NL),
        !(0 < eb && eb < t.len() && t[eb - 1] == CR && t[eb] == NL),
        !(sb > 0 && ins.len() > 0 && t[sb - 1] == CR && ins[0] == NL),
        !(ins.len() > 0 && eb < t.len() && ins[ins.len() - 1] == CR && t[eb] == NL),
        !(ins.len() == 0 && sb > 0 && eb < t.len() && t[sb - 1] == CR && t[eb] == NL),
    ensures
        br_after_splice(b, srow, erow, sb, eb, ins) == seq![0usize] + eols(
            text_after_splice(t, sb, eb, ins),
        ),
{
    let pre = t.subrange(0, sb);
    let mid = t.subrange(sb, eb);
    let suf = t.subrange(eb, t.len() as int);
    let ep = eols(pre);
    let em = eols(mid);
    let es = eols(suf);
    let ei = eols(ins);
    // decompose the old scan at the two cut ends
    lemma_eols_three(pre, mid, suf);
    assert(pre + mid + suf =~= t);
    crate::lines::lemma_eols_prefix_sorted(pre, pre.len() as int);
    crate::lines::lemma_eols_prefix_sorted(mid, mid.len() as int);
    crate::lines::lemma_eols_prefix_sorted(suf, suf.len() as int);
    crate::lines::lemma_eols_prefix_sorted(ins, ins.len() as int);
    assert(eols(t) == ep + shift_up(em, sb) + shift_up(es, eb));
    // compose the new scan the same way
    let nt = text_after_splice(t, sb, eb, ins);
    lemma_eols_three(pre, ins, suf);
    assert(pre + ins + suf =~= nt);
    assert(eols(nt) == ep + shift_up(ei, sb) + shift_up(es, sb + ins.len()));
    // the splice arithmetic on the entry sequences
    assert(b =~= seq![0usize] + ep + shift_up(em, sb) + shift_up(es, eb));
    lemma_rescan_core(
        b,
        ep,
        em,
        es,
        ei,
        srow,
        erow,
        sb,
        eb,
        ins.len() as int,
        t.len() as int,
    );
    assert(seq![0usize] + (ep + shift_up(ei, sb) + shift_up(es, sb + ins.len())) =~= seq![0usize]
        + eols(nt));
}

/// Law, at the level of one edit: when the index equals a fresh scan of the
/// text, inserting at a normalized position whose seams do not split a `\r\n`
/// pair leaves the index equal to a fresh scan of the new text.
pub proof fn law_insert_keeps_scan(pre: Text, post: Text, s: Seq<char>, at: GridIndex, q: GridIndex)
    requires
        pre.wf(),
        insert_shape(pre, post, s, at, q, false),
        pre.br_indexes@ == seq![0usize] + eols(pre.text@),
        pre.text@.len() + 1 + encode_utf8(s).len() <= usize::MAX,
        ({
            let t = pre.text@;
            let ins = encode_utf8(s);
            let ib = row_start_at(pre.br_indexes@, q.row as int) + q.col;
            &&& !(ib > 0 && ins.len() > 0 && t[ib - 1] == CR && ins[0] == NL)
            &&& !(ins.len() > 0 && ib < t.len() && ins[ins.len() - 1] == CR && t[ib] == NL)
            &&& !(ins.len() > 0 && 0 < ib && ib < t.len() && t[ib - 1] == CR && t[ib] == NL)
        }),
    ensures
        post.br_indexes@ == seq![0usize] + eols(post.text@),
{
    let t = pre.text@;
    let b = pre.br_indexes@;
    let ins = encode_utf8(s);
    let row = q.row as int;
    let ib = row_start_at(b, row) + q.col;
    lemma_norm_facts(t, b, pre.encoding, at, q, false);
    if ins.len() == 0 {
        assert(post.text@ =~= t);
        assert(eols(ins) =~= Seq::<usize>::empty());
        assert(post.br_indexes@ =~= b) by {
            assert(shift_up(b.skip(row + 1), 0)[0] == b.skip(row + 1)[0] || b.skip(row + 1).len()
                == 0);
            assert(shift_up(b.skip(row + 1), 0) =~= b.skip(row + 1));
        }
    } else {
        law_splice_rescan(t, b, row, row, ib, ib, ins);
    }
}

/// Law, at the level of one edit: when the index equals a fresh scan of the
/// text, a replace between normalized positions whose cut ends and seams do
/// not split a `\r\n` pair leaves the index equal to a fresh scan of the new
/// text. A delete is the case of an empty replacement.
#[verifier::rlimit(60)]
pub proof fn law_replace_keeps_scan(
    pre: Text,
    post: Text,
    s: Seq<char>,
    start: GridIndex,
    end: GridIndex,
    q1: GridIndex,
    q2: GridIndex,
)
    requires
        pre.wf(),
        replace_shape(pre, post, s, start, end, q1, q2, false, false) || (encode_utf8(s).len() == 0
            && delete_shape(pre, post, start, end, q1, q2, false, false)),
        pre.br_indexes@ == seq![0usize] + eols(pre.text@),
        pre.text@.len() + 1 + encode_utf8(s).len() <= usize::MAX,
        ({
            let t = pre.text@;
            let b = pre.br_indexes@;
            let ins = encode_utf8(s);
            let ps = if grid_le(q1, q2) {
                q1
            } else {
                q2
            };
            let pe = if grid_le(q1, q2) {
                q2
            } else {
                q1
            };
            let sb = row_start_at(b, ps.row as int) + ps.col;
            let eb = row_start_at(b, pe.row as int) + pe.col;
            &&& !(0 < sb && sb < t.len() && t[sb - 1] == CR && t[sb] == NL)
            &&& !(0 < eb && eb < t.len() && t[eb - 1] == CR && t[eb] == NL)
            &&& !(sb > 0 && ins.len() > 0 && t[sb - 1] == CR && ins[0] == NL)
            &&& !(ins.len() > 0 && eb < t.len() && ins[ins.len() - 1] == CR && t[eb] == NL)
            &&& !(ins.len() == 0 && sb > 0 && eb < t.len() && t[sb - 1] == CR && t[eb] == NL)
        }),
    ensures
        post.br_indexes@ == seq![0usize] + eols(post.text@),
{
    let t = pre.text@;
    let b = pre.br_indexes@;
    let enc = pre.encoding;
    let ins = encode_utf8(s);
    let ps = if grid_le(q1, q2) {
        q1
    } else {
        q2
    };
    let pe = if grid_le(q1, q2) {
        q2
    } else {
        q1
    };
    let sb = row_start_at(b, ps.row as int) + ps.col;
    let eb = row_start_at(b, pe.row as int) + pe.col;
    lemma_norm_facts(t, b, enc, start, q1, false);
    lemma_norm_facts(t, b, enc, end, q2, false);
    crate::text::lemma_two_positions(t, b, ps, pe);
    law_splice_rescan(t, b, ps.row as int, pe.row as int, sb, eb, ins);
}

} // verus!