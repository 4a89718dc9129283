use vstd::prelude::*;
use vstd::utf8::is_char_boundary;

use crate::encodings::{char_count, col_from_byte, col_of_byte, col_to_byte, utf16_units};
use crate::error::{Encoding, Error};
use crate::lines::NL;
use crate::text::{
    ext_br, ext_text, lemma_extend_wf, norm_err, norm_line, norm_ok, norm_some, Text,
};

verus! {

/// Editor coordinates: a zero-based row index and a column counted in the
/// units of the document's encoding (bytes, UTF-16 units, or codepoints).
#[derive(Clone, Copy, Debug, PartialEq, Eq, PartialOrd, Ord, Structural)]
pub struct GridIndex {
    pub row: usize,
    pub col: usize,
}

/// True when `a` does not come after `b` in document order.
pub open spec fn grid_le(a: GridIndex, b: GridIndex) -> bool {
    a.row < b.row || (a.row == b.row && a.col <= b.col)
}

/// Orders two positions, swapping them when `start` comes after `end`.
pub(crate) fn correct_positions(start: &mut GridIndex, end: &mut GridIndex)
    ensures
        grid_le(*final(start), *final(end)),
        if grid_le(*old(start), *old(end)) {
            *final(start) == *old(start) && *final(end) == *old(end)
        } else {
            *final(start) == *old(end) && *final(end) == *old(start)
        },
{
    if start.row > end.row || (start.row == end.row && start.col > end.col) {
        let tmp = *start;
        *start = *end;
        *end = tmp;
    }
}

impl GridIndex {
    /// Rewrites this position's column from the buffer's encoding into a
    /// UTF-8 byte column. When the row names the line just past the last one,
    /// a synthetic newline is appended to the document first; on an error the
    /// document is left untouched.
    pub fn normalize(&mut self, text: &mut Text) -> (r: Result<(), Error>)
        requires
            old(text).wf(),
            old(text).text@.len() + 1 <= usize::MAX,
        ensures
            final(text).wf(),
            final(text).encoding == old(text).encoding,
            final(text).old_br_indexes == old(text).old_br_indexes,
            final(self).row == old(self).row,
            match r {
                Ok(()) => exists|ext: bool|
                    {
                        &&& #[trigger] norm_ok(
                            old(text).text@,
                            old(text).br_indexes@,
                            old(text).encoding,
                            *old(self),
                            *final(self),
                            ext,
                        )
                        &&& final(text).text@ == ext_text(old(text).text@, ext)
                        &&& final(text).br_indexes@ == ext_br(
                            old(text).text@,
                            old(text).br_indexes@,
                            ext,
                        )
                    },
                Err(e) => {
                    &&& *final(text) == *old(text)
                    &&& *final(self) == *old(self)
                    &&& !norm_some(
                        old(text).text@,
                        old(text).br_indexes@,
                        old(text).encoding,
                        *old(self),
                    )
                    &&& e == norm_err(
                        old(text).text@,
                        old(text).br_indexes@,
                        old(text).encoding,
                        *old(self),
                    )
                },
            },
    {
        let row_count = text.br_indexes.row_count();
        if self.row > row_count {
            return Err(Error::OutOfBoundsRow { max: row_count - 1, current: self.row });
        }
        if self.row == row_count {
            if self.col != 0 {
                proof {
                    assert(utf16_units(Seq::<u8>::empty()) == 0);
                    assert(char_count(Seq::<u8>::empty()) == 0);
                }
                return Err(Error::OutOfBoundsColumn);
            }
            let old_len = text.text.len();
            text.text.push(NL);
            text.br_indexes.insert_index(row_count, old_len);
            proof {
                lemma_extend_wf(old(text).text@, old(text).br_indexes@);
                assert(text.text@ =~= ext_text(old(text).text@, true));
                assert(text.br_indexes@ =~= ext_br(old(text).text@, old(text).br_indexes@, true));
                assert(norm_ok(
                    old(text).text@,
                    old(text).br_indexes@,
                    old(text).encoding,
                    *old(self),
                    *self,
                    true,
                ));
            }
            return Ok(());
        }
        let line = text.norm_line_slice(self.row);
        match col_to_byte(text.encoding, line, self.col) {
            Ok(b) => {
                self.col = b;
                proof {
                    assert(norm_ok(
                        old(text).text@,
                        old(text).br_indexes@,
                        old(text).encoding,
                        *old(self),
                        *self,
                        false,
                    ));
                }
                Ok(())
            },
            Err(e) => {
                proof {
                    assert(!norm_some(
                        old(text).text@,
                        old(text).br_indexes@,
                        old(text).encoding,
                        *old(self),
                    )) by {
                        if norm_some(
                            old(text).text@,
                            old(text).br_indexes@,
                            old(text).encoding,
                            *old(self),
                        ) {
                            let (q, ext) = choose|q: GridIndex, ext: bool|
                                norm_ok(
                                    old(text).text@,
                                    old(text).br_indexes@,
                                    old(text).encoding,
                                    *old(self),
                                    q,
                                    ext,
                                );
                        }
                    }
                }
                Err(e)
            },
        }
    }

    /// Rewrites this position's column from a UTF-8 byte column back into the
    /// buffer's encoding.
    pub fn denormalize(&mut self, text: &Text) -> (r: Result<(), Error>)
        requires
            text.wf(),
        ensures
            final(self).row == old(self).row,
            match r {
                Ok(()) => {
                    &&& (old(self).row as int) < text.br_indexes@.len()
                    &&& ({
                        let line = norm_line(text.text@, text.br_indexes@, old(self).row as int);
                        &&& old(self).col <= line.len()
                        &&& is_char_boundary(line, old(self).col as int)
                        &&& final(self).col == col_of_byte(
                            text.encoding,
                            line,
                            old(self).col as int,
                        )
                    })
                },
                Err(e) => {
                    &&& *final(self) == *old(self)
                    &&& e == if (old(self).row as int) >= text.br_indexes@.len() {
                        Error::OutOfBoundsRow {
                            max: (text.br_indexes@.len() - 1) as usize,
                            current: old(self).row,
                        }
                    } else {
                        let line = norm_line(text.text@, text.br_indexes@, old(self).row as int);
                        if old(self).col > line.len() {
                            Error::OutOfBoundsColumn
                        } else {
                            Error::InBetweenCharBoundaries { encoding: Encoding::UTF8 }
                        }
                    }
                    &&& (old(self).row as int) < text.br_indexes@.len() ==> !(old(self).col
                        <= norm_line(text.text@, text.br_indexes@, old(self).row as int).len()
                        && is_char_boundary(
                        norm_line(text.text@, text.br_indexes@, old(self).row as int),
                        old(self).col as int,
                    ))
                },
            },
    {
        let row_count = text.br_indexes.row_count();
        if self.row >= row_count {
            return Err(Error::OutOfBoundsRow { max: row_count - 1, current: self.row });
        }
        let line = text.norm_line_slice(self.row);
        match col_from_byte(text.encoding, line, self.col) {
            Ok(u) => {
                self.col = u;
                Ok(())
            },
            Err(e) => Err(e),
        }
    }
}

/// A change to be performed on a text document.
///
/// End positions are exclusive: the character at `end` is not deleted or
/// replaced.
#[derive(Clone, Debug, PartialEq)]
pub enum Change {
    /// Delete the text between `start..end`.
    Delete { start: GridIndex, end: GridIndex },
    /// Insert `text` at the position `at`.
    Insert { at: GridIndex, text: String },
    /// Replace the text between `start..end` with `text`.
    Replace { start: GridIndex, end: GridIndex, text: String },
    /// Fully replace the contents of the document.
    ReplaceFull(String),
}

} // verus!
