use vstd::prelude::*;
use vstd::utf8::{
    is_char_boundary, is_char_boundary_iff_not_is_continuation_byte,
    is_char_boundary_start_end_of_seq, is_continuation_byte, valid_utf8,
};

use crate::change::{Change, GridIndex};
use crate::text::{lemma_row_geometry, line_at, Text};

verus! {

/// An action that removes the character just before a position.
pub struct DeletePreviousChar(pub GridIndex);

impl DeletePreviousChar {
    /// The delete that removes one character before this position: the
    /// previous character on the row, the row break when the position sits at
    /// a row start, or nothing at the very start of the document.
    pub fn to_change(&self, text: &Text) -> (r: Change)
        requires
            text.wf(),
            (self.0.row as int) < text.br_indexes@.len(),
            self.0.col <= line_at(text.text@, text.br_indexes@, self.0.row as int).len(),
        ensures
            ({
                let line = line_at(text.text@, text.br_indexes@, self.0.row as int);
                match r {
                    Change::Delete { start, end } => {
                        &&& end == self.0
                        &&& if self.0.col > 0 {
                            &&& start.row == self.0.row
                            &&& start.col < self.0.col
                            &&& is_char_boundary(line, start.col as int)
                            &&& forall|j: int|
                                start.col < j < self.0.col ==> !is_char_boundary(line, j)
                        } else if self.0.row > 0 {
                            &&& start.row as int == self.0.row - 1
                            &&& start.col == line_at(
                                text.text@,
                                text.br_indexes@,
                                self.0.row - 1,
                            ).len()
                        } else {
                            start == (GridIndex { row: 0, col: 0 })
                        }
                    },
                    _ => false,
                }
            }),
    {
        let start = if self.0.col > 0 {
            let line = text.get_row(self.0.row).unwrap();
            proof {
                lemma_row_geometry(text.text@, text.br_indexes@, self.0.row as int);
                is_char_boundary_start_end_of_seq(line@);
            }
            let mut k: usize = self.0.col - 1;
            while k > 0 && 0x80 <= line[k] && line[k] < 0xC0
                invariant
                    0 <= k < self.0.col,
                    self.0.col <= line@.len(),
                    valid_utf8(line@),
                    forall|j: int|
                        k < j < self.0.col ==> is_continuation_byte(#[trigger] line@[j]),
                decreases k,
            {
                k = k - 1;
            }
            proof {
                assert(is_char_boundary(line@, k as int)) by {
                    if k > 0 {
                        is_char_boundary_iff_not_is_continuation_byte(line@, k as int);
                    }
                }
                assert forall|j: int| k < j < self.0.col implies !is_char_boundary(line@, j) by {
                    is_char_boundary_iff_not_is_continuation_byte(line@, j);
                }
            }
            GridIndex { row: self.0.row, col: k }
        } else if self.0.row > 0 {
            let prev_row = self.0.row - 1;
            proof {
                lemma_row_geometry(text.text@, text.br_indexes@, prev_row as int);
            }
            let prev = text.get_row(prev_row).unwrap();
            GridIndex { row: prev_row, col: prev.len() }
        } else {
            GridIndex { row: 0, col: 0 }
        };
        Change::Delete { start, end: self.0 }
    }
}

} // verus!
