use vstd::prelude::*;

use crate::change::GridIndex;
use crate::eol_indexes::{row_start_at, EolIndexes};

verus! {

/// What one edit did, with every position already normalised to a UTF-8 byte
/// column within the old document.
pub enum ChangeContext<'a> {
    Insert {
        /// Positions of the line terminators the inserted text brought,
        /// as byte offsets into the new document.
        inserted_br_indexes: &'a [usize],
        position: GridIndex,
        text: &'a [u8],
    },
    Delete {
        start: GridIndex,
        end: GridIndex,
    },
    Replace {
        start: GridIndex,
        end: GridIndex,
        text: &'a [u8],
        inserted_br_indexes: &'a [usize],
    },
    ReplaceFull {
        text: &'a [u8],
    },
}

/// A read-only description of one edit, delivered to observers after the line
/// index is updated and before the text bytes are spliced.
pub struct UpdateContext<'a> {
    /// The change being applied.
    pub change: ChangeContext<'a>,
    /// The new line-break positions.
    pub breaklines: &'a EolIndexes,
    /// The line-break positions before the edit.
    pub old_breaklines: &'a EolIndexes,
    /// The text bytes before the edit.
    pub old_str: &'a [u8],
}

/// An observer that is patched in lock-step with the document.
pub trait Updateable {
    fn update(&mut self, ctx: UpdateContext<'_>);
}

impl Updateable for () {
    fn update(&mut self, _ctx: UpdateContext<'_>) {
    }
}

/// The edit record an incremental parser consumes: the edited byte range and
/// the corresponding (row, byte-column) positions, before and after.
#[derive(Clone, Copy, Debug, PartialEq, Eq, Structural)]
pub struct EditRecord {
    pub start_byte: usize,
    pub old_end_byte: usize,
    pub new_end_byte: usize,
    pub start_position: GridIndex,
    pub old_end_position: GridIndex,
    pub new_end_position: GridIndex,
}

/// The byte offset of position `p` read against the index `br`.
pub open spec fn pos_byte(br: Seq<usize>, p: GridIndex) -> int {
    row_start_at(br, p.row as int) + p.col
}

/// The bounds an [`UpdateContext`] meets when it describes a real edit: its
/// positions name rows of the index they are read against, the byte offsets
/// they name fit the machine, and the inserted-terminator positions lie
/// within the inserted text.
pub open spec fn ctx_edit_wf(ctx: UpdateContext) -> bool {
    &&& ctx.old_breaklines@.len() >= 1
    &&& ctx.breaklines@.len() >= 1
    &&& forall|k: int|
        0 <= k < ctx.old_breaklines@.len() ==> (#[trigger] ctx.old_breaklines@[k]) < usize::MAX
    &&& forall|k: int|
        0 <= k < ctx.breaklines@.len() ==> (#[trigger] ctx.breaklines@[k]) < usize::MAX
    &&& match ctx.change {
        ChangeContext::Delete { start, end } => {
            &&& (start.row as int) < ctx.old_breaklines@.len()
            &&& (end.row as int) < ctx.old_breaklines@.len()
            &&& pos_byte(ctx.old_breaklines@, start) <= usize::MAX
            &&& pos_byte(ctx.old_breaklines@, end) <= usize::MAX
        },
        ChangeContext::Insert { inserted_br_indexes, position, text } => {
            &&& (position.row as int) < ctx.old_breaklines@.len()
            &&& pos_byte(ctx.old_breaklines@, position) + text@.len() <= usize::MAX
            &&& (position.row as int) + inserted_br_indexes@.len() <= usize::MAX
            &&& (inserted_br_indexes@.len() > 0 ==> pos_byte(ctx.old_breaklines@, position)
                <= inserted_br_indexes@.last() && inserted_br_indexes@.last() < pos_byte(
                ctx.old_breaklines@,
                position,
            ) + text@.len())
        },
        ChangeContext::Replace { start, end, text, inserted_br_indexes } => {
            &&& (start.row as int) < ctx.old_breaklines@.len()
            &&& (end.row as int) < ctx.old_breaklines@.len()
            &&& pos_byte(ctx.old_breaklines@, start) + text@.len() <= usize::MAX
            &&& pos_byte(ctx.old_breaklines@, end) <= usize::MAX
            &&& (start.row as int) + inserted_br_indexes@.len() <= usize::MAX
            &&& (inserted_br_indexes@.len() > 0 ==> pos_byte(ctx.old_breaklines@, start)
                <= inserted_br_indexes@.last() && inserted_br_indexes@.last() < pos_byte(
                ctx.old_breaklines@,
                start,
            ) + text@.len())
        },
        ChangeContext::ReplaceFull { text } => {
            &&& row_start_at(ctx.old_breaklines@, ctx.old_breaklines@.len() - 1)
                <= ctx.old_str@.len()
            &&& row_start_at(ctx.breaklines@, ctx.breaklines@.len() - 1) <= text@.len()
            &&& ctx.old_str@.len() <= usize::MAX
            &&& text@.len() <= usize::MAX
        },
    }
}

/// Translates an update context into the classic edit record of an
/// incremental parser, computed from the context alone.
pub fn edit_from_ctx(ctx: UpdateContext<'_>) -> (r: EditRecord)
    requires
        ctx_edit_wf(ctx),
    ensures
        match ctx.change {
            ChangeContext::Delete { start, end } => r == (EditRecord {
                start_byte: pos_byte(ctx.old_breaklines@, start) as usize,
                old_end_byte: pos_byte(ctx.old_breaklines@, end) as usize,
                new_end_byte: pos_byte(ctx.old_breaklines@, start) as usize,
                start_position: start,
                old_end_position: end,
                new_end_position: start,
            }),
            ChangeContext::Insert { inserted_br_indexes, position, text } => r == (EditRecord {
                start_byte: pos_byte(ctx.old_breaklines@, position) as usize,
                old_end_byte: pos_byte(ctx.old_breaklines@, position) as usize,
                new_end_byte: (pos_byte(ctx.old_breaklines@, position) + text@.len()) as usize,
                start_position: position,
                old_end_position: position,
                new_end_position: if inserted_br_indexes@.len() > 0 {
                    GridIndex {
                        row: (position.row + inserted_br_indexes@.len()) as usize,
                        col: (pos_byte(ctx.old_breaklines@, position) + text@.len() - 1
                            - inserted_br_indexes@.last()) as usize,
                    }
                } else {
                    GridIndex { row: position.row, col: (position.col + text@.len()) as usize }
                },
            }),
            ChangeContext::Replace { start, end, text, inserted_br_indexes } => r == (EditRecord {
                start_byte: pos_byte(ctx.old_breaklines@, start) as usize,
                old_end_byte: pos_byte(ctx.old_breaklines@, end) as usize,
                new_end_byte: (pos_byte(ctx.old_breaklines@, start) + text@.len()) as usize,
                start_position: start,
                old_end_position: end,
                new_end_position: if inserted_br_indexes@.len() > 0 {
                    GridIndex {
                        row: (start.row + inserted_br_indexes@.len()) as usize,
                        col: (pos_byte(ctx.old_breaklines@, start) + text@.len() - 1
                            - inserted_br_indexes@.last()) as usize,
                    }
                } else {
                    GridIndex { row: start.row, col: (start.col + text@.len()) as usize }
                },
            }),
            ChangeContext::ReplaceFull { text } => r == (EditRecord {
                start_byte: 0,
                old_end_byte: ctx.old_str@.len() as usize,
                new_end_byte: text@.len() as usize,
                start_position: GridIndex { row: 0, col: 0 },
                old_end_position: GridIndex {
                    row: (ctx.old_breaklines@.len() - 1) as usize,
                    col: (ctx.old_str@.len() - row_start_at(
                        ctx.old_breaklines@,
                        ctx.old_breaklines@.len() - 1,
                    )) as usize,
                },
                new_end_position: GridIndex {
                    row: (ctx.breaklines@.len() - 1) as usize,
                    col: (text@.len() - row_start_at(
                        ctx.breaklines@,
                        ctx.breaklines@.len() - 1,
                    )) as usize,
                },
            }),
        },
{
    match ctx.change {
        ChangeContext::Delete { start, end } => {
            let start_byte = ctx.old_breaklines.row_start(start.row).unwrap() + start.col;
            let end_byte = ctx.old_breaklines.row_start(end.row).unwrap() + end.col;
            EditRecord {
                start_byte,
                old_end_byte: end_byte,
                new_end_byte: start_byte,
                start_position: start,
                old_end_position: end,
                new_end_position: start,
            }
        },
        ChangeContext::Insert { inserted_br_indexes, position, text } => {
            let start_byte = ctx.old_breaklines.row_start(position.row).unwrap() + position.col;
            let new_end_byte = start_byte + text.len();
            let n = inserted_br_indexes.len();
            let new_end_position = if n > 0 {
                let last = inserted_br_indexes[n - 1];
                GridIndex { row: position.row + n, col: new_end_byte - 1 - last }
            } else {
                GridIndex { row: position.row, col: position.col + text.len() }
            };
            EditRecord {
                start_byte,
                old_end_byte: start_byte,
                new_end_byte,
                start_position: position,
                old_end_position: position,
                new_end_position,
            }
        },
        ChangeContext::Replace { start, end, text, inserted_br_indexes } => {
            let start_byte = ctx.old_breaklines.row_start(start.row).unwrap() + start.col;
            let old_end_byte = ctx.old_breaklines.row_start(end.row).unwrap() + end.col;
            let new_end_byte = start_byte + text.len();
            let n = inserted_br_indexes.len();
            let new_end_position = if n > 0 {
                let last = inserted_br_indexes[n - 1];
                GridIndex { row: start.row + n, col: new_end_byte - 1 - last }
            } else {
                GridIndex { row: start.row, col: start.col + text.len() }
            };
            EditRecord {
                start_byte,
                old_end_byte,
                new_end_byte,
                start_position: start,
                old_end_position: end,
                new_end_position,
            }
        },
        ChangeContext::ReplaceFull { text } => {
            let old_rows = ctx.old_breaklines.row_count();
            let new_rows = ctx.breaklines.row_count();
            let old_last = ctx.old_breaklines.last_row_start();
            let new_last = ctx.breaklines.last_row_start();
            EditRecord {
                start_byte: 0,
                old_end_byte: ctx.old_str.len(),
                new_end_byte: text.len(),
                start_position: GridIndex { row: 0, col: 0 },
                old_end_position: GridIndex { row: old_rows - 1, col: ctx.old_str.len() - old_last },
                new_end_position: GridIndex { row: new_rows - 1, col: text.len() - new_last },
            }
        },
    }
}

} // verus!
