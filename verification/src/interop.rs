use vstd::prelude::*;

use crate::change::{Change, GridIndex};

verus! {

/// Relies on lsp_types::Position: a plain pair of a zero-based line and a
/// character offset in the negotiated encoding.
#[verifier::external_type_specification]
pub struct ExPosition(lsp_types::Position);

/// Relies on lsp_types::Range: a half-open pair of positions.
#[verifier::external_type_specification]
pub struct ExRange(lsp_types::Range);

/// Relies on lsp_types::TextDocumentContentChangeEvent: an optional range and
/// the new text of that range, or of the whole document when absent.
#[verifier::external_type_specification]
pub struct ExTextDocumentContentChangeEvent(lsp_types::TextDocumentContentChangeEvent);

/// Relies on tree_sitter::Point: a plain row and byte-column pair.
#[verifier::external_type_specification]
pub struct ExPoint(tree_sitter::Point);

impl GridIndex {
    /// Reads an LSP position: its line is the row, its character the column.
    pub fn from_position(p: lsp_types::Position) -> (r: GridIndex)
        ensures
            r.row == p.line as usize,
            r.col == p.character as usize,
    {
        GridIndex { row: p.line as usize, col: p.character as usize }
    }

    /// Reads a syntax-tree point: its row and byte column carry over.
    pub fn from_point(p: tree_sitter::Point) -> (r: GridIndex)
        ensures
            r.row == p.row,
            r.col == p.column,
    {
        GridIndex { row: p.row, col: p.column }
    }
}

impl Change {
    /// Maps an LSP change event onto a change: a missing range means a full
    /// replacement, empty text a delete, an empty range an insert, and
    /// anything else a replace.
    pub fn from_event(event: lsp_types::TextDocumentContentChangeEvent) -> (r: Change)
        ensures
            match event.range {
                None => r == Change::ReplaceFull(event.text),
                Some(range) => {
                    let start = GridIndex {
                        row: range.start.line as usize,
                        col: range.start.character as usize,
                    };
                    let end = GridIndex {
                        row: range.end.line as usize,
                        col: range.end.character as usize,
                    };
                    if event.text@.len() == 0 {
                        r == (Change::Delete { start, end })
                    } else if start == end {
                        r == (Change::Insert { at: start, text: event.text })
                    } else {
                        r == (Change::Replace { start, end, text: event.text })
                    }
                },
            },
    {
        match event.range {
            None => Change::ReplaceFull(event.text),
            Some(range) => {
                let start = GridIndex {
                    row: range.start.line as usize,
                    col: range.start.character as usize,
                };
                let end = GridIndex {
                    row: range.end.line as usize,
                    col: range.end.character as usize,
                };
                if event.text.as_str().is_empty() {
                    Change::Delete { start, end }
                } else if start.row == end.row && start.col == end.col {
                    Change::Insert { at: start, text: event.text }
                } else {
                    Change::Replace { start, end, text: event.text }
                }
            },
        }
    }
}

} // verus!
