use vstd::prelude::*;

verus! {

/// The column encoding a position was written in.
#[derive(Clone, Copy, Debug, PartialEq, Eq, Structural)]
pub enum Encoding {
    UTF8,
    UTF16,
    UTF32,
}

/// The error type returned upon failed conversions and edits across the library.
#[derive(Clone, Debug, PartialEq, Eq, Structural)]
pub enum Error {
    /// A row index past the last row of the document.
    OutOfBoundsRow { max: usize, current: usize },
    /// A column past the end of the line in the requested encoding.
    OutOfBoundsColumn,
    /// A column that falls between the code units of a single codepoint.
    InBetweenCharBoundaries { encoding: Encoding },
}

} // verus!
