//! An incremental text buffer for editors and language servers.
//!
//! The buffer stores a document as UTF-8 bytes together with a sorted index of
//! end-of-line byte positions. Edits are expressed as ranged changes whose
//! (row, column) positions may be given in UTF-8, UTF-16 or UTF-32 columns;
//! every edit keeps the line index in sync and reports a structured
//! description of the change to observers.

pub mod actions;
pub mod br_indexes;
pub mod change;
pub mod interop;
pub mod encodings;
pub mod eol_indexes;
pub mod error;
pub mod laws;
pub mod lines;
pub mod querier;
mod splice;
pub mod text;
pub mod updateables;

pub use change::Change;
pub use change::GridIndex;
pub use error::Encoding;
pub use error::Error;
pub use text::Text;
pub use updateables::Updateable;
