//! Editor support: the formatter, positions and edits, and the definition
//! under a cursor.
pub mod format;
pub mod formatter;
pub mod position;
pub mod symbols;
