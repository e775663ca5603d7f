//! Printing results: as the server wrote them but colored, or laid out
//! anew.
//!
//! A result goes through these forms: the text the server sent, its lexemes,
//! a value tree, a layout program of unbreakable texts, spaces, breaks and
//! anchors, and the printer's commands, which the printer turns into text
//! with or without terminal colors.  Unformatted output goes from the
//! lexemes straight to the printer's commands.

pub mod style;
pub mod printer;
pub mod layout;
pub mod program;
pub mod unformatted;
pub mod result_printer;
