//! Interactive picker core for SSH host selection.
//!
//! The crate holds the selection engine of a terminal picker: a fuzzy
//! matcher that scores how well a query matches a candidate label, the
//! navigation state that owns the browsable lists and the cursor, and the
//! parser that extracts host aliases from SSH configuration lines. All of
//! it works on plain strings and vectors; terminal rendering, key polling,
//! directory listing and process spawning live outside the library.

use vstd::prelude::*;

pub mod app;
pub mod fuzzy;
pub mod parser;
pub mod text;
pub mod views;

verus! {

/// The length-normalization numerator of the fuzzy score: a full match on
/// a label of `len` characters earns `SCORE_NORM / (len + 1)` extra points,
/// so shorter labels rank higher among equally good matches.
pub const SCORE_NORM: usize = 1000;

} // verus!
