//! Interpreter for a minimal, bracket-delimited, cell-tape esoteric language.
//!
//! Eight single-character instructions operate on a movable cursor into an
//! array of byte cells; bracketed regions form loops that run while the cell
//! under the cursor is nonzero.  The crate is split into a preprocessing
//! pipeline ([`preproc`]) that filters, validates and tokenizes program text
//! into a run-length-folded instruction tree, and an execution engine
//! ([`interp`]) that walks that tree against an in-memory tape.

pub mod interp;
pub mod preproc;
