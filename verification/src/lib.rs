//! A lexical scanner for a lightweight, heading/indent-based markup dialect.
//!
//! The scanner turns raw text into a flat, ordered sequence of typed tokens:
//! heading-marker runs, word runs, and a fixed table of single-byte tokens.
//! Scanning is byte-oriented and single-pass; the first byte outside the
//! dialect's small alphabet aborts the whole scan with a lexer error.
//!
//! The behaviour of the scanner is pinned down by the specification-level
//! scanner in [`scan`]: [`lexer::Lexer::parse`] is proved to return exactly
//! the token sequence that [`scan::scan_from`] describes.

pub mod error;
pub mod lexer;
pub mod scan;
pub mod text;
pub mod token;
