//! A streaming multi-file text engine: the shared core of a family of small
//! text utilities.  It splits byte streams into terminator-delimited lines,
//! accumulates per-file metrics (lines, words, bytes, characters), rewrites
//! lines with sequential or nonblank-only numbering, truncates output to a
//! line or byte budget, and drives an ordered list of named inputs through
//! one of those policies, with per-input diagnostics, file headers and a
//! totals row where a run asks for them.

pub mod cat;
pub mod head;
pub mod numfmt;
pub mod source;
pub mod text;
pub mod uniq;
pub mod wc;
