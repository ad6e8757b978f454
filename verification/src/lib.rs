//! Normalizer for line-oriented, cue-based subtitle text.
//!
//! The library takes the lines of a subtitle file and re-emits a normalized
//! token list: canonical `Kind` / `Language` headers are injected when absent,
//! blank cue separators are regularized, and caption payload text is re-flowed
//! into a small number of balanced-width lines.

pub mod classify;
pub mod parse;
pub mod text;
pub mod wrap;
