//! Relocating a file inside a source tree means every relative-path literal
//! that points at it must be rewritten.  This library holds the verified core
//! of that job: path normalization and relative-path algebra, detection of
//! matching path literals among a file's tokens, and safe application of the
//! resulting batch of non-overlapping byte-range edits.

pub mod paths;
pub mod edits;
pub mod tokens;
pub mod plan;
pub mod engine;
