//! Front end for plain-text journal files.
//!
//! Turns raw bytes on disk into a validated, position-tracked stream of
//! logical lines and indentation structure: a multi-file source manager,
//! failure-tolerant UTF-8 decoding, a line-start index, and an
//! indentation-sensitive lexer, all with precise source locations.

pub mod decode;
pub mod error;
pub mod files;
pub mod lexer;
pub mod text;
