//! A streaming codec for newline-delimited text frames.
//!
//! An incremental decoder turns an unbounded byte stream, delivered in
//! arbitrary chunks, into discrete lines of UTF-8 text; a symmetric encoder
//! serializes a line back into bytes plus the delimiter. The decoder keeps a
//! scan cursor so that no byte is examined twice across calls, and reports a
//! fault instead of delivering a frame whose bytes are not valid text.

pub mod buffer;
pub mod codec;
pub mod frames;
