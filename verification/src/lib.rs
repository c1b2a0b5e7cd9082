//! A single-document text buffer with word completion.
//!
//! The crate tracks the live text of one edited document and answers
//! word-completion queries against it. Edits arrive as zero-based
//! (line, column) ranges and are mapped to byte offsets; completion
//! tokenizes the buffer on whitespace and ASCII punctuation and returns
//! the distinct tokens other than the word under the cursor.

pub mod completion;
pub mod document;
pub mod position;
