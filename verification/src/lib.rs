//! Random-access decoding of stream-transformed byte sources.
//!
//! A byte source (a file held in memory or behind any [`file::FileSource`])
//! can be viewed through a chain of streaming byte transforms: re-encoding
//! to UTF-8, stripping line breaks, wrapping the whole stream or each line
//! with affixes. A forward pass records a chunk map tying source ranges to
//! decoded ranges together with the transform state at each boundary; the
//! resulting decoder then serves arbitrary decoded byte ranges by replaying
//! only the chunks that intersect the request.

pub mod byte_transform;
pub mod file;
pub mod file_format;
pub mod utils;
