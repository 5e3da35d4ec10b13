//! Parsing of buffered multipart payloads (such as HTTP batch responses) into
//! parts, each a header map and a body, split at a caller-supplied boundary.

pub mod search;
pub mod header_block;
pub mod boundary;
pub mod multipart;

pub use boundary::parse_boundary;
pub use multipart::{Multipart, MultipartError, Part};
