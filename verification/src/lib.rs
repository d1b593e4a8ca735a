//! Incremental decoder for multipart-encoded byte bodies.
//!
//! A `MultipartReader` walks a byte buffer one CRLF-delimited line at a
//! time, recognising boundary lines, accumulating header pairs and body
//! bytes, and handing each completed part to the caller in order.

pub mod content_type;
pub mod error;
pub mod laws;
pub mod multipart_type;
pub mod reader;
pub mod scan;

pub use error::MultipartError;
pub use multipart_type::MultipartType;
pub use reader::{MultipartItem, MultipartReader};
