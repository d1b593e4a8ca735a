//! The closed set of failures that decoding can report.

use vstd::prelude::*;

verus! {

/// Everything that can go wrong while resolving a `Content-Type` header or
/// while scanning a multipart body. Every error is terminal for the parsing
/// attempt that produced it.
#[derive(Debug, Clone, Copy, PartialEq, Eq, Structural)]
pub enum MultipartError {
    /// No `Content-Type` entry was found in the header collection.
    NoContentType,
    /// The media type carries no `boundary` parameter.
    InvalidBoundary,
    /// The `Content-Type` value is unparsable, or its top-level type is not
    /// `multipart`.
    InvalidContentType,
    /// The multipart subtype is not one of the recognised kinds.
    InvalidMultipartType,
    /// A header line of a part is not valid UTF-8, or does not split into
    /// exactly two pieces on the `": "` separator.
    InvalidItemHeader,
    /// The upstream byte source failed.
    PollingDataFailed,
}

} // verus!
