//! The closed enumeration of recognised multipart subtypes.

use vstd::prelude::*;
use vstd::string::StrSliceExecFns;

verus! {

/// A recognised multipart subtype. The set is closed: a `Content-Type`
/// whose subtype is not listed here is rejected, never passed through.
#[derive(Debug, Clone, Copy, PartialEq, Eq, Structural)]
pub enum MultipartType {
    /// `multipart/form-data`
    FormData,
    /// `multipart/mixed`
    Mixed,
    /// `multipart/byteranges`
    ByteRanges,
}

/// The subtype that a given subtype name resolves to, if any.
pub open spec fn spec_multipart_type_of(s: Seq<char>) -> Option<MultipartType> {
    if s == "form-data"@ {
        Some(MultipartType::FormData)
    } else if s == "mixed"@ {
        Some(MultipartType::Mixed)
    } else if s == "byteranges"@ {
        Some(MultipartType::ByteRanges)
    } else {
        None
    }
}

impl MultipartType {
    /// Looks a subtype name up in the closed enumeration.
    pub fn from_subtype(s: &str) -> (r: Option<MultipartType>)
        ensures
            r == spec_multipart_type_of(s@),
    {
        proof {
            reveal_strlit("form-data");
            reveal_strlit("mixed");
            reveal_strlit("byteranges");
        }
        if str_eq(s, "form-data") {
            Some(MultipartType::FormData)
        } else if str_eq(s, "mixed") {
            Some(MultipartType::Mixed)
        } else if str_eq(s, "byteranges") {
            Some(MultipartType::ByteRanges)
        } else {
            None
        }
    }
}

/// Character-by-character string equality.
pub fn str_eq(a: &str, b: &str) -> (r: bool)
    ensures
        r == (a@ == b@),
{
    let an: usize = a.unicode_len();
    let bn: usize = b.unicode_len();
    if an != bn {
        proof {
            assert(a@ =~= b@ ==> a@.len() == b@.len());
        }
        return false;
    }
    let mut i: usize = 0;
    while i < an
        invariant
            0 <= i <= an,
            an == a@.len(),
            an == b@.len(),
            forall|j: int| 0 <= j < i ==> a@[j] == b@[j],
        decreases an - i,
    {
        if a.get_char(i) != b.get_char(i) {
            proof {
                assert(a@[i as int] != b@[i as int]);
                assert(a@ =~= b@ ==> a@[i as int] == b@[i as int]);
            }
            return false;
        }
        i = i + 1;
    }
    proof {
        assert(a@ =~= b@);
    }
    true
}

} // verus!
