//! Resolution of a `Content-Type` header into a boundary and a subtype.
//!
//! The header collection is searched case-insensitively for `Content-Type`;
//! its value goes through the `mime` crate's media-type parser, treated as
//! a black box returning a `(type, subtype, boundary parameter)` triple;
//! the triple is then resolved by verified code.

use vstd::prelude::*;
use vstd::string::StrSliceExecFns;

use crate::error::MultipartError;
use crate::multipart_type::{spec_multipart_type_of, str_eq, MultipartType};

verus! {

/// What the `mime` crate's parser extracts from a media-type string: the
/// top-level type, the subtype, and the `boundary` parameter when present;
/// `None` when the string is unparsable. A function of the string alone.
pub uninterp spec fn mime_parts_of(s: Seq<char>) -> Option<(Seq<char>, Seq<char>, Option<Seq<char>>)>;

/// The view of an executable media-type triple.
pub open spec fn triple_view(r: Option<(String, String, Option<String>)>) -> Option<
    (Seq<char>, Seq<char>, Option<Seq<char>>),
> {
    match r {
        None => None,
        Some(t) => Some(
            (
                t.0@,
                t.1@,
                match t.2 {
                    None => None,
                    Some(b) => Some(b@),
                },
            ),
        ),
    }
}

/// Relies on the `mime` crate: `str::parse::<mime::Mime>` parses the
/// parameterised media-type grammar, and `Mime::type_`, `Mime::subtype`
/// and `Mime::get_param(mime::BOUNDARY)` read the parsed value. The
/// returned triple is a function of the value string alone.
#[verifier::external_body]
pub(crate) fn parse_media_type(value: &str) -> (r: Option<(String, String, Option<String>)>)
    ensures
        triple_view(r) == mime_parts_of(value@),
{
    match value.parse::<mime::Mime>() {
        Ok(m) => Some(
            (
                m.type_().as_str().to_string(),
                m.subtype().as_str().to_string(),
                m.get_param(mime::BOUNDARY).map(|p| p.as_str().to_string()),
            ),
        ),
        Err(_) => None,
    }
}

/// How a media-type triple resolves: an unparsable value or one whose
/// top-level type is not `multipart` is `InvalidContentType`; a missing
/// `boundary` parameter is `InvalidBoundary`; an unrecognised subtype is
/// `InvalidMultipartType`; otherwise the boundary and the subtype.
pub open spec fn spec_resolve(p: Option<(Seq<char>, Seq<char>, Option<Seq<char>>)>) -> Result<
    (Seq<char>, MultipartType),
    MultipartError,
> {
    match p {
        None => Err(MultipartError::InvalidContentType),
        Some(t) => {
            if t.0 != "multipart"@ {
                Err(MultipartError::InvalidContentType)
            } else {
                match t.2 {
                    None => Err(MultipartError::InvalidBoundary),
                    Some(b) => match spec_multipart_type_of(t.1) {
                        None => Err(MultipartError::InvalidMultipartType),
                        Some(mt) => Ok((b, mt)),
                    },
                }
            }
        },
    }
}

/// Resolves a parsed media-type triple into a boundary and a recognised
/// subtype, exactly as `spec_resolve` says.
pub fn resolve_media_parts(parts: Option<(String, String, Option<String>)>) -> (r: Result<
    (String, MultipartType),
    MultipartError,
>)
    ensures
        ({
            let sr = spec_resolve(triple_view(parts));
            match r {
                Ok(p) => sr == Ok::<(Seq<char>, MultipartType), MultipartError>((p.0@, p.1)),
                Err(e) => sr == Err::<(Seq<char>, MultipartType), MultipartError>(e),
            }
        }),
{
    proof {
        reveal_strlit("multipart");
    }
    match parts {
        None => Err(MultipartError::InvalidContentType),
        Some(t) => {
            let (typ, sub, b) = t;
            if !str_eq(typ.as_str(), "multipart") {
                Err(MultipartError::InvalidContentType)
            } else {
                match b {
                    None => Err(MultipartError::InvalidBoundary),
                    Some(bd) => match MultipartType::from_subtype(sub.as_str()) {
                        None => Err(MultipartError::InvalidMultipartType),
                        Some(mt) => Ok((bd, mt)),
                    },
                }
            }
        },
    }
}

/// Two characters are equal up to ASCII case.
pub open spec fn eq_ignore_ascii_case_char(a: char, b: char) -> bool {
    a == b || (0x41 <= a as u32 <= 0x5a && a as u32 + 32 == b as u32) || (0x41 <= b as u32 <= 0x5a
        && b as u32 + 32 == a as u32)
}

/// Whether a header key is `Content-Type`, compared without regard to
/// ASCII case.
pub open spec fn is_content_type_key(k: Seq<char>) -> bool {
    k.len() == "content-type"@.len() && (forall|i: int|
        0 <= i < k.len() ==> eq_ignore_ascii_case_char(#[trigger] k[i], "content-type"@[i]))
}

/// The view of an executable header collection.
pub open spec fn headers_view(hs: Seq<(String, String)>) -> Seq<(Seq<char>, Seq<char>)> {
    hs.map(|i: int, p: (String, String)| (p.0@, p.1@))
}

/// The value of the first `Content-Type` entry of a header collection.
pub open spec fn spec_content_type_value(hs: Seq<(Seq<char>, Seq<char>)>) -> Option<Seq<char>>
    decreases hs.len(),
{
    if hs.len() == 0 {
        None
    } else if is_content_type_key(hs[0].0) {
        Some(hs[0].1)
    } else {
        spec_content_type_value(hs.skip(1))
    }
}

/// Whether `k` is the `Content-Type` key, compared without regard to ASCII
/// case.
fn is_content_type(k: &str) -> (r: bool)
    ensures
        r == is_content_type_key(k@),
{
    proof {
        reveal_strlit("content-type");
    }
    let pat: &str = "content-type";
    let n = k.unicode_len();
    if n != pat.unicode_len() {
        return false;
    }
    let mut i: usize = 0;
    while i < n
        invariant
            0 <= i <= n,
            n == k@.len(),
            n == "content-type"@.len(),
            pat@ == "content-type"@,
            forall|j: int|
                0 <= j < i ==> eq_ignore_ascii_case_char(#[trigger] k@[j], "content-type"@[j]),
        decreases n - i,
    {
        let a = k.get_char(i);
        let b = pat.get_char(i);
        let au = a as u32;
        let bu = b as u32;
        let hit = a == b || (0x41 <= au && au <= 0x5a && au + 32 == bu) || (0x41 <= bu && bu
            <= 0x5a && bu + 32 == au);
        if !hit {
            return false;
        }
        i = i + 1;
    }
    true
}

/// Finds the value of the first `Content-Type` entry, if any.
pub fn find_content_type(headers: &Vec<(String, String)>) -> (r: Option<String>)
    ensures
        match r {
            Some(v) => spec_content_type_value(headers_view(headers@)) == Some(v@),
            None => spec_content_type_value(headers_view(headers@)) is None,
        },
{
    let ghost hv = headers_view(headers@);
    proof {
        assert(hv.skip(0) =~= hv);
    }
    let n = headers.len();
    let mut i: usize = 0;
    while i < n
        invariant
            0 <= i <= n,
            n == headers@.len(),
            hv == headers_view(headers@),
            hv.len() == n,
            spec_content_type_value(hv) == spec_content_type_value(hv.skip(i as int)),
        decreases n - i,
    {
        proof {
            assert(hv.skip(i as int)[0] == hv[i as int]);
            assert(hv.skip(i as int).skip(1) =~= hv.skip(i as int + 1));
        }
        if is_content_type(headers[i].0.as_str()) {
            return Some(headers[i].1.clone());
        }
        i = i + 1;
    }
    proof {
        assert(hv.skip(n as int).len() == 0);
    }
    None
}

} // verus!
