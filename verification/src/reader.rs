//! The incremental multipart reader.
//!
//! `MultipartReader` owns the body bytes, a forward-only cursor into them,
//! the boundary, the machine state and at most one pending part.
//! `poll_next` is proved to follow the `scan` model of `crate::scan` call
//! by call.

use vstd::prelude::*;
use vstd::slice::{slice_index_get, slice_subrange, slice_to_vec};
use vstd::string::{StrSliceExecFns, StringSliceAdditionalSpecFns};
use vstd::utf8::{decode_utf8, encode_utf8, valid_utf8};

use crate::content_type::{
    find_content_type, headers_view, mime_parts_of, parse_media_type, resolve_media_parts,
    spec_content_type_value, spec_resolve,
};
use crate::error::MultipartError;
use crate::multipart_type::MultipartType;
use crate::scan::{
    empty_item, find_crlf_spec, first_sep, first_sep_from, header_pair_of, is_blank_line,
    is_sep_at, is_whitespace_char, lemma_find_crlf_spec, scan, sep_count, sep_count_from,
    ItemModel, ParserState, ScanStep,
};

verus! {

/// One decoded part: its header pairs in the order they stood in the body,
/// and its body bytes with the line terminators stripped.
pub struct MultipartItem {
    /// The `(name, value)` header pairs, as received: duplicates permitted,
    /// order preserved, no case normalisation.
    pub headers: Vec<(String, String)>,
    /// The body bytes.
    pub data: Vec<u8>,
}

impl View for MultipartItem {
    type V = ItemModel;

    open spec fn view(&self) -> ItemModel {
        ItemModel {
            headers: self.headers@.map(|i: int, p: (String, String)| (p.0@, p.1@)),
            body: self.data@,
        }
    }
}

/// The mathematical image of a reader: boundary bytes, unconsumed suffix of
/// the body, machine state, and the pending part.
#[verifier::ext_equal]
pub ghost struct ReaderModel {
    pub boundary: Seq<u8>,
    pub rest: Seq<u8>,
    pub state: ParserState,
    pub pending: Option<ItemModel>,
}

/// The incremental decoder. One instance is constructed per input body and
/// polled until no further part comes.
pub struct MultipartReader {
    /// The boundary, as given or as extracted from the `Content-Type`.
    pub boundary: String,
    /// The recognised multipart subtype.
    pub multipart_type: MultipartType,
    boundary_bytes: Vec<u8>,
    data: Vec<u8>,
    pos: usize,
    state: ParserState,
    pending_item: Option<MultipartItem>,
}

impl View for MultipartReader {
    type V = ReaderModel;

    closed spec fn view(&self) -> ReaderModel {
        ReaderModel {
            boundary: self.boundary_bytes@,
            rest: self.data@.subrange(self.pos as int, self.data@.len() as int),
            state: self.state,
            pending: match self.pending_item {
                Some(it) => Some(it@),
                None => None,
            },
        }
    }
}

/// Relies on `memchr::memmem::find`: the index of the first occurrence of
/// the needle, here the line terminator CR LF, in the haystack.
#[verifier::external_body]
fn find_crlf(data: &[u8]) -> (r: Option<usize>)
    ensures
        match r {
            Some(i) => find_crlf_spec(data@) == Some(i as int),
            None => find_crlf_spec(data@) is None,
        },
{
    memchr::memmem::find(data, b"\r\n")
}

/// Relies on `core::str::from_utf8`: it succeeds exactly on valid UTF-8,
/// and the returned string holds the given bytes, decoded.
#[verifier::external_body]
fn decode_line(line: &[u8]) -> (r: Option<String>)
    ensures
        match r {
            Some(s) => valid_utf8(line@) && s@ == decode_utf8(line@),
            None => !valid_utf8(line@),
        },
{
    match core::str::from_utf8(line) {
        Ok(s) => Some(s.to_string()),
        Err(_) => None,
    }
}

/// Whether `c` has the Unicode `White_Space` property.
fn is_whitespace(c: char) -> (r: bool)
    ensures
        r == is_whitespace_char(c),
{
    let u = c as u32;
    u == 0x20 || u == 0x09 || u == 0x0a || u == 0x0d || u == 0x0b || u == 0x0c || u == 0x85
        || u == 0xa0 || u == 0x1680 || (0x2000 <= u && u <= 0x200a) || u == 0x2028 || u == 0x2029
        || u == 0x202f || u == 0x205f || u == 0x3000
}

/// Whether every character of `s` is whitespace.
fn is_blank_str(s: &str) -> (r: bool)
    ensures
        r == is_blank_line(s@),
{
    let n = s.unicode_len();
    let mut i: usize = 0;
    while i < n
        invariant
            0 <= i <= n,
            n == s@.len(),
            forall|j: int| 0 <= j < i ==> is_whitespace_char(#[trigger] s@[j]),
        decreases n - i,
    {
        if !is_whitespace(s.get_char(i)) {
            return false;
        }
        i = i + 1;
    }
    true
}

/// Counts the `": "` separators of `s` and finds the first one: returns
/// `(count, first position)`, the position being meaningful only when the
/// count is at least one.
fn sep_scan(s: &str) -> (r: (usize, usize))
    ensures
        r.0 == sep_count(s@),
        sep_count(s@) >= 1 ==> first_sep(s@) == Some(r.1 as int),
        sep_count(s@) >= 1 ==> is_sep_at(s@, r.1 as int),
{
    let n = s.unicode_len();
    if n < 2 {
        proof {
            assert(sep_count(s@) == 0);
            assert(first_sep(s@) is None);
        }
        return (0, 0);
    }
    let mut cnt: usize = 0;
    let mut first: usize = 0;
    let mut found = false;
    let mut i: usize = 0;
    while i <= n - 2
        invariant
            0 <= i <= n - 1,
            2 <= n == s@.len(),
            cnt <= i,
            sep_count(s@) == cnt + sep_count_from(s@, i as int),
            found ==> first_sep(s@) == Some(first as int) && is_sep_at(s@, first as int),
            !found ==> cnt == 0 && first_sep(s@) == first_sep_from(s@, i as int),
        decreases n - i,
    {
        if s.get_char(i) == ':' && s.get_char(i + 1) == ' ' {
            if !found {
                found = true;
                first = i;
            }
            cnt = cnt + 1;
        }
        i = i + 1;
    }
    proof {
        assert(sep_count_from(s@, i as int) == 0);
        if !found {
            assert(first_sep_from(s@, i as int) is None);
        }
    }
    (cnt, first)
}

/// A subrange of a suffix is the corresponding subrange of the whole.
proof fn lemma_suffix_subrange(s: Seq<u8>, pos: int, k: int)
    requires
        0 <= pos <= s.len(),
        0 <= k <= s.len() - pos,
    ensures
        s.subrange(pos, s.len() as int).subrange(k, s.len() - pos) == s.subrange(
            pos + k,
            s.len() as int,
        ),
{
    assert(s.subrange(pos, s.len() as int).subrange(k, s.len() - pos) =~= s.subrange(
        pos + k,
        s.len() as int,
    ));
}

/// A prefix of a suffix is the corresponding window of the whole.
proof fn lemma_suffix_prefix(s: Seq<u8>, pos: int, k: int)
    requires
        0 <= pos <= s.len(),
        0 <= k <= s.len() - pos,
    ensures
        s.subrange(pos, s.len() as int).subrange(0, k) == s.subrange(pos, pos + k),
{
    assert(s.subrange(pos, s.len() as int).subrange(0, k) =~= s.subrange(pos, pos + k));
}

impl MultipartReader {
    /// A reader is well formed when its cursor lies inside the buffer and,
    /// while a boundary is awaited, a pending part exists.
    pub closed spec fn wf(&self) -> bool {
        &&& self.pos <= self.data@.len()
        &&& (self.state is AwaitingBoundary ==> self.pending_item is Some)
    }

    /// The characters of the `boundary` field.
    pub closed spec fn spec_boundary(&self) -> Seq<char> {
        self.boundary@
    }

    /// The value of the `multipart_type` field.
    pub closed spec fn spec_multipart_type(&self) -> MultipartType {
        self.multipart_type
    }

    /// Builds a reader over `data` from an explicit boundary and subtype,
    /// taken on faith: this always succeeds.
    pub fn from_data_with_boundary_and_type(
        data: &[u8],
        boundary: &str,
        multipart_type: MultipartType,
    ) -> (r: Result<MultipartReader, MultipartError>)
        ensures
            r is Ok,
            ({
                let rd = r.unwrap();
                &&& rd.wf()
                &&& rd.spec_boundary() == boundary@
                &&& rd.spec_multipart_type() == multipart_type
                &&& rd@.boundary == boundary.spec_bytes()
                &&& rd@.rest == data@
                &&& rd@.state == ParserState::AwaitingFirstBoundary
                &&& rd@.pending is None
            }),
    {
        let rd = MultipartReader {
            boundary: boundary.to_owned(),
            boundary_bytes: slice_to_vec(boundary.as_bytes()),
            multipart_type,
            data: slice_to_vec(data),
            pos: 0,
            state: ParserState::AwaitingFirstBoundary,
            pending_item: None,
        };
        proof {
            assert(rd@.rest =~= data@);
        }
        Ok(rd)
    }

    /// Builds a reader over `data` from a header collection: the first
    /// `Content-Type` entry, found without regard to ASCII case, is parsed
    /// as a media type, and its boundary parameter and subtype are
    /// extracted. Fails with `NoContentType` when no such entry exists,
    /// and otherwise exactly as `spec_resolve` says of the parsed triple.
    pub fn from_data_with_headers(data: &[u8], headers: &Vec<(String, String)>) -> (r: Result<
        MultipartReader,
        MultipartError,
    >)
        ensures
            ({
                match spec_content_type_value(headers_view(headers@)) {
                    None => r == Err::<MultipartReader, MultipartError>(
                        MultipartError::NoContentType,
                    ),
                    Some(v) => match spec_resolve(mime_parts_of(v)) {
                        Err(e) => r == Err::<MultipartReader, MultipartError>(e),
                        Ok(p) => {
                            &&& r is Ok
                            &&& r.unwrap().wf()
                            &&& r.unwrap().spec_boundary() == p.0
                            &&& r.unwrap().spec_multipart_type() == p.1
                            &&& r.unwrap()@.boundary == encode_utf8(p.0)
                            &&& r.unwrap()@.rest == data@
                            &&& r.unwrap()@.state == ParserState::AwaitingFirstBoundary
                            &&& r.unwrap()@.pending is None
                        },
                    },
                }
            }),
    {
        let ct = find_content_type(headers);
        match ct {
            None => Err(MultipartError::NoContentType),
            Some(v) => {
                let parts = parse_media_type(v.as_str());
                match resolve_media_parts(parts) {
                    Err(e) => Err(e),
                    Ok(bt) => {
                        let (bd, mt) = bt;
                        Self::from_data_with_boundary_and_type(data, bd.as_str(), mt)
                    },
                }
            },
        }
    }

    /// Whether a line opens with the boundary: a byte-prefix test only.
    /// Trailing extra bytes after the boundary are deliberately ignored, so
    /// a terminal boundary line (with its trailing `--`) also matches.
    pub fn is_boundary(&self, data: &[u8]) -> (r: bool)
        ensures
            r == self@.boundary.is_prefix_of(data@),
    {
        let blen = self.boundary_bytes.len();
        if data.len() < blen {
            return false;
        }
        let mut i: usize = 0;
        while i < blen
            invariant
                0 <= i <= blen,
                blen == self.boundary_bytes@.len(),
                blen <= data@.len(),
                forall|j: int| 0 <= j < i ==> self.boundary_bytes@[j] == data@[j],
            decreases blen - i,
        {
            if *slice_index_get(data, i) != self.boundary_bytes[i] {
                proof {
                    assert(self@.boundary[i as int] != data@.subrange(0, blen as int)[i as int]);
                }
                return false;
            }
            i = i + 1;
        }
        proof {
            assert(self@.boundary =~= data@.subrange(0, blen as int));
        }
        true
    }

    /// Produces the next part of the body, or an error, or `None` when no
    /// further CRLF-terminated line is available. Follows the `scan` model
    /// exactly: the outcome and the state afterwards are those of
    /// `scan(boundary, rest, state, pending)` on the state before the call.
    #[verifier::loop_isolation(false)]
    pub fn poll_next(&mut self) -> (r: Option<Result<MultipartItem, MultipartError>>)
        requires
            old(self).wf(),
        ensures
            final(self).wf(),
            final(self).spec_boundary() == old(self).spec_boundary(),
            final(self).spec_multipart_type() == old(self).spec_multipart_type(),
            final(self)@.boundary == old(self)@.boundary,
            ({
                let step = scan(
                    old(self)@.boundary,
                    old(self)@.rest,
                    old(self)@.state,
                    old(self)@.pending,
                );
                &&& final(self)@.rest == step.rest
                &&& final(self)@.state == step.state
                &&& final(self)@.pending == step.pending
                &&& match r {
                    None => step.outcome is None,
                    Some(Ok(item)) => step.outcome == Some(Ok::<ItemModel, MultipartError>(item@)),
                    Some(Err(e)) => step.outcome == Some(Err::<ItemModel, MultipartError>(e)),
                }
            }),
    {
        let ghost step = scan(old(self)@.boundary, old(self)@.rest, old(self)@.state, old(self)@.pending);
        loop
            invariant
                self.wf(),
                self.boundary == old(self).boundary,
                self.multipart_type == old(self).multipart_type,
                self.boundary_bytes == old(self).boundary_bytes,
                self.data == old(self).data,
                scan(self@.boundary, self@.rest, self@.state, self@.pending) == step,
            decreases self.data@.len() - self.pos,
        {
            let ghost cur = self@;
            proof {
                lemma_find_crlf_spec(cur.rest);
            }
            let suffix = slice_subrange(self.data.as_slice(), self.pos, self.data.len());
            let found = find_crlf(suffix);
            match found {
                None => {
                    proof {
                        assert(scan(cur.boundary, cur.rest, cur.state, cur.pending) == ScanStep {
                            outcome: None,
                            rest: cur.rest,
                            state: cur.state,
                            pending: cur.pending,
                        });
                    }
                    return None;
                },
                Some(idx) => {
                    proof {
                        lemma_suffix_prefix(self.data@, self.pos as int, idx as int);
                        lemma_suffix_subrange(self.data@, self.pos as int, idx as int + 2);
                    }
                    let line_end = self.pos + idx;
                    let ghost spec_line = cur.rest.subrange(0, idx as int);
                    let ghost spec_after = cur.rest.subrange(idx as int + 2, cur.rest.len() as int);
                    match self.state {
                        ParserState::Eof => {
                            proof {
                                assert(scan(cur.boundary, cur.rest, cur.state, cur.pending)
                                    == ScanStep {
                                    outcome: None,
                                    rest: cur.rest,
                                    state: cur.state,
                                    pending: cur.pending,
                                });
                            }
                            return None;
                        },
                        ParserState::AwaitingFirstBoundary => {
                            let line = slice_subrange(self.data.as_slice(), self.pos, line_end);
                            let hit = self.is_boundary(line);
                            if hit {
                                self.state = ParserState::ReadingHeaders;
                            }
                            self.pos = line_end + 2;
                            proof {
                                assert(self@.rest == spec_after);
                                assert(scan(cur.boundary, cur.rest, cur.state, cur.pending)
                                    == scan(self@.boundary, self@.rest, self@.state, self@.pending));
                            }
                        },
                        ParserState::ReadingHeaders => {
                            let ghost pend = if cur.pending is Some {
                                cur.pending.unwrap()
                            } else {
                                empty_item()
                            };
                            if self.pending_item.is_none() {
                                self.pending_item = Some(
                                    MultipartItem { headers: Vec::new(), data: Vec::new() },
                                );
                                proof {
                                    assert(self@.pending.unwrap() =~= empty_item());
                                }
                            }
                            proof {
                                assert(self@.pending == Some(pend));
                            }
                            let line = slice_subrange(self.data.as_slice(), self.pos, line_end);
                            let decoded = decode_line(line);
                            match decoded {
                                None => {
                                    self.state = ParserState::Eof;
                                    proof {
                                        assert(scan(cur.boundary, cur.rest, cur.state, cur.pending)
                                            == ScanStep {
                                            outcome: Some(
                                                Err(MultipartError::InvalidItemHeader),
                                            ),
                                            rest: cur.rest,
                                            state: ParserState::Eof,
                                            pending: Some(pend),
                                        });
                                    }
                                    return Some(Err(MultipartError::InvalidItemHeader));
                                },
                                Some(s) => {
                                    if is_blank_str(s.as_str()) {
                                        self.state = ParserState::AwaitingBoundary;
                                        self.pos = line_end + 2;
                                        proof {
                                            assert(self@.rest == spec_after);
                                            assert(scan(cur.boundary, cur.rest, cur.state, cur.pending)
                                                == scan(
                                                self@.boundary,
                                                self@.rest,
                                                self@.state,
                                                self@.pending,
                                            ));
                                        }
                                    } else {
                                        let (cnt, j) = sep_scan(s.as_str());
                                        if cnt != 1 {
                                            self.state = ParserState::Eof;
                                            proof {
                                                assert(scan(
                                                    cur.boundary,
                                                    cur.rest,
                                                    cur.state,
                                                    cur.pending,
                                                ) == ScanStep {
                                                    outcome: Some(
                                                        Err(MultipartError::InvalidItemHeader),
                                                    ),
                                                    rest: cur.rest,
                                                    state: ParserState::Eof,
                                                    pending: Some(pend),
                                                });
                                            }
                                            return Some(Err(MultipartError::InvalidItemHeader));
                                        }
                                        let n = s.unicode_len();
                                        let name = s.as_str().substring_char(0, j).to_owned();
                                        let value = s.as_str().substring_char(j + 2, n).to_owned();
                                        let mut item = self.pending_item.take().unwrap();
                                        item.headers.push((name, value));
                                        self.pending_item = Some(item);
                                        self.pos = line_end + 2;
                                        proof {
                                            let cs = decode_utf8(spec_line);
                                            assert(s@ == cs);
                                            assert(sep_count(cs) == 1);
                                            assert(header_pair_of(cs) == (name@, value@));
                                            assert(self@.pending.unwrap().headers =~= pend.headers.push(
                                                header_pair_of(cs),
                                            ));
                                            assert(self@.pending.unwrap() =~= ItemModel {
                                                headers: pend.headers.push(header_pair_of(cs)),
                                                body: pend.body,
                                            });
                                            assert(self@.rest == spec_after);
                                            assert(scan(cur.boundary, cur.rest, cur.state, cur.pending)
                                                == scan(
                                                self@.boundary,
                                                self@.rest,
                                                self@.state,
                                                self@.pending,
                                            ));
                                        }
                                    }
                                },
                            }
                        },
                        ParserState::AwaitingBoundary => {
                            let line = slice_subrange(self.data.as_slice(), self.pos, line_end);
                            let hit = self.is_boundary(line);
                            let ghost pend = cur.pending.unwrap();
                            if hit {
                                let item = self.pending_item.take().unwrap();
                                self.pos = line_end + 2;
                                self.state = ParserState::ReadingHeaders;
                                proof {
                                    assert(self@.rest == spec_after);
                                    assert(scan(cur.boundary, cur.rest, cur.state, cur.pending)
                                        == ScanStep {
                                        outcome: Some(Ok(item@)),
                                        rest: spec_after,
                                        state: ParserState::ReadingHeaders,
                                        pending: None,
                                    });
                                }
                                return Some(Ok(item));
                            } else {
                                let mut item = self.pending_item.take().unwrap();
                                item.data.extend_from_slice(line);
                                self.pending_item = Some(item);
                                self.pos = line_end + 2;
                                proof {
                                    assert(self@.pending.unwrap().body =~= pend.body + spec_line);
                                    assert(self@.pending.unwrap() =~= ItemModel {
                                        headers: pend.headers,
                                        body: pend.body + spec_line,
                                    });
                                    assert(self@.rest == spec_after);
                                    assert(scan(cur.boundary, cur.rest, cur.state, cur.pending)
                                        == scan(
                                        self@.boundary,
                                        self@.rest,
                                        self@.state,
                                        self@.pending,
                                    ));
                                }
                            }
                        },
                    }
                },
            }
        }
    }
}

} // verus!
