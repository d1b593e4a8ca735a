//! The mathematical model of the scanner.
//!
//! `scan` says, line by line, what one "produce next part" call does: which
//! outcome it hands to the caller and what the parser looks like afterwards.
//! The executable `MultipartReader::poll_next` is proved to follow `scan`
//! exactly.

use vstd::prelude::*;
use vstd::utf8::{decode_utf8, valid_utf8};

use crate::error::MultipartError;

verus! {

/// The state of the line-scanning machine. A parser starts in
/// `AwaitingFirstBoundary`, alternates between `ReadingHeaders` and
/// `AwaitingBoundary` once per part, and never leaves `Eof`.
#[derive(Debug, Clone, Copy, PartialEq, Eq, Structural)]
pub enum ParserState {
    /// Discarding preamble lines until the first boundary line.
    AwaitingFirstBoundary,
    /// Collecting `"name: value"` header lines of the current part.
    ReadingHeaders,
    /// Collecting body lines of the current part until a boundary closes it.
    AwaitingBoundary,
    /// Terminal: no further part is ever produced.
    Eof,
}

/// Mathematical image of one part: its header pairs in order, and its body
/// bytes with line terminators stripped.
#[verifier::ext_equal]
pub ghost struct ItemModel {
    pub headers: Seq<(Seq<char>, Seq<char>)>,
    pub body: Seq<u8>,
}

/// A freshly opened part: no headers, no body.
pub open spec fn empty_item() -> ItemModel {
    ItemModel { headers: seq![], body: seq![] }
}

/// The index of the first CRLF pair in `s`, if there is one.
pub open spec fn find_crlf_spec(s: Seq<u8>) -> Option<int>
    decreases s.len(),
{
    if s.len() < 2 {
        None
    } else if s[0] == 13u8 && s[1] == 10u8 {
        Some(0)
    } else {
        match find_crlf_spec(s.skip(1)) {
            None => None,
            Some(i) => Some(i + 1),
        }
    }
}

/// A CRLF pair stands at position `j` of `s`.
pub open spec fn crlf_at(s: Seq<u8>, j: int) -> bool {
    0 <= j && j + 2 <= s.len() && s[j] == 13u8 && s[j + 1] == 10u8
}

/// `s` holds no CRLF pair at all: the scanner sees no complete line in it.
pub open spec fn no_crlf(s: Seq<u8>) -> bool {
    forall|j: int| !crlf_at(s, j)
}

/// `find_crlf_spec` returns the least index of a CRLF pair, or `None` when
/// no pair exists.
pub proof fn lemma_find_crlf_spec(s: Seq<u8>)
    ensures
        match find_crlf_spec(s) {
            Some(i) => crlf_at(s, i) && (forall|j: int| j < i ==> !crlf_at(s, j)),
            None => no_crlf(s),
        },
    decreases s.len(),
{
    if s.len() < 2 {
        assert forall|j: int| !crlf_at(s, j) by {}
    } else if s[0] == 13u8 && s[1] == 10u8 {
    } else {
        lemma_find_crlf_spec(s.skip(1));
        assert(forall|j: int| 0 <= j && j + 1 < s.len() ==> s.skip(1)[j] == s[j + 1]);
        assert forall|j: int| 1 <= j && crlf_at(s, j) implies crlf_at(s.skip(1), j - 1) by {
            assert(s.skip(1)[j - 1] == s[j]);
            assert(s.skip(1)[j] == s[j + 1]);
        }
        match find_crlf_spec(s.skip(1)) {
            Some(i) => {
                assert(s.skip(1)[i] == s[i + 1]);
                assert(s.skip(1)[i + 1] == s[i + 2]);
                assert(crlf_at(s, i + 1));
                assert forall|j: int| j < i + 1 implies !crlf_at(s, j) by {
                    if 1 <= j && crlf_at(s, j) {
                        assert(crlf_at(s.skip(1), j - 1));
                    }
                }
            },
            None => {
                assert forall|j: int| !crlf_at(s, j) by {
                    if 1 <= j && crlf_at(s, j) {
                        assert(crlf_at(s.skip(1), j - 1));
                    }
                }
            },
        }
    }
}

/// The characters with the Unicode `White_Space` property, which is what
/// `char::is_whitespace` tests.
pub open spec fn is_whitespace_char(c: char) -> bool {
    c == ' ' || c == '\t' || c == '\n' || c == '\r'
        || c as u32 == 0x0b || c as u32 == 0x0c || c as u32 == 0x85 || c as u32 == 0xa0
        || c as u32 == 0x1680 || (0x2000 <= c as u32 && c as u32 <= 0x200a)
        || c as u32 == 0x2028 || c as u32 == 0x2029 || c as u32 == 0x202f
        || c as u32 == 0x205f || c as u32 == 0x3000
}

/// A line is blank when every character is whitespace: such a line closes
/// the header section of a part.
pub open spec fn is_blank_line(cs: Seq<char>) -> bool {
    forall|i: int| 0 <= i < cs.len() ==> is_whitespace_char(#[trigger] cs[i])
}

/// The `": "` separator stands at position `i` of `cs`.
pub open spec fn is_sep_at(cs: Seq<char>, i: int) -> bool {
    0 <= i && i + 2 <= cs.len() && cs[i] == ':' && cs[i + 1] == ' '
}

/// How many positions at or after `i` carry the `": "` separator.
pub open spec fn sep_count_from(cs: Seq<char>, i: int) -> nat
    decreases cs.len() - i,
{
    if i + 2 > cs.len() {
        0
    } else {
        (if is_sep_at(cs, i) {
            1nat
        } else {
            0nat
        }) + sep_count_from(cs, i + 1)
    }
}

/// How many positions of `cs` carry the `": "` separator. A header line
/// must have exactly one.
pub open spec fn sep_count(cs: Seq<char>) -> nat {
    sep_count_from(cs, 0)
}

/// The first position at or after `i` carrying the `": "` separator.
pub open spec fn first_sep_from(cs: Seq<char>, i: int) -> Option<int>
    decreases cs.len() - i,
{
    if i + 2 > cs.len() {
        None
    } else if is_sep_at(cs, i) {
        Some(i)
    } else {
        first_sep_from(cs, i + 1)
    }
}

/// The first position of the `": "` separator in `cs`.
pub open spec fn first_sep(cs: Seq<char>) -> Option<int> {
    first_sep_from(cs, 0)
}

/// The `(name, value)` pair a header line splits into: the characters
/// before the first `": "`, and the characters after it.
pub open spec fn header_pair_of(cs: Seq<char>) -> (Seq<char>, Seq<char>)
    recommends
        sep_count(cs) >= 1,
{
    let j = first_sep(cs).unwrap();
    (cs.subrange(0, j), cs.subrange(j + 2, cs.len() as int))
}

/// A byte line that the scanner accepts as one header: valid UTF-8, not
/// blank, and with exactly one `": "` separator.
pub open spec fn is_header_line(l: Seq<u8>) -> bool {
    &&& valid_utf8(l)
    &&& !is_blank_line(decode_utf8(l))
    &&& sep_count(decode_utf8(l)) == 1
}

/// What one "produce next part" call leaves behind: the outcome handed to
/// the caller (`None` means "nothing available"), and the unconsumed bytes,
/// state and pending part afterwards.
#[verifier::ext_equal]
pub ghost struct ScanStep {
    pub outcome: Option<Result<ItemModel, MultipartError>>,
    pub rest: Seq<u8>,
    pub state: ParserState,
    pub pending: Option<ItemModel>,
}

/// One "produce next part" call over the model `(rest, state, pending)`
/// with the given boundary bytes: lines are pulled off `rest` one at a time
/// and the state table is applied until a part is complete, an error is
/// found, or no terminated line remains. A line is a boundary whenever the
/// boundary bytes are a prefix of it.
pub open spec fn scan(
    boundary: Seq<u8>,
    rest: Seq<u8>,
    state: ParserState,
    pending: Option<ItemModel>,
) -> ScanStep
    decreases rest.len(),
        via scan_decreases
{
    match find_crlf_spec(rest) {
        None => ScanStep { outcome: None, rest, state, pending },
        Some(i) => {
            let line = rest.subrange(0, i);
            let after = rest.subrange(i + 2, rest.len() as int);
            match state {
                ParserState::Eof => ScanStep { outcome: None, rest, state, pending },
                ParserState::AwaitingFirstBoundary => {
                    if boundary.is_prefix_of(line) {
                        scan(boundary, after, ParserState::ReadingHeaders, pending)
                    } else {
                        scan(boundary, after, ParserState::AwaitingFirstBoundary, pending)
                    }
                },
                ParserState::ReadingHeaders => {
                    let pend = if pending is Some {
                        pending.unwrap()
                    } else {
                        empty_item()
                    };
                    if !valid_utf8(line) {
                        ScanStep {
                            outcome: Some(Err(MultipartError::InvalidItemHeader)),
                            rest,
                            state: ParserState::Eof,
                            pending: Some(pend),
                        }
                    } else {
                        let cs = decode_utf8(line);
                        if is_blank_line(cs) {
                            scan(boundary, after, ParserState::AwaitingBoundary, Some(pend))
                        } else if sep_count(cs) == 1 {
                            scan(
                                boundary,
                                after,
                                ParserState::ReadingHeaders,
                                Some(ItemModel { headers: pend.headers.push(header_pair_of(cs)), body: pend.body }),
                            )
                        } else {
                            ScanStep {
                                outcome: Some(Err(MultipartError::InvalidItemHeader)),
                                rest,
                                state: ParserState::Eof,
                                pending: Some(pend),
                            }
                        }
                    }
                },
                ParserState::AwaitingBoundary => {
                    if boundary.is_prefix_of(line) {
                        match pending {
                            Some(item) => ScanStep {
                                outcome: Some(Ok(item)),
                                rest: after,
                                state: ParserState::ReadingHeaders,
                                pending: None,
                            },
                            None => scan(boundary, after, ParserState::ReadingHeaders, Some(empty_item())),
                        }
                    } else {
                        match pending {
                            Some(item) => scan(
                                boundary,
                                after,
                                ParserState::AwaitingBoundary,
                                Some(ItemModel { headers: item.headers, body: item.body + line }),
                            ),
                            None => ScanStep { outcome: None, rest, state, pending },
                        }
                    }
                },
            }
        },
    }
}

#[via_fn]
proof fn scan_decreases(
    boundary: Seq<u8>,
    rest: Seq<u8>,
    state: ParserState,
    pending: Option<ItemModel>,
) {
    lemma_find_crlf_spec(rest);
}

} // verus!
