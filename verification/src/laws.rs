//! What the scanner guarantees, proved once and for all over the `scan`
//! model: a well-formed body yields exactly its parts, in order, with
//! headers and bodies matching the source lines; errors force the terminal
//! state; the terminal state never yields anything again.

use vstd::prelude::*;
use vstd::utf8::{decode_utf8, valid_utf8};

use crate::error::MultipartError;
use crate::scan::{
    crlf_at, empty_item, find_crlf_spec, header_pair_of, is_blank_line, is_header_line,
    lemma_find_crlf_spec, no_crlf, scan, ItemModel, ParserState, ScanStep,
};

verus! {

/// The two-byte line terminator.
pub open spec fn crlf() -> Seq<u8> {
    seq![13u8, 10u8]
}

/// A sequence of lines laid out as bytes, each line followed by the
/// terminator.
pub open spec fn encode_lines(lines: Seq<Seq<u8>>) -> Seq<u8>
    decreases lines.len(),
{
    if lines.len() == 0 {
        seq![]
    } else {
        lines[0] + crlf() + encode_lines(lines.skip(1))
    }
}

/// The bytes of a sequence of lines, with the terminators stripped: what
/// the scanner accumulates as a body.
pub open spec fn concat_lines(lines: Seq<Seq<u8>>) -> Seq<u8>
    decreases lines.len(),
{
    if lines.len() == 0 {
        seq![]
    } else {
        lines[0] + concat_lines(lines.skip(1))
    }
}

/// A line that opens with the boundary bytes.
pub open spec fn is_boundary_line(b: Seq<u8>, l: Seq<u8>) -> bool {
    no_crlf(l) && b.is_prefix_of(l)
}

/// A line that does not open with the boundary bytes.
pub open spec fn non_boundary_line(b: Seq<u8>, l: Seq<u8>) -> bool {
    no_crlf(l) && !b.is_prefix_of(l)
}

/// A line the scanner takes as one `"name: value"` header.
pub open spec fn header_line_ok(l: Seq<u8>) -> bool {
    no_crlf(l) && is_header_line(l)
}

/// A line the scanner takes as blank, closing the header section.
pub open spec fn blank_line_ok(l: Seq<u8>) -> bool {
    no_crlf(l) && valid_utf8(l) && is_blank_line(decode_utf8(l))
}

/// The header pairs that a sequence of header lines splits into.
pub open spec fn header_pairs(hls: Seq<Seq<u8>>) -> Seq<(Seq<char>, Seq<char>)> {
    hls.map(|k: int, l: Seq<u8>| header_pair_of(decode_utf8(l)))
}

/// Encoding distributes over appending line sequences.
pub proof fn lemma_encode_append(a: Seq<Seq<u8>>, b: Seq<Seq<u8>>)
    ensures
        encode_lines(a + b) == encode_lines(a) + encode_lines(b),
    decreases a.len(),
{
    if a.len() == 0 {
        assert(a + b =~= b);
        assert(encode_lines(a) + encode_lines(b) =~= encode_lines(b));
    } else {
        lemma_encode_append(a.skip(1), b);
        assert((a + b).skip(1) =~= a.skip(1) + b);
        assert((a + b)[0] == a[0]);
        assert(a[0] + crlf() + (encode_lines(a.skip(1)) + encode_lines(b)) =~= (a[0] + crlf()
            + encode_lines(a.skip(1))) + encode_lines(b));
    }
}

/// A terminated line at the front of a buffer is exactly what
/// `find_crlf_spec` finds: the first CRLF stands right after the line.
pub proof fn lemma_line_consume(l: Seq<u8>, rest: Seq<u8>)
    requires
        no_crlf(l),
    ensures
        find_crlf_spec(l + crlf() + rest) == Some(l.len() as int),
        (l + crlf() + rest).subrange(0, l.len() as int) == l,
        (l + crlf() + rest).subrange(l.len() as int + 2, (l + crlf() + rest).len() as int) == rest,
    decreases l.len(),
{
    let s = l + crlf() + rest;
    assert(s.subrange(0, l.len() as int) =~= l);
    assert(s.subrange(l.len() as int + 2, s.len() as int) =~= rest);
    if l.len() == 0 {
        assert(s[0] == 13u8 && s[1] == 10u8);
    } else {
        assert(s[0] == l[0]);
        if s[0] == 13u8 && s[1] == 10u8 {
            if l.len() >= 2 {
                assert(s[1] == l[1]);
                assert(crlf_at(l, 0));
                assert(false);
            } else {
                assert(s[1] == 13u8);
                assert(false);
            }
        }
        let lt = l.skip(1);
        assert forall|j: int| !crlf_at(lt, j) by {
            if crlf_at(lt, j) {
                assert(lt[j] == l[j + 1]);
                assert(lt[j + 1] == l[j + 2]);
                assert(crlf_at(l, j + 1));
            }
        }
        lemma_line_consume(lt, rest);
        assert(s.skip(1) =~= lt + crlf() + rest);
    }
}

/// In `AwaitingFirstBoundary`, preamble lines are discarded without trace.
pub proof fn lemma_scan_preamble(
    b: Seq<u8>,
    pre: Seq<Seq<u8>>,
    tail: Seq<u8>,
    pending: Option<ItemModel>,
)
    requires
        forall|k: int| 0 <= k < pre.len() ==> non_boundary_line(b, #[trigger] pre[k]),
    ensures
        scan(b, encode_lines(pre) + tail, ParserState::AwaitingFirstBoundary, pending) == scan(
            b,
            tail,
            ParserState::AwaitingFirstBoundary,
            pending,
        ),
    decreases pre.len(),
{
    if pre.len() == 0 {
        assert(encode_lines(pre) + tail =~= tail);
    } else {
        let l0 = pre[0];
        let rest = encode_lines(pre.skip(1)) + tail;
        lemma_line_consume(l0, rest);
        assert(encode_lines(pre) + tail =~= l0 + crlf() + rest);
        let s = l0 + crlf() + rest;
        assert(s.subrange(l0.len() as int + 2, s.len() as int) == rest);
        lemma_scan_preamble(b, pre.skip(1), tail, pending);
    }
}

/// In `ReadingHeaders`, a missing pending part and a freshly opened empty
/// one scan the same, as soon as a line is available.
pub proof fn lemma_scan_fresh_pending(b: Seq<u8>, s: Seq<u8>)
    requires
        find_crlf_spec(s) is Some,
    ensures
        scan(b, s, ParserState::ReadingHeaders, None) == scan(
            b,
            s,
            ParserState::ReadingHeaders,
            Some(empty_item()),
        ),
{
}

/// In `ReadingHeaders`, header lines append their `(name, value)` pairs to
/// the pending part, in order.
pub proof fn lemma_scan_headers(b: Seq<u8>, hls: Seq<Seq<u8>>, tail: Seq<u8>, item: ItemModel)
    requires
        forall|k: int| 0 <= k < hls.len() ==> header_line_ok(#[trigger] hls[k]),
    ensures
        scan(b, encode_lines(hls) + tail, ParserState::ReadingHeaders, Some(item)) == scan(
            b,
            tail,
            ParserState::ReadingHeaders,
            Some(ItemModel { headers: item.headers + header_pairs(hls), body: item.body }),
        ),
    decreases hls.len(),
{
    if hls.len() == 0 {
        assert(encode_lines(hls) + tail =~= tail);
        assert(item.headers + header_pairs(hls) =~= item.headers);
        assert(ItemModel { headers: item.headers + header_pairs(hls), body: item.body } =~= item);
    } else {
        let l0 = hls[0];
        let rest = encode_lines(hls.skip(1)) + tail;
        lemma_line_consume(l0, rest);
        assert(encode_lines(hls) + tail =~= l0 + crlf() + rest);
        let s = l0 + crlf() + rest;
        assert(s.subrange(0, l0.len() as int) == l0);
        assert(s.subrange(l0.len() as int + 2, s.len() as int) == rest);
        let cs = decode_utf8(l0);
        let item1 = ItemModel { headers: item.headers.push(header_pair_of(cs)), body: item.body };
        lemma_scan_headers(b, hls.skip(1), tail, item1);
        assert(item1.headers + header_pairs(hls.skip(1)) =~= item.headers + header_pairs(hls));
        assert(ItemModel {
            headers: item1.headers + header_pairs(hls.skip(1)),
            body: item1.body,
        } =~= ItemModel { headers: item.headers + header_pairs(hls), body: item.body });
    }
}

/// In `AwaitingBoundary`, non-boundary lines append their bytes, with the
/// terminators stripped, to the pending part's body.
pub proof fn lemma_scan_body(b: Seq<u8>, bls: Seq<Seq<u8>>, tail: Seq<u8>, item: ItemModel)
    requires
        forall|k: int| 0 <= k < bls.len() ==> non_boundary_line(b, #[trigger] bls[k]),
    ensures
        scan(b, encode_lines(bls) + tail, ParserState::AwaitingBoundary, Some(item)) == scan(
            b,
            tail,
            ParserState::AwaitingBoundary,
            Some(ItemModel { headers: item.headers, body: item.body + concat_lines(bls) }),
        ),
    decreases bls.len(),
{
    if bls.len() == 0 {
        assert(encode_lines(bls) + tail =~= tail);
        assert(item.body + concat_lines(bls) =~= item.body);
        assert(ItemModel { headers: item.headers, body: item.body + concat_lines(bls) } =~= item);
    } else {
        let l0 = bls[0];
        let rest = encode_lines(bls.skip(1)) + tail;
        lemma_line_consume(l0, rest);
        assert(encode_lines(bls) + tail =~= l0 + crlf() + rest);
        let s = l0 + crlf() + rest;
        assert(s.subrange(0, l0.len() as int) == l0);
        assert(s.subrange(l0.len() as int + 2, s.len() as int) == rest);
        let item1 = ItemModel { headers: item.headers, body: item.body + l0 };
        lemma_scan_body(b, bls.skip(1), tail, item1);
        assert(item1.body + concat_lines(bls.skip(1)) =~= item.body + concat_lines(bls));
        assert(ItemModel {
            headers: item1.headers,
            body: item1.body + concat_lines(bls.skip(1)),
        } =~= ItemModel { headers: item.headers, body: item.body + concat_lines(bls) });
    }
}

/// One part of a body: its header lines, the blank line that closes them,
/// and its body lines.
pub ghost struct PartDesc {
    pub header_lines: Seq<Seq<u8>>,
    pub blank: Seq<u8>,
    pub body_lines: Seq<Seq<u8>>,
}

/// A part is well formed for boundary `b` when its header lines are
/// headers, its blank line is blank, and none of its body lines opens with
/// the boundary.
pub open spec fn part_ok(b: Seq<u8>, p: PartDesc) -> bool {
    &&& forall|k: int| 0 <= k < p.header_lines.len() ==> header_line_ok(#[trigger] p.header_lines[k])
    &&& blank_line_ok(p.blank)
    &&& forall|k: int| 0 <= k < p.body_lines.len() ==> non_boundary_line(b, #[trigger] p.body_lines[k])
}

/// The lines of a part, in buffer order.
pub open spec fn part_lines(p: PartDesc) -> Seq<Seq<u8>> {
    p.header_lines + seq![p.blank] + p.body_lines
}

/// The `ItemModel` that a part's lines describe: one header pair per
/// header line, and the body lines with terminators stripped.
pub open spec fn item_of_part(p: PartDesc) -> ItemModel {
    ItemModel { headers: header_pairs(p.header_lines), body: concat_lines(p.body_lines) }
}

/// One call in `ReadingHeaders` with no pending part, over one well-formed
/// part followed by a boundary line, produces exactly that part and stops
/// right after the boundary line, ready for the next part's headers.
pub proof fn lemma_scan_one_part(b: Seq<u8>, p: PartDesc, bl: Seq<u8>, tail: Seq<u8>)
    requires
        part_ok(b, p),
        is_boundary_line(b, bl),
    ensures
        (scan(
            b,
            encode_lines(part_lines(p)) + (bl + crlf() + tail),
            ParserState::ReadingHeaders,
            None,
        ) == ScanStep {
            outcome: Some(Ok(item_of_part(p))),
            rest: tail,
            state: ParserState::ReadingHeaders,
            pending: None,
        }),
{
    let s = encode_lines(part_lines(p)) + (bl + crlf() + tail);
    lemma_encode_append(p.header_lines + seq![p.blank], p.body_lines);
    lemma_encode_append(p.header_lines, seq![p.blank]);
    assert((seq![p.blank]).skip(1) =~= Seq::<Seq<u8>>::empty());
    assert(encode_lines((seq![p.blank]).skip(1)) =~= Seq::<u8>::empty());
    assert(encode_lines(seq![p.blank]) =~= p.blank + crlf());

    let after_headers = (p.blank + crlf()) + encode_lines(p.body_lines) + (bl + crlf() + tail);
    assert(s =~= encode_lines(p.header_lines) + after_headers);

    // A line is available at the front of `s`, so a missing pending part
    // scans as a fresh empty one.
    if p.header_lines.len() == 0 {
        assert(s =~= p.blank + crlf() + (encode_lines(p.body_lines) + (bl + crlf() + tail)));
        lemma_line_consume(p.blank, encode_lines(p.body_lines) + (bl + crlf() + tail));
    } else {
        let l0 = p.header_lines[0];
        let r0 = encode_lines(p.header_lines.skip(1)) + after_headers;
        assert(s =~= l0 + crlf() + r0) by {
            lemma_encode_append(p.header_lines.skip(1), seq![p.blank] + p.body_lines);
            assert(part_lines(p).skip(1) =~= p.header_lines.skip(1) + (seq![p.blank]
                + p.body_lines));
        }
        lemma_line_consume(l0, r0);
    }
    lemma_scan_fresh_pending(b, s);

    // Headers phase.
    lemma_scan_headers(b, p.header_lines, after_headers, empty_item());
    let item1 = ItemModel {
        headers: empty_item().headers + header_pairs(p.header_lines),
        body: empty_item().body,
    };

    // Blank line closes the headers.
    let after_blank = encode_lines(p.body_lines) + (bl + crlf() + tail);
    assert(after_headers =~= p.blank + crlf() + after_blank);
    lemma_line_consume(p.blank, after_blank);
    assert(after_headers.subrange(0, p.blank.len() as int) == p.blank);
    assert(after_headers.subrange(p.blank.len() as int + 2, after_headers.len() as int) == after_blank);

    // Body phase.
    lemma_scan_body(b, p.body_lines, bl + crlf() + tail, item1);
    let item2 = ItemModel { headers: item1.headers, body: item1.body + concat_lines(p.body_lines) };

    // Closing boundary emits the part.
    lemma_line_consume(bl, tail);
    assert((bl + crlf() + tail).subrange(0, bl.len() as int) == bl);
    assert((bl + crlf() + tail).subrange(bl.len() as int + 2, (bl + crlf() + tail).len() as int) == tail);

    assert(item2 =~= item_of_part(p));
}

/// The parts and boundary lines of a whole body are well formed.
pub open spec fn body_ok(b: Seq<u8>, parts: Seq<PartDesc>, bounds: Seq<Seq<u8>>) -> bool {
    &&& bounds.len() == parts.len() + 1
    &&& forall|k: int| 0 <= k < parts.len() ==> part_ok(b, #[trigger] parts[k])
    &&& forall|k: int| 0 <= k < bounds.len() ==> is_boundary_line(b, #[trigger] bounds[k])
}

/// The unconsumed bytes just before part `k` is scanned: part `k`'s lines,
/// its closing boundary line, then the later parts, then the trailing
/// bytes.
pub open spec fn rest_at(
    parts: Seq<PartDesc>,
    bounds: Seq<Seq<u8>>,
    trailing: Seq<u8>,
    k: int,
) -> Seq<u8>
    decreases parts.len() - k,
{
    if k < 0 || k >= parts.len() {
        trailing
    } else {
        encode_lines(part_lines(parts[k])) + (bounds[k + 1] + crlf() + rest_at(
            parts,
            bounds,
            trailing,
            k + 1,
        ))
    }
}

/// The whole body: preamble lines, the opening boundary line, then the
/// parts, each closed by a boundary line, then the trailing bytes.
pub open spec fn whole_body(
    pre: Seq<Seq<u8>>,
    parts: Seq<PartDesc>,
    bounds: Seq<Seq<u8>>,
    trailing: Seq<u8>,
) -> Seq<u8> {
    encode_lines(pre) + (bounds[0] + crlf() + rest_at(parts, bounds, trailing, 0))
}

/// For a well-formed body with N parts, the k-th "produce next part" call
/// (counting from the one that has consumed the preamble and the opening
/// boundary) produces exactly part k, with its header pairs in order and
/// its body bytes verbatim, and leaves the scanner ready for part k+1.
pub proof fn theorem_parts_in_order(
    b: Seq<u8>,
    parts: Seq<PartDesc>,
    bounds: Seq<Seq<u8>>,
    trailing: Seq<u8>,
    k: int,
)
    requires
        body_ok(b, parts, bounds),
        0 <= k < parts.len(),
    ensures
        (scan(b, rest_at(parts, bounds, trailing, k), ParserState::ReadingHeaders, None)
            == ScanStep {
            outcome: Some(Ok(item_of_part(parts[k]))),
            rest: rest_at(parts, bounds, trailing, k + 1),
            state: ParserState::ReadingHeaders,
            pending: None,
        }),
{
    lemma_scan_one_part(b, parts[k], bounds[k + 1], rest_at(parts, bounds, trailing, k + 1));
}

/// The first "produce next part" call discards the preamble, consumes the
/// opening boundary line, and produces part 0.
pub proof fn theorem_first_part(
    b: Seq<u8>,
    pre: Seq<Seq<u8>>,
    parts: Seq<PartDesc>,
    bounds: Seq<Seq<u8>>,
    trailing: Seq<u8>,
)
    requires
        body_ok(b, parts, bounds),
        forall|k: int| 0 <= k < pre.len() ==> non_boundary_line(b, #[trigger] pre[k]),
        parts.len() > 0,
    ensures
        (scan(
            b,
            whole_body(pre, parts, bounds, trailing),
            ParserState::AwaitingFirstBoundary,
            None,
        ) == ScanStep {
            outcome: Some(Ok(item_of_part(parts[0]))),
            rest: rest_at(parts, bounds, trailing, 1),
            state: ParserState::ReadingHeaders,
            pending: None,
        }),
{
    let tail0 = bounds[0] + crlf() + rest_at(parts, bounds, trailing, 0);
    lemma_scan_preamble(b, pre, tail0, None);
    lemma_line_consume(bounds[0], rest_at(parts, bounds, trailing, 0));
    assert(tail0.subrange(0, bounds[0].len() as int) == bounds[0]);
    assert(tail0.subrange(bounds[0].len() as int + 2, tail0.len() as int) == rest_at(
        parts,
        bounds,
        trailing,
        0,
    ));
    theorem_parts_in_order(b, parts, bounds, trailing, 0);
}

/// When only undelimited trailing bytes remain, nothing further is
/// produced and nothing changes: with no new bytes, every later call says
/// the same.
pub proof fn theorem_exhausted(b: Seq<u8>, trailing: Seq<u8>, state: ParserState, pending: Option<ItemModel>)
    requires
        no_crlf(trailing),
    ensures
        (scan(b, trailing, state, pending) == ScanStep {
            outcome: None,
            rest: trailing,
            state,
            pending,
        }),
{
    lemma_find_crlf_spec(trailing);
    if find_crlf_spec(trailing) is Some {
        assert(crlf_at(trailing, find_crlf_spec(trailing).unwrap()));
    }
}

/// Once `Eof` is reached, every call reports nothing available and leaves
/// the scanner exactly as it was: no part and no error ever again.
pub proof fn theorem_eof_is_terminal(b: Seq<u8>, rest: Seq<u8>, pending: Option<ItemModel>)
    ensures
        (scan(b, rest, ParserState::Eof, pending) == ScanStep {
            outcome: None,
            rest,
            state: ParserState::Eof,
            pending,
        }),
{
}

/// Every error outcome forces the state to `Eof`: with
/// `theorem_eof_is_terminal`, an error is terminal for the instance.
pub proof fn theorem_error_forces_eof(
    b: Seq<u8>,
    rest: Seq<u8>,
    state: ParserState,
    pending: Option<ItemModel>,
)
    ensures
        ((scan(b, rest, state, pending).outcome matches Some(r) && r is Err) ==> scan(
            b,
            rest,
            state,
            pending,
        ).state == ParserState::Eof),
    decreases rest.len(),
{
    match find_crlf_spec(rest) {
        None => {},
        Some(i) => {
            lemma_find_crlf_spec(rest);
            let after = rest.subrange(i + 2, rest.len() as int);
            match state {
                ParserState::Eof => {},
                ParserState::AwaitingFirstBoundary => {
                    theorem_error_forces_eof(b, after, ParserState::AwaitingFirstBoundary, pending);
                    theorem_error_forces_eof(b, after, ParserState::ReadingHeaders, pending);
                },
                ParserState::ReadingHeaders => {
                    let pend = if pending is Some {
                        pending.unwrap()
                    } else {
                        empty_item()
                    };
                    let cs = decode_utf8(rest.subrange(0, i));
                    theorem_error_forces_eof(b, after, ParserState::AwaitingBoundary, Some(pend));
                    theorem_error_forces_eof(
                        b,
                        after,
                        ParserState::ReadingHeaders,
                        Some(
                            ItemModel {
                                headers: pend.headers.push(header_pair_of(cs)),
                                body: pend.body,
                            },
                        ),
                    );
                },
                ParserState::AwaitingBoundary => {
                    theorem_error_forces_eof(
                        b,
                        after,
                        ParserState::ReadingHeaders,
                        Some(empty_item()),
                    );
                    match pending {
                        Some(item) => {
                            theorem_error_forces_eof(
                                b,
                                after,
                                ParserState::AwaitingBoundary,
                                Some(
                                    ItemModel {
                                        headers: item.headers,
                                        body: item.body + rest.subrange(0, i),
                                    },
                                ),
                            );
                        },
                        None => {},
                    }
                },
            }
        },
    }
}

/// A header line with no `": "` separator, with two or more of them, or
/// not decodable as UTF-8, is answered with `InvalidItemHeader` at once,
/// the cursor left where it stood and the state forced to `Eof`.
pub proof fn theorem_bad_header_line(
    b: Seq<u8>,
    l: Seq<u8>,
    tail: Seq<u8>,
    pending: Option<ItemModel>,
)
    requires
        no_crlf(l),
        !is_header_line(l),
        !(valid_utf8(l) && is_blank_line(decode_utf8(l))),
    ensures
        (scan(b, l + crlf() + tail, ParserState::ReadingHeaders, pending) == ScanStep {
            outcome: Some(Err(MultipartError::InvalidItemHeader)),
            rest: l + crlf() + tail,
            state: ParserState::Eof,
            pending: Some(
                if pending is Some {
                    pending.unwrap()
                } else {
                    empty_item()
                },
            ),
        }),
{
    lemma_line_consume(l, tail);
    let s = l + crlf() + tail;
    assert(s.subrange(0, l.len() as int) == l);
}

/// One suffix relation passes through another.
proof fn lemma_suffix_trans(a: Seq<u8>, mid: Seq<u8>, c: Seq<u8>)
    requires
        a.is_suffix_of(mid),
        mid.is_suffix_of(c),
    ensures
        a.is_suffix_of(c),
{
    assert(a =~= c.subrange(c.len() - a.len(), c.len() as int));
}

/// The cursor only moves forward: what one call leaves unconsumed is a
/// suffix of what it was given, so bytes once consumed are never re-read
/// or re-yielded.
pub proof fn theorem_cursor_monotonic(
    b: Seq<u8>,
    rest: Seq<u8>,
    state: ParserState,
    pending: Option<ItemModel>,
)
    ensures
        scan(b, rest, state, pending).rest.is_suffix_of(rest),
    decreases rest.len(),
{
    assert(rest.is_suffix_of(rest)) by {
        assert(rest =~= rest.subrange(0, rest.len() as int));
    }
    match find_crlf_spec(rest) {
        None => {},
        Some(i) => {
            lemma_find_crlf_spec(rest);
            let after = rest.subrange(i + 2, rest.len() as int);
            assert(after.is_suffix_of(rest)) by {
                assert(after =~= rest.subrange(rest.len() - after.len(), rest.len() as int));
            }
            match state {
                ParserState::Eof => {},
                ParserState::AwaitingFirstBoundary => {
                    theorem_cursor_monotonic(b, after, ParserState::AwaitingFirstBoundary, pending);
                    theorem_cursor_monotonic(b, after, ParserState::ReadingHeaders, pending);
                    lemma_suffix_trans(
                        scan(b, after, ParserState::AwaitingFirstBoundary, pending).rest,
                        after,
                        rest,
                    );
                    lemma_suffix_trans(
                        scan(b, after, ParserState::ReadingHeaders, pending).rest,
                        after,
                        rest,
                    );
                },
                ParserState::ReadingHeaders => {
                    let pend = if pending is Some {
                        pending.unwrap()
                    } else {
                        empty_item()
                    };
                    let cs = decode_utf8(rest.subrange(0, i));
                    let item1 = ItemModel {
                        headers: pend.headers.push(header_pair_of(cs)),
                        body: pend.body,
                    };
                    theorem_cursor_monotonic(b, after, ParserState::AwaitingBoundary, Some(pend));
                    theorem_cursor_monotonic(b, after, ParserState::ReadingHeaders, Some(item1));
                    lemma_suffix_trans(
                        scan(b, after, ParserState::AwaitingBoundary, Some(pend)).rest,
                        after,
                        rest,
                    );
                    lemma_suffix_trans(
                        scan(b, after, ParserState::ReadingHeaders, Some(item1)).rest,
                        after,
                        rest,
                    );
                },
                ParserState::AwaitingBoundary => {
                    theorem_cursor_monotonic(
                        b,
                        after,
                        ParserState::ReadingHeaders,
                        Some(empty_item()),
                    );
                    lemma_suffix_trans(
                        scan(b, after, ParserState::ReadingHeaders, Some(empty_item())).rest,
                        after,
                        rest,
                    );
                    match pending {
                        Some(item) => {
                            let item1 = ItemModel {
                                headers: item.headers,
                                body: item.body + rest.subrange(0, i),
                            };
                            theorem_cursor_monotonic(
                                b,
                                after,
                                ParserState::AwaitingBoundary,
                                Some(item1),
                            );
                            lemma_suffix_trans(
                                scan(b, after, ParserState::AwaitingBoundary, Some(item1)).rest,
                                after,
                                rest,
                            );
                        },
                        None => {},
                    }
                },
            }
        },
    }
}

/// The header count of a produced part equals the number of header lines
/// between its opening boundary and the blank line.
pub proof fn theorem_header_count(p: PartDesc)
    ensures
        item_of_part(p).headers.len() == p.header_lines.len(),
{
}

} // verus!
