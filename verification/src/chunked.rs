//! Chunked transfer coding of HTTP/1.1 response bodies.
use vstd::prelude::*;
use crate::bytes::{
    copy_range, crlf_at, find_blank_line, find_crlf, first_blank_line, first_crlf,
    hex_value, is_hex_digit, lemma_first_crlf, lemma_no_first_crlf, parse_hex,
};
use crate::http::{malformed, is_malformed, saturating_add, MAX_RESPONSE_BYTES};
use crate::protocol::{MalformedReason, ProtocolError};

verus! {

/// Position of the first `;` in `b[from..to]`, or `to`.
pub open spec fn first_semicolon(b: Seq<u8>, from: int, to: int) -> int
    decreases to - from,
{
    if from >= to {
        to
    } else if b[from] == 59 {
        from
    } else {
        first_semicolon(b, from + 1, to)
    }
}

/// The digits of a chunk-size field: all of it but a leading `+`.
pub open spec fn chunk_size_digits(f: Seq<u8>) -> Seq<u8> {
    if f.len() > 0 && f[0] == 43 { f.subrange(1, f.len() as int) } else { f }
}

/// The value of a chunk-size field read as a hexadecimal `usize` the way
/// `usize::from_str_radix(_, 16)` reads it: an optional `+`, then one or
/// more hexadecimal digits.
pub open spec fn chunk_size_value(f: Seq<u8>) -> Option<nat> {
    let d = chunk_size_digits(f);
    if d.len() == 0 || !(forall|j: int| 0 <= j < d.len() ==> is_hex_digit(#[trigger] d[j])) {
        None
    } else {
        Some(hex_value(d))
    }
}

pub proof fn lemma_first_crlf_bounds(b: Seq<u8>, from: int)
    ensures
        first_crlf(b, from) == -1 || (from <= first_crlf(b, from) && crlf_at(b, first_crlf(b, from))),
    decreases b.len() - from,
{
    if !(from < 0 || from + 1 >= b.len()) && !crlf_at(b, from) {
        lemma_first_crlf_bounds(b, from + 1);
    }
}

/// What reading a chunked body from a position gives.
pub enum ChunkedView {
    /// More bytes are needed.
    NeedMore,
    /// The coding is invalid.
    Invalid(MalformedReason),
    /// The body ends after this many bytes of the input, with this content.
    Done(int, Seq<u8>),
}

/// Reads chunks from `cursor` on, `body` holding the content read so far.
pub open spec fn chunked_from(b: Seq<u8>, cursor: int, body: Seq<u8>) -> ChunkedView
    decreases b.len() - cursor,
{
    let le = first_crlf(b, cursor);
    proof { lemma_first_crlf_bounds(b, cursor); }
    if cursor < 0 || cursor > b.len() || le < 0 {
        ChunkedView::NeedMore
    } else {
        match chunk_size_value(b.subrange(cursor, first_semicolon(b, cursor, le))) {
            None => ChunkedView::Invalid(MalformedReason::InvalidChunkSize),
            Some(size) => {
                let c = le + 2;
                if size > usize::MAX {
                    ChunkedView::Invalid(MalformedReason::InvalidChunkSize)
                } else if size == 0 {
                    if crlf_at(b, c) {
                        ChunkedView::Done(c + 2, body)
                    } else if first_blank_line(b, c) < 0 {
                        ChunkedView::NeedMore
                    } else {
                        ChunkedView::Done(first_blank_line(b, c) + 4, body)
                    }
                } else {
                    let end = c + size;
                    if end > usize::MAX {
                        ChunkedView::Invalid(MalformedReason::ChunkTooLarge)
                    } else if end + 2 > usize::MAX || end + 2 > b.len() {
                        ChunkedView::NeedMore
                    } else if !crlf_at(b, end) {
                        ChunkedView::Invalid(MalformedReason::InvalidChunkTerminator)
                    } else if saturating_add(body.len() as int, size as int) > MAX_RESPONSE_BYTES {
                        ChunkedView::Invalid(MalformedReason::ResponseTooLarge)
                    } else {
                        chunked_from(b, end + 2, body + b.subrange(c, end))
                    }
                }
            },
        }
    }
}

pub proof fn lemma_first_blank_line_bounds(b: Seq<u8>, from: int)
    ensures
        first_blank_line(b, from) == -1 || (from <= first_blank_line(b, from) && first_blank_line(b, from) + 4 <= b.len()),
    decreases b.len() - from,
{
    if !(from < 0 || from + 3 >= b.len()) && !(crlf_at(b, from) && crlf_at(b, from + 2)) {
        lemma_first_blank_line_bounds(b, from + 1);
    }
}

/// A finished chunked body lies within the input.
pub proof fn lemma_chunked_within(b: Seq<u8>, cursor: int, body: Seq<u8>)
    ensures
        chunked_from(b, cursor, body) matches ChunkedView::Done(n, _) ==> 0 < n <= b.len(),
    decreases b.len() - cursor,
{
    let le = first_crlf(b, cursor);
    lemma_first_crlf_bounds(b, cursor);
    if !(cursor < 0 || cursor > b.len() || le < 0) {
        if let Some(size) = chunk_size_value(b.subrange(cursor, first_semicolon(b, cursor, le))) {
            let c = le + 2;
            lemma_first_blank_line_bounds(b, c);
            if size > 0 && size <= usize::MAX {
                let end = c + size;
                if end + 2 <= b.len() {
                    lemma_chunked_within(b, end + 2, body + b.subrange(c, end));
                }
            }
        }
    }
}

/// The chunked body at the start of `b`.
pub open spec fn chunked(b: Seq<u8>) -> ChunkedView {
    chunked_from(b, 0, Seq::empty())
}

/// `parse_chunked_body` reports `chunked(b)`.
pub open spec fn chunked_result(b: Seq<u8>, r: Result<Option<(usize, Vec<u8>)>, ProtocolError>) -> bool {
    match chunked(b) {
        ChunkedView::NeedMore => r == Ok::<Option<(usize, Vec<u8>)>, ProtocolError>(None),
        ChunkedView::Invalid(reason) => r matches Err(e) && is_malformed(e, reason),
        ChunkedView::Done(n, body) => r matches Ok(Some((m, v))) && m == n && v@ == body,
    }
}

fn semicolon_or_end(b: &[u8], from: usize, to: usize) -> (r: usize)
    requires
        from <= to <= b@.len(),
    ensures
        r as int == first_semicolon(b@, from as int, to as int),
        from <= r <= to,
    decreases to - from,
{
    if from >= to {
        to
    } else if b[from] == 59 {
        from
    } else {
        semicolon_or_end(b, from + 1, to)
    }
}

/// Reads the chunk-size field `b[from..to]`; `None` where
/// `usize::from_str_radix(_, 16)` would fail.
#[verifier::loop_isolation(false)]
fn chunk_size(b: &[u8], from: usize, to: usize) -> (r: Option<usize>)
    requires
        from <= to <= b@.len(),
    ensures
        match chunk_size_value(b@.subrange(from as int, to as int)) {
            Some(v) => if v <= usize::MAX { r == Some(v as usize) } else { r is None },
            None => r is None,
        },
{
    let ghost f = b@.subrange(from as int, to as int);
    let start = if from < to && b[from] == 43 { from + 1 } else { from };
    let ghost d = b@.subrange(start as int, to as int);
    let ghost dd = chunk_size_digits(f);
    proof {
        if from < to {
            assert(f[0] == b@[from as int]);
        }
        if from < to && b@[from as int] == 43 {
            assert(d =~= f.subrange(1, f.len() as int));
        } else {
            assert(d =~= f);
        }
        assert(dd == d);
    }
    if start == to {
        return None;
    }
    let mut i = start;
    while i < to
        invariant
            start <= i <= to <= b@.len(),
            forall|j: int| start <= j < i ==> is_hex_digit(#[trigger] b@[j]),
        decreases to - i,
    {
        let c = b[i];
        if !((48 <= c && c <= 57) || (65 <= c && c <= 70) || (97 <= c && c <= 102)) {
            proof {
                assert(d[i - start] == b@[i as int]);
                assert(!is_hex_digit(d[i - start]));
                assert(!(forall|j: int| 0 <= j < dd.len() ==> is_hex_digit(#[trigger] dd[j])));
            }
            return None;
        }
        i = i + 1;
    }
    proof {
        assert forall|j: int| 0 <= j < d.len() implies is_hex_digit(#[trigger] d[j]) by {
            assert(d[j] == b@[start + j]);
        }
    }
    parse_hex(b, start, to)
}

/// Decodes a chunked body at the start of `bytes`: the content and the
/// bytes consumed through the last chunk and trailer, `None` while more
/// bytes are needed.
pub fn parse_chunked_body(bytes: &[u8]) -> (r: Result<Option<(usize, Vec<u8>)>, ProtocolError>)
    ensures
        chunked_result(bytes@, r),
        r matches Ok(Some((n, _))) ==> 0 < n <= bytes@.len(),
{
    proof { lemma_chunked_within(bytes@, 0, Seq::empty()); }
    let ghost b = bytes@;
    let n = bytes.len();
    let mut cursor: usize = 0;
    let mut body: Vec<u8> = Vec::new();
    loop
        invariant
            b == bytes@,
            n == b.len(),
            cursor <= b.len(),
            body@.len() <= MAX_RESPONSE_BYTES,
            chunked(b) == chunked_from(b, cursor as int, body@),
        decreases b.len() - cursor,
    {
        let line_end = match find_crlf(bytes, cursor) {
            Some(i) => i,
            None => {
                proof { lemma_no_first_crlf(b, cursor as int); }
                return Ok(None);
            },
        };
        proof {
            lemma_first_crlf(b, cursor as int, line_end as int);
            assert(crlf_at(b, line_end as int));
        }
        let field_end = semicolon_or_end(bytes, cursor, line_end);
        let size = match chunk_size(bytes, cursor, field_end) {
            Some(s) => s,
            None => return Err(malformed(MalformedReason::InvalidChunkSize)),
        };
        cursor = line_end + 2;
        if size == 0 {
            if bytes.len() - cursor >= 2 && bytes[cursor] == 13 && bytes[cursor + 1] == 10 {
                return Ok(Some((cursor + 2, body)));
            }
            return match find_blank_line(bytes, cursor) {
                Some(t) => Ok(Some((t + 4, body))),
                None => Ok(None),
            };
        }
        let end = match cursor.checked_add(size) {
            Some(e) => e,
            None => return Err(malformed(MalformedReason::ChunkTooLarge)),
        };
        if end > usize::MAX - 2 || end + 2 > bytes.len() {
            return Ok(None);
        }
        if !(bytes[end] == 13 && bytes[end + 1] == 10) {
            return Err(malformed(MalformedReason::InvalidChunkTerminator));
        }
        if body.len().saturating_add(size) > MAX_RESPONSE_BYTES {
            return Err(malformed(MalformedReason::ResponseTooLarge));
        }
        let chunk = copy_range(bytes, cursor, end);
        let ghost old_body = body@;
        let mut chunk_mut = chunk;
        body.append(&mut chunk_mut);
        proof {
            assert(body@ =~= old_body + b.subrange(cursor as int, end as int));
        }
        cursor = end + 2;
    }
}

} // verus!
