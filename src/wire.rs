//! The wire grammar, stated over byte sequences: how a frame is written,
//! and what reading a frame from a buffer yields.
use crate::decimal::{all_digits, decimal, digits_value};
use crate::frame::FrameModel;
use vstd::prelude::*;
use vstd::utf8::*;

verus! {

pub const CR: u8 = 13;

pub const LF: u8 = 10;

/// How deeply arrays may nest in a frame read from the wire. The bound keeps
/// the recursion of the decoder, and so the stack of a connection, bounded on
/// any input, so that no peer can crash the process. Encoding has no such
/// bound: a frame nested deeper than this is written, but reads back as
/// `TooDeep`.
pub const MAX_NESTING: usize = 64;

/// Why a buffer does not hold a frame.
#[derive(Debug, PartialEq, Eq, Clone, Copy)]
pub enum Malformation {
    /// The first byte names no frame kind.
    UnknownTag,
    /// A line holds a lone carriage return or line feed.
    BadLine,
    /// A simple string or error is not valid UTF-8.
    BadText,
    /// An integer lacks its sign, has no digits or leaves the 64-bit range.
    BadInteger,
    /// A length or count is not a plain decimal number that fits a `usize`.
    BadLength,
    /// A bulk payload or a null is not followed by its terminator.
    BadTerminator,
    /// Arrays nest deeper than `MAX_NESTING`.
    TooDeep,
}

/// Why decoding gave no frame.
#[derive(Debug, PartialEq, Eq, Clone, Copy)]
pub enum ProtocolError {
    /// The bytes end before a frame does: wait for more.
    Incomplete,
    /// The bytes can never become a frame.
    Malformed(Malformation),
}

pub open spec fn is_line_break(b: u8) -> bool {
    b == CR || b == LF
}

/// The first index at or after `i` that holds a carriage return or a line
/// feed, or the length of `s` when there is none.
pub open spec fn line_end(s: Seq<u8>, i: int) -> int
    decreases s.len() - i,
{
    if i >= s.len() {
        s.len() as int
    } else if is_line_break(s[i]) {
        i
    } else {
        line_end(s, i + 1)
    }
}

/// Reads a line that starts at `p`: the index of its closing `\r\n`.
pub open spec fn read_line(s: Seq<u8>, p: int) -> Result<int, ProtocolError> {
    let e = line_end(s, p);
    if e >= s.len() {
        Err(ProtocolError::Incomplete)
    } else if s[e] == LF {
        Err(ProtocolError::Malformed(Malformation::BadLine))
    } else if e + 1 >= s.len() {
        Err(ProtocolError::Incomplete)
    } else if s[e + 1] != LF {
        Err(ProtocolError::Malformed(Malformation::BadLine))
    } else {
        Ok(e)
    }
}

/// Reads the text of a simple string or error that starts at `p`.
pub open spec fn read_text(s: Seq<u8>, p: int) -> Result<(Seq<char>, int), ProtocolError> {
    match read_line(s, p) {
        Err(e) => Err(e),
        Ok(e) => {
            let line = s.subrange(p, e);
            if valid_utf8(line) {
                Ok((decode_utf8(line), e + 2))
            } else {
                Err(ProtocolError::Malformed(Malformation::BadText))
            }
        },
    }
}

pub open spec fn fits_i64(v: int) -> bool {
    i64::MIN <= v <= i64::MAX
}

/// The value of a signed integer line: a `+` or `-`, then decimal digits.
pub open spec fn signed_value(line: Seq<u8>) -> Option<int> {
    if line.len() < 2 || !all_digits(line.subrange(1, line.len() as int)) {
        None
    } else {
        let m = digits_value(line.subrange(1, line.len() as int)) as int;
        let v = if line[0] == 45u8 {
            -m
        } else {
            m
        };
        if (line[0] == 43u8 || line[0] == 45u8) && fits_i64(v) {
            Some(v)
        } else {
            None
        }
    }
}

/// Reads the line of an integer that starts at `p`. A first byte that is no
/// sign is refused at once, without waiting for the end of the line.
pub open spec fn read_integer(s: Seq<u8>, p: int) -> Result<(int, int), ProtocolError> {
    if 0 <= p < s.len() && s[p] != 43u8 && s[p] != 45u8 {
        Err(ProtocolError::Malformed(Malformation::BadInteger))
    } else {
        match read_line(s, p) {
            Err(e) => Err(e),
            Ok(e) => match signed_value(s.subrange(p, e)) {
                Some(v) => Ok((v, e + 2)),
                None => Err(ProtocolError::Malformed(Malformation::BadInteger)),
            },
        }
    }
}

/// Reads the length line of a bulk string or the count line of an array.
pub open spec fn read_count(s: Seq<u8>, p: int) -> Result<(nat, int), ProtocolError> {
    match read_line(s, p) {
        Err(e) => Err(e),
        Ok(e) => {
            let line = s.subrange(p, e);
            if line.len() == 0 || !all_digits(line) || digits_value(line) > usize::MAX {
                Err(ProtocolError::Malformed(Malformation::BadLength))
            } else {
                Ok((digits_value(line), e + 2))
            }
        },
    }
}

/// Reads a bulk payload of `n` bytes and its terminator, from `q` on.
pub open spec fn read_payload(s: Seq<u8>, q: int, n: nat) -> Result<(Seq<u8>, int), ProtocolError> {
    if s.len() - q < n + 2 {
        Err(ProtocolError::Incomplete)
    } else if s[q + n] != CR || s[q + n + 1] != LF {
        Err(ProtocolError::Malformed(Malformation::BadTerminator))
    } else {
        Ok((s.subrange(q, q + n), q + n + 2))
    }
}

/// What reading one frame at `p` of `s` yields: the frame and the index just
/// after it, or why there is none. Arrays may nest `room` deep.
pub open spec fn parse_at(s: Seq<u8>, p: int, room: nat) -> Result<(FrameModel, int), ProtocolError>
    decreases s.len() - p, 0int,
{
    if p < 0 || p >= s.len() {
        Err(ProtocolError::Incomplete)
    } else {
        let tag = s[p];
        if tag == 43u8 {
            match read_text(s, p + 1) {
                Ok((t, q)) => Ok((FrameModel::Simple(t), q)),
                Err(e) => Err(e),
            }
        } else if tag == 45u8 {
            match read_text(s, p + 1) {
                Ok((t, q)) => Ok((FrameModel::Error(t), q)),
                Err(e) => Err(e),
            }
        } else if tag == 58u8 {
            match read_integer(s, p + 1) {
                Ok((v, q)) => Ok((FrameModel::Integer(v), q)),
                Err(e) => Err(e),
            }
        } else if tag == 36u8 {
            match read_count(s, p + 1) {
                Ok((n, q)) => match read_payload(s, q, n) {
                    Ok((b, r)) => Ok((FrameModel::Bulk(b), r)),
                    Err(e) => Err(e),
                },
                Err(e) => Err(e),
            }
        } else if tag == 95u8 {
            match read_line(s, p + 1) {
                Ok(e) => if e == p + 1 {
                    Ok((FrameModel::Null, e + 2))
                } else {
                    Err(ProtocolError::Malformed(Malformation::BadTerminator))
                },
                Err(e) => Err(e),
            }
        } else if tag == 42u8 {
            match read_count(s, p + 1) {
                Ok((n, q)) => {
                    proof {
                        lemma_line_end_bounds(s, p + 1);
                    }
                    if room == 0 {
                        Err(ProtocolError::Malformed(Malformation::TooDeep))
                    } else {
                        match parse_items(s, q, n, (room - 1) as nat) {
                            Ok((items, r)) => Ok((FrameModel::Array(items), r)),
                            Err(e) => Err(e),
                        }
                    }
                },
                Err(e) => Err(e),
            }
        } else {
            Err(ProtocolError::Malformed(Malformation::UnknownTag))
        }
    }
}

/// What reading `n` frames one after another from `p` on yields.
pub open spec fn parse_items(s: Seq<u8>, p: int, n: nat, room: nat) -> Result<
    (Seq<FrameModel>, int),
    ProtocolError,
>
    decreases s.len() - p, 1int,
{
    if n == 0 {
        Ok((Seq::empty(), p))
    } else {
        match parse_at(s, p, room) {
            Err(e) => Err(e),
            // A frame read at `p` ends after `p` and within `s`; the test only
            // makes the measure's decrease evident.
            Ok((f, q)) => if q <= p || q > s.len() {
                Err(ProtocolError::Incomplete)
            } else {
                match parse_items(s, q, (n - 1) as nat, room) {
                    Ok((rest, r)) => Ok((seq![f] + rest, r)),
                    Err(e) => Err(e),
                }
            },
        }
    }
}

/// What reading one frame from the start of `s` yields.
pub open spec fn parse(s: Seq<u8>) -> Result<(FrameModel, int), ProtocolError> {
    parse_at(s, 0, MAX_NESTING as nat)
}

pub proof fn lemma_line_end_bounds(s: Seq<u8>, i: int)
    requires
        i <= s.len(),
    ensures
        i <= line_end(s, i) <= s.len(),
        forall|j: int| i <= j < line_end(s, i) ==> !is_line_break(#[trigger] s[j]),
        line_end(s, i) < s.len() ==> is_line_break(s[line_end(s, i)]),
    decreases s.len() - i,
{
    if i < s.len() && !is_line_break(s[i]) {
        lemma_line_end_bounds(s, i + 1);
    }
}

/// Text that may stand in a simple string or an error: no line breaks.
pub open spec fn text_ok(t: Seq<char>) -> bool {
    forall|i: int| 0 <= i < t.len() ==> #[trigger] t[i] != '\r' && t[i] != '\n'
}

/// A frame that can be written on the wire and read back: its texts hold no
/// line breaks, and its sizes fit a `usize`.
pub open spec fn well_formed(m: FrameModel) -> bool
    decreases m,
{
    match m {
        FrameModel::Simple(t) => text_ok(t),
        FrameModel::Error(t) => text_ok(t),
        FrameModel::Integer(v) => fits_i64(v),
        FrameModel::Bulk(b) => b.len() <= usize::MAX,
        FrameModel::Null => true,
        FrameModel::Array(items) => items.len() <= usize::MAX && forall|i: int|
            0 <= i < items.len() ==> well_formed(#[trigger] items[i]),
    }
}

/// Arrays in `m` nest at most `room` deep.
pub open spec fn fits_nesting(m: FrameModel, room: nat) -> bool
    decreases m,
{
    match m {
        FrameModel::Array(items) => room > 0 && forall|i: int|
            0 <= i < items.len() ==> fits_nesting(#[trigger] items[i], (room - 1) as nat),
        _ => true,
    }
}

pub open spec fn crlf() -> Seq<u8> {
    seq![CR, LF]
}

pub open spec fn magnitude(v: int) -> nat {
    if v >= 0 {
        v as nat
    } else {
        (-v) as nat
    }
}

/// The sign character of an integer frame: `+` for zero and above.
pub open spec fn sign_byte(v: int) -> u8 {
    if v >= 0 {
        43u8
    } else {
        45u8
    }
}

/// The exact wire bytes of a frame.
pub open spec fn encode(m: FrameModel) -> Seq<u8>
    decreases m,
{
    match m {
        FrameModel::Simple(t) => seq![43u8] + encode_utf8(t) + crlf(),
        FrameModel::Error(t) => seq![45u8] + encode_utf8(t) + crlf(),
        FrameModel::Integer(v) => seq![58u8, sign_byte(v)] + decimal(magnitude(v)) + crlf(),
        FrameModel::Bulk(b) => seq![36u8] + decimal(b.len()) + crlf() + b + crlf(),
        FrameModel::Null => seq![95u8] + crlf(),
        FrameModel::Array(items) => seq![42u8] + decimal(items.len()) + crlf() + encode_items(
            items,
        ),
    }
}

/// The wire bytes of frames written one after another.
pub open spec fn encode_items(items: Seq<FrameModel>) -> Seq<u8>
    decreases items,
{
    if items.len() == 0 {
        Seq::empty()
    } else {
        encode(items[0]) + encode_items(items.subrange(1, items.len() as int))
    }
}

pub proof fn lemma_encode_items_concat(a: Seq<FrameModel>, b: Seq<FrameModel>)
    ensures
        encode_items(a + b) == encode_items(a) + encode_items(b),
    decreases a.len(),
{
    if a.len() == 0 {
        assert(a + b =~= b);
        assert(encode_items(a) + encode_items(b) =~= encode_items(b));
    } else {
        let t = a.subrange(1, a.len() as int);
        lemma_encode_items_concat(t, b);
        assert((a + b).subrange(1, (a + b).len() as int) =~= t + b);
        assert((a + b)[0] == a[0]);
        assert(encode_items(a + b) =~= encode_items(a) + encode_items(b));
    }
}

pub proof fn lemma_encode_items_push(a: Seq<FrameModel>, x: FrameModel)
    ensures
        encode_items(a.push(x)) == encode_items(a) + encode(x),
{
    lemma_encode_items_concat(a, seq![x]);
    assert(a + seq![x] =~= a.push(x));
    let one = seq![x];
    assert(one[0] == x);
    assert(one.subrange(1, 1) =~= Seq::<FrameModel>::empty());
    assert(encode_items(one.subrange(1, 1)) == Seq::<u8>::empty());
    assert(encode_items(one) =~= encode(x));
}

} // verus!
