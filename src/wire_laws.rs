//! What the wire grammar guarantees: every well-formed frame reads back from
//! its own bytes, and every strict beginning of those bytes reads as
//! incomplete.
use crate::decimal::{all_digits, decimal, lemma_decimal};
use crate::frame::FrameModel;
use crate::wire::{
    crlf, encode, encode_items, fits_nesting, is_line_break, lemma_line_end_bounds, line_end, magnitude,
    parse, parse_at, parse_items, read_count, read_line, sign_byte, signed_value, text_ok,
    well_formed, ProtocolError, CR, LF, MAX_NESTING,
};
use vstd::prelude::*;
use vstd::utf8::{
    char_is_scalar, char_u32_cast, encode_scalar, encode_utf8, encode_utf8_decode_utf8,
    encode_utf8_valid_utf8, has_width_1_encoding, is_scalar,
};

verus! {

/// `s` from index `p` on agrees with `enc` wherever both have a byte.
pub open spec fn agrees(s: Seq<u8>, p: int, enc: Seq<u8>) -> bool {
    forall|k: int| 0 <= k < enc.len() && p + k < s.len() ==> s[p + k] == #[trigger] enc[k]
}

proof fn lemma_high_byte(x: u8, y: u8)
    requires
        x >= 0x80,
    ensures
        (x | y) != 10u8 && (x | y) != 13u8,
{
    assert(x >= 0x80 ==> (x | y) != 10u8 && (x | y) != 13u8) by (bit_vector);
}

proof fn lemma_scalar_no_breaks(c: u32)
    requires
        is_scalar(c),
        c != 10 && c != 13,
    ensures
        forall|j: int|
            0 <= j < encode_scalar(c).len() ==> !is_line_break(#[trigger] encode_scalar(c)[j]),
{
    if has_width_1_encoding(c) {
        assert(c <= 0x7F && c != 10 && c != 13 ==> (c & 0x7F) as u8 != 10u8 && (c & 0x7F) as u8
            != 13u8) by (bit_vector);
    } else {
        lemma_high_byte(0xC0, ((c >> 6) & 0x1F) as u8);
        lemma_high_byte(0xE0, ((c >> 12) & 0x0F) as u8);
        lemma_high_byte(0xF0, ((c >> 18) & 0x7) as u8);
        lemma_high_byte(0x80, (c & 0x3F) as u8);
        lemma_high_byte(0x80, ((c >> 6) & 0x3F) as u8);
        lemma_high_byte(0x80, ((c >> 12) & 0x3F) as u8);
    }
}

/// Text without line breaks is written without carriage returns or line feeds.
proof fn lemma_utf8_no_breaks(t: Seq<char>)
    requires
        text_ok(t),
    ensures
        forall|j: int|
            0 <= j < encode_utf8(t).len() ==> !is_line_break(#[trigger] encode_utf8(t)[j]),
    decreases t.len(),
{
    if t.len() > 0 {
        let rest = t.drop_first();
        assert forall|i: int| 0 <= i < rest.len() implies #[trigger] rest[i] != '\r' && rest[i]
            != '\n' by {
            assert(rest[i] == t[i + 1]);
        }
        lemma_utf8_no_breaks(rest);
        let c = t[0] as u32;
        char_is_scalar(t[0]);
        if c == 10 {
            char_u32_cast(t[0], c);
        }
        if c == 13 {
            char_u32_cast(t[0], c);
        }
        lemma_scalar_no_breaks(c);
        let head = encode_scalar(c);
        let e = encode_utf8(t);
        assert(e == head + encode_utf8(rest));
        assert forall|j: int| 0 <= j < e.len() implies !is_line_break(#[trigger] e[j]) by {
            if j < head.len() {
                assert(e[j] == head[j]);
            } else {
                assert(e[j] == encode_utf8(rest)[j - head.len()]);
            }
        }
    }
}

/// Reading the line of `enc = tag body \r\n ...` from bytes that agree with
/// `enc`: the body when the line is all there, incomplete otherwise.
proof fn lemma_header(s: Seq<u8>, p: int, enc: Seq<u8>, body: Seq<u8>)
    requires
        0 <= p < s.len(),
        body.len() + 3 <= enc.len(),
        forall|k: int| 0 <= k < body.len() ==> enc[1 + k] == #[trigger] body[k],
        forall|k: int| 0 <= k < body.len() ==> !is_line_break(#[trigger] body[k]),
        enc[1 + body.len() as int] == CR,
        enc[2 + body.len() as int] == LF,
        agrees(s, p, enc),
    ensures
        s.len() - p >= body.len() + 3 ==> read_line(s, p + 1) == Ok::<int, ProtocolError>(
            p + 1 + body.len(),
        ) && s.subrange(p + 1, p + 1 + body.len()) == body,
        s.len() - p < body.len() + 3 ==> read_line(s, p + 1) == Err::<int, ProtocolError>(
            ProtocolError::Incomplete,
        ),
{
    lemma_line_end_bounds(s, p + 1);
    let e = p + 1 + body.len();
    assert forall|j: int| p + 1 <= j < e && j < s.len() implies !is_line_break(#[trigger] s[j]) by {
        let k = j - p;
        assert(s[p + k] == enc[k]);
        assert(enc[1 + (k - 1)] == body[k - 1]);
    }
    let le = line_end(s, p + 1);
    if e < s.len() {
        assert(s[p + (1 + body.len())] == enc[1 + body.len() as int]);
        if le < e {
            assert(!is_line_break(s[le]));
        }
        if le > e {
            assert(!is_line_break(s[e]));
        }
        assert(le == e);
    }
    if s.len() - p >= body.len() + 3 {
        assert(s[p + (2 + body.len())] == enc[2 + body.len() as int]);
        assert forall|k: int| 0 <= k < body.len() implies s.subrange(p + 1, e)[k] == body[k] by {
            assert(s[p + (1 + k)] == enc[1 + k]);
        }
        assert(s.subrange(p + 1, e) =~= body);
    } else {
        if le < s.len() {
            assert(le >= e);
        }
    }
}

proof fn lemma_agrees_split(s: Seq<u8>, p: int, a: Seq<u8>, b: Seq<u8>)
    requires
        agrees(s, p, a + b),
    ensures
        agrees(s, p, a),
        agrees(s, p + a.len(), b),
{
    assert forall|k: int| 0 <= k < a.len() && p + k < s.len() implies s[p + k] == #[trigger] a[k] by {
        assert((a + b)[k] == a[k]);
    }
    assert forall|k: int| 0 <= k < b.len() && p + a.len() + k < s.len() implies s[p + a.len() + k]
        == #[trigger] b[k] by {
        assert((a + b)[a.len() + k] == b[k]);
    }
}

/// The line that opens `tag body \r\n rest`, read from bytes that agree with it.
proof fn lemma_opening_line(s: Seq<u8>, p: int, tag: u8, body: Seq<u8>, rest: Seq<u8>)
    requires
        0 <= p < s.len(),
        forall|k: int| 0 <= k < body.len() ==> !is_line_break(#[trigger] body[k]),
        agrees(s, p, seq![tag] + body + crlf() + rest),
    ensures
        s[p] == tag,
        agrees(s, p + body.len() + 3, rest),
        s.len() - p >= body.len() + 3 ==> read_line(s, p + 1) == Ok::<int, ProtocolError>(
            p + 1 + body.len(),
        ) && s.subrange(p + 1, p + 1 + body.len()) == body,
        s.len() - p < body.len() + 3 ==> read_line(s, p + 1) == Err::<int, ProtocolError>(
            ProtocolError::Incomplete,
        ),
{
    let head = seq![tag] + body + crlf();
    let enc = head + rest;
    lemma_agrees_split(s, p, head, rest);
    assert(s[p + 0] == enc[0]);
    assert forall|k: int| 0 <= k < body.len() implies enc[1 + k] == #[trigger] body[k] by {
        assert(enc[1 + k] == head[1 + k]);
        assert(head[1 + k] == (seq![tag] + body)[1 + k]);
    }
    assert(enc[1 + body.len() as int] == CR) by {
        assert(enc[1 + body.len() as int] == head[1 + body.len() as int]);
    }
    assert(enc[2 + body.len() as int] == LF) by {
        assert(enc[2 + body.len() as int] == head[2 + body.len() as int]);
    }
    lemma_header(s, p, enc, body);
}

proof fn lemma_digits_no_breaks(d: Seq<u8>)
    requires
        all_digits(d),
    ensures
        forall|k: int| 0 <= k < d.len() ==> !is_line_break(#[trigger] d[k]),
{
    assert forall|k: int| 0 <= k < d.len() implies !is_line_break(#[trigger] d[k]) by {
        assert(crate::decimal::is_digit(d[k]));
    }
}

/// Reading a well-formed frame from bytes that agree with its encoding:
/// the frame, when all its bytes are there, and incomplete otherwise.
proof fn lemma_read_encoded(m: FrameModel, s: Seq<u8>, p: int, room: nat)
    requires
        well_formed(m),
        fits_nesting(m, room),
        0 <= p <= s.len(),
        agrees(s, p, encode(m)),
    ensures
        s.len() - p >= encode(m).len() ==> parse_at(s, p, room) == Ok::<(FrameModel, int), ProtocolError>(
            (m, p + encode(m).len()),
        ),
        s.len() - p < encode(m).len() ==> parse_at(s, p, room) == Err::<(FrameModel, int), ProtocolError>(
            ProtocolError::Incomplete,
        ),
    decreases m,
{
    let enc = encode(m);
    if p == s.len() {
        assert(enc.len() > 0) by {
            reveal_with_fuel(encode, 1);
        }
        return;
    }
    match m {
        FrameModel::Simple(t) => {
            let body = encode_utf8(t);
            lemma_utf8_no_breaks(t);
            assert(enc =~= seq![43u8] + body + crlf() + Seq::empty());
            lemma_opening_line(s, p, 43u8, body, Seq::empty());
            encode_utf8_valid_utf8(t);
            encode_utf8_decode_utf8(t);
        },
        FrameModel::Error(t) => {
            let body = encode_utf8(t);
            lemma_utf8_no_breaks(t);
            assert(enc =~= seq![45u8] + body + crlf() + Seq::empty());
            lemma_opening_line(s, p, 45u8, body, Seq::empty());
            encode_utf8_valid_utf8(t);
            encode_utf8_decode_utf8(t);
        },
        FrameModel::Integer(v) => {
            let dec = decimal(magnitude(v));
            let body = seq![sign_byte(v)] + dec;
            lemma_decimal(magnitude(v));
            lemma_digits_no_breaks(dec);
            assert forall|k: int| 0 <= k < body.len() implies !is_line_break(#[trigger] body[k]) by {
                if k > 0 {
                    assert(body[k] == dec[k - 1]);
                }
            }
            assert(enc =~= seq![58u8] + body + crlf() + Seq::empty());
            lemma_opening_line(s, p, 58u8, body, Seq::empty());
            assert(body.subrange(1, body.len() as int) =~= dec);
            assert(signed_value(body) == Some(v));
        },
        FrameModel::Bulk(b) => {
            let dec = decimal(b.len());
            lemma_decimal(b.len());
            lemma_digits_no_breaks(dec);
            let rest = b + crlf();
            assert(enc =~= seq![36u8] + dec + crlf() + rest);
            lemma_opening_line(s, p, 36u8, dec, rest);
            if s.len() - p >= dec.len() + 3 {
                let q = p + dec.len() + 3;
                assert(read_count(s, p + 1) == Ok::<(nat, int), ProtocolError>((b.len(), q)));
                if s.len() - p >= enc.len() {
                    assert(s[q + b.len()] == rest[b.len() as int]);
                    assert(s[q + b.len() + 1] == rest[b.len() + 1int]);
                    assert forall|k: int| 0 <= k < b.len() implies s.subrange(q, q + b.len())[k]
                        == b[k] by {
                        assert(s[q + k] == rest[k]);
                    }
                    assert(s.subrange(q, q + b.len()) =~= b);
                }
            }
        },
        FrameModel::Null => {
            assert(enc =~= seq![95u8] + Seq::<u8>::empty() + crlf() + Seq::empty());
            lemma_opening_line(s, p, 95u8, Seq::empty(), Seq::empty());
        },
        FrameModel::Array(items) => {
            let dec = decimal(items.len());
            lemma_decimal(items.len());
            lemma_digits_no_breaks(dec);
            let rest = encode_items(items);
            assert(enc =~= seq![42u8] + dec + crlf() + rest);
            lemma_opening_line(s, p, 42u8, dec, rest);
            if s.len() - p >= dec.len() + 3 {
                let q = p + dec.len() + 3;
                assert(read_count(s, p + 1) == Ok::<(nat, int), ProtocolError>((items.len(), q)));
                lemma_read_encoded_items(items, s, q, (room - 1) as nat);
            }
        },
    }
}

/// Reading well-formed frames one after another from bytes that agree with
/// their encodings.
proof fn lemma_read_encoded_items(items: Seq<FrameModel>, s: Seq<u8>, p: int, room: nat)
    requires
        forall|i: int| 0 <= i < items.len() ==> well_formed(#[trigger] items[i]),
        forall|i: int| 0 <= i < items.len() ==> fits_nesting(#[trigger] items[i], room),
        0 <= p <= s.len(),
        agrees(s, p, encode_items(items)),
    ensures
        s.len() - p >= encode_items(items).len() ==> parse_items(s, p, items.len(), room) == Ok::<
            (Seq<FrameModel>, int),
            ProtocolError,
        >((items, p + encode_items(items).len())),
        s.len() - p < encode_items(items).len() ==> parse_items(s, p, items.len(), room) == Err::<
            (Seq<FrameModel>, int),
            ProtocolError,
        >(ProtocolError::Incomplete),
    decreases items,
{
    if items.len() == 0 {
        assert(items =~= Seq::<FrameModel>::empty());
        return;
    }
    let x = items[0];
    let tail = items.subrange(1, items.len() as int);
    let ex = encode(x);
    let et = encode_items(tail);
    assert(encode_items(items) == ex + et);
    lemma_agrees_split(s, p, ex, et);
    lemma_read_encoded(x, s, p, room);
    assert(ex.len() > 0) by {
        reveal_with_fuel(encode, 1);
    }
    if s.len() - p >= ex.len() {
        let q = p + ex.len();
        assert forall|i: int| 0 <= i < tail.len() implies well_formed(#[trigger] tail[i])
            && fits_nesting(tail[i], room) by {
            assert(tail[i] == items[i + 1]);
        }
        lemma_read_encoded_items(tail, s, q, room);
        assert(seq![x] + tail =~= items);
    }
}

/// Round trip: a well-formed frame whose arrays nest at most `MAX_NESTING`
/// deep reads back from its own bytes, whatever bytes follow them, and
/// reading stops just after them.
pub proof fn law_round_trip(f: FrameModel, rest: Seq<u8>)
    requires
        well_formed(f),
        fits_nesting(f, MAX_NESTING as nat),
    ensures
        parse(encode(f) + rest) == Ok::<(FrameModel, int), ProtocolError>(
            (f, encode(f).len() as int),
        ),
{
    let s = encode(f) + rest;
    assert forall|k: int| 0 <= k < encode(f).len() && 0 + k < s.len() implies s[0 + k]
        == #[trigger] encode(f)[k] by {}
    lemma_read_encoded(f, s, 0, MAX_NESTING as nat);
}

/// Streaming: when the bytes of a well-formed frame, whose arrays nest at
/// most `MAX_NESTING` deep, come in two parts split at any point, the first
/// part alone reads as incomplete, and the two parts together read as the
/// frame.
pub proof fn law_split_reads(f: FrameModel, k: int)
    requires
        well_formed(f),
        fits_nesting(f, MAX_NESTING as nat),
        0 <= k < encode(f).len(),
    ensures
        parse(encode(f).subrange(0, k)) == Err::<(FrameModel, int), ProtocolError>(
            ProtocolError::Incomplete,
        ),
        parse(encode(f).subrange(0, k) + encode(f).subrange(k, encode(f).len() as int)) == Ok::<
            (FrameModel, int),
            ProtocolError,
        >((f, encode(f).len() as int)),
{
    let enc = encode(f);
    let first = enc.subrange(0, k);
    assert forall|j: int| 0 <= j < enc.len() && 0 + j < first.len() implies first[0 + j]
        == #[trigger] enc[j] by {}
    lemma_read_encoded(f, first, 0, MAX_NESTING as nat);
    assert(first + enc.subrange(k, enc.len() as int) =~= enc + Seq::empty());
    law_round_trip(f, Seq::empty());
}

} // verus!
