//! Reading frames from wire bytes.
use crate::decimal::{all_digits, digits_value, is_digit, lemma_digits_value_prefix};
use crate::frame::{
    bytes_copy, cursor_buffer, cursor_data, cursor_pos, cursor_position, cursor_set_position,
    utf8_to_string, Frame, FrameModel,
};
use crate::wire::{
    lemma_line_end_bounds, line_end, parse, parse_at, parse_items, read_count, read_integer, read_line,
    read_text, Malformation, ProtocolError, CR, LF, MAX_NESTING,
};
use std::io::Cursor;
use vstd::prelude::*;
use vstd::slice::{slice_subrange, slice_to_vec};

verus! {

/// Finds the `\r\n` that closes the line starting at `p`.
fn find_line(buf: &[u8], p: usize) -> (r: Result<usize, ProtocolError>)
    requires
        p <= buf@.len(),
    ensures
        match r {
            Ok(e) => read_line(buf@, p as int) == Ok::<int, ProtocolError>(e as int),
            Err(x) => read_line(buf@, p as int) == Err::<int, ProtocolError>(x),
        },
        r matches Ok(e) ==> p <= e && e + 2 <= buf.len(),
{
    proof {
        lemma_line_end_bounds(buf@, p as int);
    }
    let mut i: usize = p;
    while i < buf.len() && buf[i] != CR && buf[i] != LF
        invariant
            p <= i <= buf@.len(),
            line_end(buf@, p as int) == line_end(buf@, i as int),
        decreases buf@.len() - i,
    {
        i = i + 1;
    }
    if i >= buf.len() {
        Err(ProtocolError::Incomplete)
    } else if buf[i] == LF {
        Err(ProtocolError::Malformed(Malformation::BadLine))
    } else if i + 1 >= buf.len() {
        Err(ProtocolError::Incomplete)
    } else if buf[i + 1] != LF {
        Err(ProtocolError::Malformed(Malformation::BadLine))
    } else {
        Ok(i)
    }
}

/// The value of the decimal digits `buf[a..b]`, when they are one or more
/// digits and their value is at most `limit`.
fn read_digits(buf: &[u8], a: usize, b: usize, limit: u64) -> (r: Option<u64>)
    requires
        a <= b <= buf@.len(),
    ensures
        ({
            let d = buf@.subrange(a as int, b as int);
            r == if d.len() > 0 && all_digits(d) && digits_value(d) <= limit {
                Some(digits_value(d) as u64)
            } else {
                None::<u64>
            }
        }),
{
    let ghost d = buf@.subrange(a as int, b as int);
    if a == b {
        return None;
    }
    let mut acc: u64 = 0;
    let mut i: usize = a;
    while i < b
        invariant
            a <= i <= b <= buf@.len(),
            d == buf@.subrange(a as int, b as int),
            all_digits(d.subrange(0, i - a)),
            acc == digits_value(d.subrange(0, i - a)),
            acc <= limit,
        decreases b - i,
    {
        let c = buf[i];
        let ghost pre = d.subrange(0, i - a);
        let ghost next = d.subrange(0, i + 1 - a);
        assert(next.drop_last() =~= pre);
        assert(next.last() == c);
        if c < 48 || c > 57 {
            assert(!is_digit(d[i - a]));
            return None;
        }
        let digit = (c - 48) as u64;
        if digit > limit || acc > (limit - digit) / 10 {
            assert(acc * 10 + digit > limit) by (nonlinear_arith)
                requires
                    digit > limit || acc > (limit - digit) / 10,
                    acc >= 0,
            ;
            proof {
                assert forall|j: int| 0 <= j < next.len() implies is_digit(#[trigger] next[j]) by {
                    if j < pre.len() {
                        assert(next[j] == pre[j]);
                    }
                }
                if all_digits(d) {
                    lemma_digits_value_prefix(d, i + 1 - a);
                }
            }
            return None;
        }
        assert(acc * 10 + digit <= limit) by (nonlinear_arith)
            requires
                acc <= (limit - digit) / 10,
                digit <= limit,
        ;
        acc = acc * 10 + digit;
        i = i + 1;
        assert forall|j: int| 0 <= j < next.len() implies is_digit(#[trigger] next[j]) by {
            if j < pre.len() {
                assert(next[j] == pre[j]);
            }
        }
    }
    assert(d.subrange(0, b - a) =~= d);
    Some(acc)
}

/// Reads the text of a simple string or an error that starts at `p`.
fn decode_text(buf: &[u8], p: usize) -> (r: Result<(String, usize), ProtocolError>)
    requires
        p <= buf@.len(),
    ensures
        match r {
            Ok((t, q)) => read_text(buf@, p as int) == Ok::<(Seq<char>, int), ProtocolError>(
                (t@, q as int),
            ),
            Err(x) => read_text(buf@, p as int) == Err::<(Seq<char>, int), ProtocolError>(x),
        },
        r matches Ok((t, q)) ==> p < q <= buf@.len(),
{
    let found = find_line(buf, p);
    match found {
        Err(x) => Err(x),
        Ok(e) => {
            let line = slice_to_vec(slice_subrange(buf, p, e));
            match utf8_to_string(line) {
                Some(t) => Ok((t, e + 2)),
                None => Err(ProtocolError::Malformed(Malformation::BadText)),
            }
        },
    }
}

/// Reads the line of an integer that starts at `p`.
fn decode_integer(buf: &[u8], p: usize) -> (r: Result<(i64, usize), ProtocolError>)
    requires
        p <= buf@.len(),
    ensures
        match r {
            Ok((v, q)) => read_integer(buf@, p as int) == Ok::<(int, int), ProtocolError>(
                (v as int, q as int),
            ),
            Err(x) => read_integer(buf@, p as int) == Err::<(int, int), ProtocolError>(x),
        },
        r matches Ok((v, q)) ==> p < q <= buf@.len(),
{
    let bad = ProtocolError::Malformed(Malformation::BadInteger);
    if p < buf.len() && buf[p] != 43u8 && buf[p] != 45u8 {
        return Err(bad);
    }
    match find_line(buf, p) {
        Err(x) => Err(x),
        Ok(e) => {
            let ghost line = buf@.subrange(p as int, e as int);
            if e - p < 2 {
                return Err(bad);
            }
            assert(line.subrange(1, line.len() as int) =~= buf@.subrange(p + 1, e as int));
            let sign = buf[p];
            if sign == 43u8 {
                match read_digits(buf, p + 1, e, 9223372036854775807u64) {
                    Some(m) => Ok((m as i64, e + 2)),
                    None => Err(bad),
                }
            } else if sign == 45u8 {
                match read_digits(buf, p + 1, e, 9223372036854775808u64) {
                    Some(m) => {
                        if m == 9223372036854775808u64 {
                            Ok((i64::MIN, e + 2))
                        } else {
                            Ok((-(m as i64), e + 2))
                        }
                    },
                    None => Err(bad),
                }
            } else {
                Err(bad)
            }
        },
    }
}

/// Reads the length line of a bulk string or the count line of an array.
fn decode_count(buf: &[u8], p: usize) -> (r: Result<(usize, usize), ProtocolError>)
    requires
        p <= buf@.len(),
    ensures
        match r {
            Ok((n, q)) => read_count(buf@, p as int) == Ok::<(nat, int), ProtocolError>(
                (n as nat, q as int),
            ),
            Err(x) => read_count(buf@, p as int) == Err::<(nat, int), ProtocolError>(x),
        },
        r matches Ok((n, q)) ==> p < q <= buf@.len(),
{
    let found = find_line(buf, p);
    match found {
        Err(x) => Err(x),
        Ok(e) => match read_digits(buf, p, e, usize::MAX as u64) {
            Some(n) => Ok((n as usize, e + 2)),
            None => Err(ProtocolError::Malformed(Malformation::BadLength)),
        },
    }
}

/// What `parse_items` yields once `done` has been read in front of it.
pub open spec fn prepend(
    done: Seq<FrameModel>,
    r: Result<(Seq<FrameModel>, int), ProtocolError>,
) -> Result<(Seq<FrameModel>, int), ProtocolError> {
    match r {
        Ok((rest, e)) => Ok((done + rest, e)),
        Err(x) => Err(x),
    }
}

/// Reads one frame at `pos` of `buf`, with arrays nesting at most `room`
/// deep: the frame and the index just after it, or why there is none.
pub fn decode_at(buf: &[u8], pos: usize, room: usize) -> (r: Result<(Frame, usize), ProtocolError>)
    ensures
        match r {
            Ok((f, q)) => parse_at(buf@, pos as int, room as nat) == Ok::<
                (FrameModel, int),
                ProtocolError,
            >((f@, q as int)),
            Err(x) => parse_at(buf@, pos as int, room as nat) == Err::<
                (FrameModel, int),
                ProtocolError,
            >(x),
        },
        r matches Ok((f, q)) ==> pos < q <= buf@.len(),
    decreases buf@.len() - pos,
{
    if pos >= buf.len() {
        return Err(ProtocolError::Incomplete);
    }
    let tag = buf[pos];
    if tag == 43u8 {
        match decode_text(buf, pos + 1) {
            Ok((t, q)) => Ok((Frame::Simple(t), q)),
            Err(x) => Err(x),
        }
    } else if tag == 45u8 {
        match decode_text(buf, pos + 1) {
            Ok((t, q)) => Ok((Frame::Error(t), q)),
            Err(x) => Err(x),
        }
    } else if tag == 58u8 {
        match decode_integer(buf, pos + 1) {
            Ok((v, q)) => Ok((Frame::Integer(v), q)),
            Err(x) => Err(x),
        }
    } else if tag == 36u8 {
        match decode_count(buf, pos + 1) {
            Err(x) => Err(x),
            Ok((n, q)) => {
                if buf.len() - q < 2 || buf.len() - q - 2 < n {
                    Err(ProtocolError::Incomplete)
                } else if buf[q + n] != CR || buf[q + n + 1] != LF {
                    Err(ProtocolError::Malformed(Malformation::BadTerminator))
                } else {
                    let data = bytes_copy(slice_subrange(buf, q, q + n));
                    Ok((Frame::Bulk(data), q + n + 2))
                }
            },
        }
    } else if tag == 95u8 {
        match find_line(buf, pos + 1) {
            Err(x) => Err(x),
            Ok(e) => {
                if e == pos + 1 {
                    Ok((Frame::Null, e + 2))
                } else {
                    Err(ProtocolError::Malformed(Malformation::BadTerminator))
                }
            },
        }
    } else if tag == 42u8 {
        match decode_count(buf, pos + 1) {
            Err(x) => Err(x),
            Ok((n, q)) => {
                if room == 0 {
                    return Err(ProtocolError::Malformed(Malformation::TooDeep));
                }
                let mut items: Vec<Frame> = Vec::new();
                let ghost done: Seq<FrameModel> = Seq::empty();
                let mut cur: usize = q;
                let mut k: usize = 0;
                while k < n
                    invariant
                        pos < q <= cur <= buf@.len(),
                        buf@[pos as int] == 42u8,
                        read_count(buf@, pos + 1) == Ok::<(nat, int), ProtocolError>(
                            (n as nat, q as int),
                        ),
                        k <= n,
                        done.len() == items@.len(),
                        forall|j: int| 0 <= j < items@.len() ==> done[j] == (#[trigger] items@[j])@,
                        room > 0,
                        parse_items(buf@, q as int, n as nat, (room - 1) as nat) == prepend(
                            done,
                            parse_items(buf@, cur as int, (n - k) as nat, (room - 1) as nat),
                        ),
                    decreases n - k,
                {
                    match decode_at(buf, cur, room - 1) {
                        Err(x) => {
                            assert(parse_items(buf@, cur as int, (n - k) as nat, (room - 1) as nat) == Err::<
                                (Seq<FrameModel>, int),
                                ProtocolError,
                            >(x));
                            assert(parse_items(buf@, q as int, n as nat, (room - 1) as nat) == Err::<
                                (Seq<FrameModel>, int),
                                ProtocolError,
                            >(x));
                            return Err(x);
                        },
                        Ok((f, c)) => {
                            proof {
                                let rest = parse_items(buf@, c as int, (n - k - 1) as nat, (room - 1) as nat);
                                assert(parse_items(buf@, cur as int, (n - k) as nat, (room - 1) as nat) == prepend(
                                    seq![f@],
                                    rest,
                                ));
                                assert(prepend(done, prepend(seq![f@], rest)) == prepend(
                                    done.push(f@),
                                    rest,
                                )) by {
                                    if rest is Ok {
                                        assert(done + (seq![f@] + rest->Ok_0.0) =~= done.push(f@)
                                            + rest->Ok_0.0);
                                    }
                                }
                                done = done.push(f@);
                            }
                            items.push(f);
                            cur = c;
                            k = k + 1;
                        },
                    }
                }
                proof {
                    assert(parse_items(buf@, cur as int, 0, (room - 1) as nat) == Ok::<
                        (Seq<FrameModel>, int),
                        ProtocolError,
                    >((Seq::empty(), cur as int)));
                    assert(done + Seq::<FrameModel>::empty() =~= done);
                }
                let r = Frame::Array(items);
                assert(r@->Array_0 =~= done);
                Ok((r, cur))
            },
        }
    } else {
        Err(ProtocolError::Malformed(Malformation::UnknownTag))
    }
}

/// Reads one frame from the start of `buf`: the frame and the number of bytes
/// it takes, or why there is none.
pub fn decode(buf: &[u8]) -> (r: Result<(Frame, usize), ProtocolError>)
    ensures
        match r {
            Ok((f, n)) => parse(buf@) == Ok::<(FrameModel, int), ProtocolError>((f@, n as int)),
            Err(x) => parse(buf@) == Err::<(FrameModel, int), ProtocolError>(x),
        },
{
    decode_at(buf, 0, MAX_NESTING)
}

impl Frame {
    /// Reads one frame at the cursor's position. On success the cursor moves
    /// just past the frame; otherwise it stays where it was, so that reading
    /// can start again once more bytes have come.
    pub fn serialize(input: &mut Cursor<&[u8]>) -> (r: Result<Frame, ProtocolError>)
        ensures
            cursor_data(*final(input)) == cursor_data(*old(input)),
            match r {
                Ok(f) => parse_at(cursor_data(*old(input)), cursor_pos(*old(input)) as int, MAX_NESTING as nat) == Ok::<
                    (FrameModel, int),
                    ProtocolError,
                >((f@, cursor_pos(*final(input)) as int)),
                Err(x) => parse_at(cursor_data(*old(input)), cursor_pos(*old(input)) as int, MAX_NESTING as nat)
                    == Err::<(FrameModel, int), ProtocolError>(x) && cursor_pos(*final(input))
                    == cursor_pos(*old(input)),
            },
    {
        let buf = cursor_buffer(input);
        let pos = cursor_position(input);
        if pos >= buf.len() as u64 {
            return Err(ProtocolError::Incomplete);
        }
        match decode_at(buf, pos as usize, MAX_NESTING) {
            Ok((f, q)) => {
                cursor_set_position(input, q as u64);
                Ok(f)
            },
            Err(x) => Err(x),
        }
    }
}

} // verus!
