//! Frames, their mathematical model, and the outside items they rest on.
use crate::decimal::{decimal, is_digit, lemma_decimal, write_decimal};
use crate::wire::magnitude;
use bytes::Bytes;
use std::io::Cursor;
use vstd::prelude::*;
use vstd::slice::slice_to_vec;
use vstd::utf8::{
    decode_utf8, encode_utf8, encode_utf8_decode_utf8, encode_utf8_valid_utf8, is_ascii_chars,
    is_ascii_chars_encode_utf8, valid_utf8,
};

verus! {

#[verifier::external_type_specification]
#[verifier::external_body]
pub struct ExBytes(Bytes);

/// The byte sequence held by a `Bytes` buffer.
pub uninterp spec fn bytes_content(b: Bytes) -> Seq<u8>;

/// Relies on `<bytes::Bytes as Clone>::clone`: a handle on the same bytes.
pub assume_specification[ <Bytes as Clone>::clone ](b: &Bytes) -> (r: Bytes)
    ensures
        bytes_content(r) == bytes_content(*b),
;

/// Relies on `bytes::Bytes::copy_from_slice`: a new buffer holding a copy of `data`.
#[verifier::external_body]
pub(crate) fn bytes_copy(data: &[u8]) -> (r: Bytes)
    ensures
        bytes_content(r) == data@,
{
    Bytes::copy_from_slice(data)
}

/// Relies on `<bytes::Bytes as AsRef<[u8]>>::as_ref`: the buffer's bytes, in order.
#[verifier::external_body]
pub(crate) fn bytes_view_slice(b: &Bytes) -> (r: &[u8])
    ensures
        r@ == bytes_content(*b),
{
    b.as_ref()
}

/// Relies on `String::from_utf8`: it succeeds exactly on valid UTF-8, and the
/// string then holds the characters that the bytes encode.
#[verifier::external_body]
pub(crate) fn utf8_to_string(v: Vec<u8>) -> (r: Option<String>)
    ensures
        r is Some <==> valid_utf8(v@),
        r matches Some(s) ==> s@ == decode_utf8(v@),
{
    String::from_utf8(v).ok()
}

#[verifier::external_type_specification]
#[verifier::external_body]
#[verifier::reject_recursive_types(T)]
pub struct ExCursor<T>(Cursor<T>);

/// The bytes that a cursor reads from.
pub uninterp spec fn cursor_data(c: Cursor<&[u8]>) -> Seq<u8>;

/// The position of a cursor in its bytes.
pub uninterp spec fn cursor_pos(c: Cursor<&[u8]>) -> u64;

/// Relies on `std::io::Cursor::get_ref`: the bytes the cursor reads from.
#[verifier::external_body]
pub(crate) fn cursor_buffer<'a>(c: &Cursor<&'a [u8]>) -> (r: &'a [u8])
    ensures
        r@ == cursor_data(*c),
{
    c.get_ref()
}

/// Relies on `std::io::Cursor::position`.
#[verifier::external_body]
pub(crate) fn cursor_position(c: &Cursor<&[u8]>) -> (r: u64)
    ensures
        r == cursor_pos(*c),
{
    c.position()
}

/// Relies on `std::io::Cursor::set_position`: it moves the position and keeps
/// the bytes.
#[verifier::external_body]
pub(crate) fn cursor_set_position(c: &mut Cursor<&[u8]>, p: u64)
    ensures
        cursor_pos(*final(c)) == p,
        cursor_data(*final(c)) == cursor_data(*old(c)),
{
    c.set_position(p)
}

/// One unit of the wire protocol.
#[derive(Debug, PartialEq)]
pub enum Frame {
    /// A short status text, without line breaks.
    Simple(String),
    /// An error text, without line breaks.
    Error(String),
    Integer(i64),
    /// Any bytes, sent with their length.
    Bulk(Bytes),
    Null,
    /// Frames in order, sent with their count.
    Array(Vec<Frame>),
}

/// The mathematical value of a frame.
pub enum FrameModel {
    Simple(Seq<char>),
    Error(Seq<char>),
    Integer(int),
    Bulk(Seq<u8>),
    Null,
    Array(Seq<FrameModel>),
}

/// The model of a frame: its texts as characters, its bytes as a sequence.
pub open spec fn model_of(f: Frame) -> FrameModel
    decreases f,
{
    match f {
        Frame::Simple(s) => FrameModel::Simple(s@),
        Frame::Error(s) => FrameModel::Error(s@),
        Frame::Integer(i) => FrameModel::Integer(i as int),
        Frame::Bulk(b) => FrameModel::Bulk(bytes_content(b)),
        Frame::Null => FrameModel::Null,
        Frame::Array(v) => FrameModel::Array(
            Seq::new(
                v@.len(),
                |i: int|
                    if 0 <= i < v@.len() {
                        model_of(v@[i])
                    } else {
                        FrameModel::Null
                    },
            ),
        ),
    }
}

impl View for Frame {
    type V = FrameModel;

    open spec fn view(&self) -> FrameModel {
        model_of(*self)
    }
}

/// The characters of ASCII bytes, one for each.
pub open spec fn ascii_chars(b: Seq<u8>) -> Seq<char> {
    Seq::new(b.len(), |i: int| b[i] as char)
}

/// The text of an integer as Rust prints it: a `-` for a negative value,
/// then the decimal digits of its magnitude.
pub open spec fn integer_text(v: int) -> Seq<char> {
    let digits = decimal(magnitude(v));
    if v < 0 {
        ascii_chars(seq![45u8] + digits)
    } else {
        ascii_chars(digits)
    }
}

/// The text a frame stands for, where it has one: the text of a simple
/// string or an error, an integer written in decimal, or a bulk string that
/// is valid UTF-8.
pub open spec fn text_of(m: FrameModel) -> Option<Seq<char>> {
    match m {
        FrameModel::Simple(t) => Some(t),
        FrameModel::Error(t) => Some(t),
        FrameModel::Integer(v) => Some(integer_text(v)),
        FrameModel::Bulk(b) => if valid_utf8(b) {
            Some(decode_utf8(b))
        } else {
            None
        },
        _ => None,
    }
}

/// ASCII bytes are valid UTF-8 and stand for the characters of the same codes.
proof fn lemma_ascii_utf8(b: Seq<u8>)
    requires
        forall|i: int| 0 <= i < b.len() ==> #[trigger] b[i] < 128,
    ensures
        valid_utf8(b),
        decode_utf8(b) == ascii_chars(b),
{
    let c = ascii_chars(b);
    assert(is_ascii_chars(c)) by {
        assert forall|i: int| 0 <= i < c.len() implies '\0' <= #[trigger] c[i] <= '\u{7f}' by {
            assert(c[i] == b[i] as char);
        }
    }
    is_ascii_chars_encode_utf8(c);
    assert forall|i: int| 0 <= i < b.len() implies encode_utf8(c)[i] == b[i] by {
        assert(c[i] == b[i] as char);
        assert((b[i] as char) as u8 == b[i]);
    }
    assert(encode_utf8(c) =~= b);
    encode_utf8_valid_utf8(c);
    encode_utf8_decode_utf8(c);
}

/// The model of an array frame holds the models of its items, in order.
pub proof fn lemma_items_view(f: Frame)
    requires
        f is Array,
    ensures
        f@ is Array,
        f@->Array_0.len() == f->Array_0@.len(),
        forall|i: int|
            0 <= i < f->Array_0@.len() ==> f@->Array_0[i] == (#[trigger] f->Array_0@[i])@,
{
}

/// A copy of `f`, item by item.
fn clone_frame(f: &Frame) -> (r: Frame)
    ensures
        r@ == f@,
    decreases f,
{
    match f {
        Frame::Simple(s) => Frame::Simple(s.clone()),
        Frame::Error(s) => Frame::Error(s.clone()),
        Frame::Integer(i) => Frame::Integer(*i),
        Frame::Bulk(b) => Frame::Bulk(b.clone()),
        Frame::Null => Frame::Null,
        Frame::Array(items) => {
            let r = Frame::Array(clone_items(items));
            proof {
                lemma_items_view(r);
                lemma_items_view(*f);
            }
            assert(r@->Array_0 =~= f@->Array_0);
            r
        },
    }
}

fn clone_items(items: &Vec<Frame>) -> (r: Vec<Frame>)
    ensures
        r@.len() == items@.len(),
        forall|j: int| 0 <= j < items@.len() ==> (#[trigger] r@[j])@ == items@[j]@,
    decreases items,
{
    let mut copy: Vec<Frame> = Vec::new();
    let mut i: usize = 0;
    while i < items.len()
        invariant
            i <= items@.len(),
            copy@.len() == i,
            forall|j: int| 0 <= j < i ==> (#[trigger] copy@[j])@ == items@[j]@,
        decreases items@.len() - i,
    {
        copy.push(clone_frame(&items[i]));
        i = i + 1;
    }
    copy
}

impl Clone for Frame {
    fn clone(&self) -> (r: Frame)
        ensures
            r@ == self@,
    {
        clone_frame(self)
    }
}

impl Frame {
    /// An empty array frame.
    pub fn array() -> (r: Frame)
        ensures
            r@ == FrameModel::Array(Seq::empty()),
    {
        let r = Frame::Array(Vec::new());
        assert(r@->Array_0 =~= Seq::<FrameModel>::empty());
        r
    }

    /// Appends a simple string to this array frame.
    pub fn push_simple(&mut self, string: String)
        requires
            *old(self) is Array,
        ensures
            final(self)@ == FrameModel::Array(old(self)@->Array_0.push(FrameModel::Simple(string@))),
    {
        let ghost before = self@->Array_0;
        match self {
            Frame::Array(vec) => vec.push(Frame::Simple(string)),
            _ => {},
        }
        proof {
            lemma_items_view(*old(self));
            lemma_items_view(*self);
        }
        assert(self@->Array_0 =~= before.push(FrameModel::Simple(string@)));
    }

    /// Appends a bulk string to this array frame.
    pub fn push_bulk(&mut self, bytes: Bytes)
        requires
            *old(self) is Array,
        ensures
            final(self)@ == FrameModel::Array(
                old(self)@->Array_0.push(FrameModel::Bulk(bytes_content(bytes))),
            ),
    {
        let ghost before = self@->Array_0;
        let ghost content = bytes_content(bytes);
        match self {
            Frame::Array(vec) => vec.push(Frame::Bulk(bytes)),
            _ => {},
        }
        proof {
            lemma_items_view(*old(self));
            lemma_items_view(*self);
        }
        assert(self@->Array_0 =~= before.push(FrameModel::Bulk(content)));
    }

    /// Appends an integer to this array frame.
    pub fn push_int(&mut self, value: i64)
        requires
            *old(self) is Array,
        ensures
            final(self)@ == FrameModel::Array(
                old(self)@->Array_0.push(FrameModel::Integer(value as int)),
            ),
    {
        let ghost before = self@->Array_0;
        match self {
            Frame::Array(vec) => vec.push(Frame::Integer(value)),
            _ => {},
        }
        proof {
            lemma_items_view(*old(self));
            lemma_items_view(*self);
        }
        assert(self@->Array_0 =~= before.push(FrameModel::Integer(value as int)));
    }

    /// The text this frame stands for; an error for a null, an array, or a
    /// bulk string that is not valid UTF-8. The frame is left as it is.
    pub fn to_string(&mut self) -> (r: Result<String, String>)
        ensures
            *final(self) == *old(self),
            match r {
                Ok(t) => text_of(old(self)@) == Some(t@),
                Err(_) => text_of(old(self)@) is None,
            },
    {
        match self {
            Frame::Simple(s) => Ok(s.clone()),
            Frame::Error(s) => Ok(s.clone()),
            Frame::Integer(i) => {
                let mut out: Vec<u8> = Vec::new();
                let magnitude: u64;
                if *i < 0 {
                    out.push(45u8);
                    magnitude = ((-(*i + 1)) as u64) + 1;
                } else {
                    magnitude = *i as u64;
                }
                write_decimal(&mut out, magnitude);
                proof {
                    lemma_decimal(magnitude as nat);
                    let digits = decimal(magnitude as nat);
                    assert forall|k: int| 0 <= k < out@.len() implies #[trigger] out@[k] < 128 by {
                        if *i < 0 && k > 0 {
                            assert(out@[k] == digits[k - 1]);
                            assert(is_digit(digits[k - 1]));
                        } else if *i >= 0 {
                            assert(is_digit(digits[k]));
                        }
                    }
                    lemma_ascii_utf8(out@);
                    if *i < 0 {
                        assert(out@ =~= seq![45u8] + digits);
                    } else {
                        assert(out@ =~= digits);
                    }
                }
                match utf8_to_string(out) {
                    Some(t) => Ok(t),
                    None => Err("Could not convert to string".to_owned()),
                }
            },
            Frame::Bulk(b) => {
                let data = slice_to_vec(bytes_view_slice(b));
                match utf8_to_string(data) {
                    Some(t) => Ok(t),
                    None => Err("Could not convert to string".to_owned()),
                }
            },
            _ => Err("Could not convert to string".to_owned()),
        }
    }
}

} // verus!
