//! Writing frames as wire bytes.
use crate::decimal::write_decimal;
use crate::frame::{bytes_view_slice, Frame, FrameModel};
use crate::wire::{crlf, encode, encode_items, lemma_encode_items_push, CR, LF};
use vstd::prelude::*;
use vstd::utf8::encode_utf8;

verus! {

fn extend_bytes(out: &mut Vec<u8>, b: &[u8])
    ensures
        final(out)@ == old(out)@ + b@,
{
    let mut i: usize = 0;
    while i < b.len()
        invariant
            i <= b@.len(),
            out@ == old(out)@ + b@.subrange(0, i as int),
        decreases b@.len() - i,
    {
        out.push(b[i]);
        i = i + 1;
        assert(out@ =~= old(out)@ + b@.subrange(0, i as int));
    }
    assert(b@.subrange(0, i as int) =~= b@);
}

fn write_crlf(out: &mut Vec<u8>)
    ensures
        final(out)@ == old(out)@ + crlf(),
{
    out.push(CR);
    out.push(LF);
    assert(out@ =~= old(out)@ + crlf());
}

fn write_text(out: &mut Vec<u8>, tag: u8, s: &String)
    ensures
        final(out)@ == old(out)@ + seq![tag] + encode_utf8(s@) + crlf(),
{
    out.push(tag);
    extend_bytes(out, s.as_str().as_bytes());
    write_crlf(out);
}

fn write_integer(out: &mut Vec<u8>, val: i64)
    ensures
        final(out)@ == old(out)@ + encode(FrameModel::Integer(val as int)),
{
    out.push(58u8);
    let magnitude: u64;
    if val >= 0 {
        out.push(43u8);
        magnitude = val as u64;
    } else {
        out.push(45u8);
        magnitude = ((-(val + 1)) as u64) + 1;
    }
    write_decimal(out, magnitude);
    write_crlf(out);
    assert(out@ =~= old(out)@ + encode(FrameModel::Integer(val as int)));
}

fn write_bulk(out: &mut Vec<u8>, b: &[u8])
    ensures
        final(out)@ == old(out)@ + encode(FrameModel::Bulk(b@)),
{
    out.push(36u8);
    write_decimal(out, b.len() as u64);
    write_crlf(out);
    extend_bytes(out, b);
    write_crlf(out);
    assert(out@ =~= old(out)@ + encode(FrameModel::Bulk(b@)));
}

fn write_null(out: &mut Vec<u8>)
    ensures
        final(out)@ == old(out)@ + encode(FrameModel::Null),
{
    out.push(95u8);
    write_crlf(out);
    assert(out@ =~= old(out)@ + encode(FrameModel::Null));
}

/// Appends the wire bytes of `f` to `out`.
fn write_frame(out: &mut Vec<u8>, f: &Frame)
    ensures
        final(out)@ == old(out)@ + encode(f@),
    decreases f,
{
    match f {
        Frame::Simple(s) => {
            write_text(out, 43u8, s);
            assert(out@ =~= old(out)@ + encode(f@));
        },
        Frame::Error(s) => {
            write_text(out, 45u8, s);
            assert(out@ =~= old(out)@ + encode(f@));
        },
        Frame::Integer(v) => write_integer(out, *v),
        Frame::Bulk(b) => write_bulk(out, bytes_view_slice(b)),
        Frame::Null => write_null(out),
        Frame::Array(items) => write_array(out, items),
    }
}

/// Appends the wire bytes of an array of `items` to `out`.
fn write_array(out: &mut Vec<u8>, items: &Vec<Frame>)
    ensures
        final(out)@ == old(out)@ + encode(Frame::Array(*items)@),
    decreases items,
{
    let ghost models = Frame::Array(*items)@->Array_0;
    out.push(42u8);
    write_decimal(out, items.len() as u64);
    write_crlf(out);
    let ghost start = out@;
    let mut i: usize = 0;
    while i < items.len()
        invariant
            i <= items@.len(),
            models.len() == items@.len(),
            forall|j: int| 0 <= j < items@.len() ==> models[j] == (#[trigger] items@[j])@,
            out@ == start + encode_items(models.subrange(0, i as int)),
        decreases items@.len() - i,
    {
        proof {
            lemma_encode_items_push(models.subrange(0, i as int), models[i as int]);
            assert(models.subrange(0, i as int).push(models[i as int]) =~= models.subrange(
                0,
                i + 1,
            ));
        }
        write_frame(out, &items[i]);
        i = i + 1;
    }
    assert(models.subrange(0, i as int) =~= models);
    assert(out@ =~= old(out)@ + encode(Frame::Array(*items)@));
}

/// The wire bytes of the simple string `s`.
pub fn deser_simple_string(s: String) -> (r: Vec<u8>)
    ensures
        r@ == encode(FrameModel::Simple(s@)),
{
    let mut out: Vec<u8> = Vec::new();
    write_text(&mut out, 43u8, &s);
    assert(out@ =~= encode(FrameModel::Simple(s@)));
    out
}

/// The wire bytes of the error `s`.
pub fn deser_error(s: String) -> (r: Vec<u8>)
    ensures
        r@ == encode(FrameModel::Error(s@)),
{
    let mut out: Vec<u8> = Vec::new();
    write_text(&mut out, 45u8, &s);
    assert(out@ =~= encode(FrameModel::Error(s@)));
    out
}

/// The wire bytes of the integer `val`, sign always written.
pub fn deser_int(val: i64) -> (r: Vec<u8>)
    ensures
        r@ == encode(FrameModel::Integer(val as int)),
{
    let mut out: Vec<u8> = Vec::new();
    write_integer(&mut out, val);
    assert(out@ =~= encode(FrameModel::Integer(val as int)));
    out
}

/// The wire bytes of a bulk string holding `vec`, which is left as it is.
pub fn deser_string(vec: &mut Vec<u8>) -> (r: Vec<u8>)
    ensures
        r@ == encode(FrameModel::Bulk(old(vec)@)),
        final(vec)@ == old(vec)@,
{
    let mut out: Vec<u8> = Vec::new();
    write_bulk(&mut out, vec.as_slice());
    assert(out@ =~= encode(FrameModel::Bulk(vec@)));
    out
}

impl Frame {
    /// The exact wire bytes of this frame; the frame is left as it is.
    pub fn deserialize(&mut self) -> (r: Vec<u8>)
        ensures
            r@ == encode(old(self)@),
            *final(self) == *old(self),
    {
        let mut out: Vec<u8> = Vec::new();
        write_frame(&mut out, self);
        assert(out@ =~= encode(self@));
        out
    }
}

} // verus!
