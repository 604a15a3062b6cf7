//! Turning a line typed by a user into the frame of its command.
use crate::frame::{bytes_copy, Frame, FrameModel};
use crate::frame::utf8_to_string;
use crate::handler::{
    same_bytes, upper, upper_bytes, word_get, word_ping, word_set, CommandError, Refusal, Verb,
};
use vstd::prelude::*;
use vstd::utf8::{decode_utf8, encode_utf8, valid_utf8};

verus! {

/// Space, tab, line feed, vertical tab, form feed, carriage return.
pub open spec fn is_space(b: u8) -> bool {
    b == 32 || (9 <= b <= 13)
}

/// The words of a line: its longest runs of bytes that are not spaces, in
/// order.
pub open spec fn tokens(s: Seq<u8>) -> Seq<Seq<u8>>
    decreases s.len(),
{
    if s.len() == 0 {
        Seq::empty()
    } else if is_space(s.last()) {
        tokens(s.drop_last())
    } else if s.len() >= 2 && !is_space(s[s.len() - 2]) {
        let t = tokens(s.drop_last());
        t.update(t.len() - 1, t.last().push(s.last()))
    } else {
        tokens(s.drop_last()).push(seq![s.last()])
    }
}

/// The frame of the command on a line of bytes, or why there is none.
pub open spec fn line_command(s: Seq<u8>) -> Result<FrameModel, Refusal> {
    let ts = tokens(s);
    if ts.len() == 0 {
        Err(Refusal::UnknownCommand(Seq::empty()))
    } else {
        let name = upper(ts[0]);
        let argc = (ts.len() - 1) as nat;
        if name == word_ping() {
            if argc != 0 {
                Err(Refusal::ArityMismatch(Verb::PING, 0, argc))
            } else {
                Ok(FrameModel::Array(seq![FrameModel::Bulk(name)]))
            }
        } else if name == word_get() {
            if argc != 1 {
                Err(Refusal::ArityMismatch(Verb::GET, 1, argc))
            } else {
                Ok(FrameModel::Array(seq![FrameModel::Bulk(name), FrameModel::Bulk(ts[1])]))
            }
        } else if name == word_set() {
            if argc != 2 {
                Err(Refusal::ArityMismatch(Verb::SET, 2, argc))
            } else {
                Ok(
                    FrameModel::Array(
                        seq![FrameModel::Bulk(name), FrameModel::Bulk(ts[1]), FrameModel::Bulk(ts[2])],
                    ),
                )
            }
        } else if valid_utf8(name) {
            Err(Refusal::UnknownCommand(decode_utf8(name)))
        } else {
            Err(Refusal::UnexpectedFrame)
        }
    }
}

fn split_words(b: &[u8]) -> (r: Vec<Vec<u8>>)
    ensures
        r@.len() == tokens(b@).len(),
        forall|j: int| 0 <= j < r@.len() ==> (#[trigger] r@[j])@ == tokens(b@)[j],
{
    let mut toks: Vec<Vec<u8>> = Vec::new();
    let ghost model: Seq<Seq<u8>> = Seq::empty();
    let mut cur: Vec<u8> = Vec::new();
    let mut i: usize = 0;
    while i < b.len()
        invariant
            i <= b@.len(),
            model.len() == toks@.len(),
            forall|j: int| 0 <= j < toks@.len() ==> (#[trigger] toks@[j])@ == model[j],
            cur@.len() > 0 <==> (i > 0 && !is_space(b@[i - 1])),
            tokens(b@.subrange(0, i as int)) == if cur@.len() > 0 {
                model.push(cur@)
            } else {
                model
            },
        decreases b@.len() - i,
    {
        let c = b[i];
        let ghost s = b@.subrange(0, i + 1);
        assert(s.drop_last() =~= b@.subrange(0, i as int));
        assert(s.last() == c);
        if c == 32 || (9 <= c && c <= 13) {
            assert(tokens(s) == tokens(b@.subrange(0, i as int)));
            if cur.len() > 0 {
                proof {
                    model = model.push(cur@);
                }
                toks.push(cur);
                cur = Vec::new();
            }
        } else {
            if i > 0 {
                assert(s[s.len() - 2] == b@[i - 1]);
            }
            proof {
                if cur@.len() > 0 {
                    let t = model.push(cur@);
                    assert(tokens(s) == t.update(t.len() - 1, t.last().push(c)));
                    assert(t.update(t.len() - 1, t.last().push(c)) =~= model.push(cur@.push(c)));
                } else {
                    assert(tokens(s) == model.push(seq![c]));
                    assert(cur@.push(c) =~= seq![c]);
                }
            }
            cur.push(c);
        }
        i = i + 1;
    }
    if cur.len() > 0 {
        proof {
            model = model.push(cur@);
        }
        toks.push(cur);
    }
    assert(b@.subrange(0, i as int) =~= b@);
    toks
}

/// The frame of the command on a line typed by a user: its first word,
/// upper-cased, names the command, and the other words are its arguments.
/// A line with the wrong number of arguments is refused here, before it
/// reaches the wire.
pub fn parse(input: String) -> (r: Result<Frame, CommandError>)
    ensures
        match r {
            Ok(f) => line_command(encode_utf8(input@)) == Ok::<FrameModel, Refusal>(f@),
            Err(e) => line_command(encode_utf8(input@)) == Err::<FrameModel, Refusal>(e@),
        },
{
    let words = split_words(input.as_str().as_bytes());
    let ghost ts = tokens(encode_utf8(input@));
    if words.len() == 0 {
        let empty = String::new();
        return Err(CommandError::UnknownCommand(empty));
    }
    let name = upper_bytes(words[0].as_slice());
    let n = words.len();
    let ping_word: Vec<u8> = vec![80u8, 73u8, 78u8, 71u8];
    let get_word: Vec<u8> = vec![71u8, 69u8, 84u8];
    let set_word: Vec<u8> = vec![83u8, 69u8, 84u8];
    assert(ping_word@ =~= word_ping());
    assert(get_word@ =~= word_get());
    assert(set_word@ =~= word_set());
    if same_bytes(&name, &ping_word) {
        if n != 1 {
            return Err(CommandError::ArityMismatch(Verb::PING, 0, n - 1));
        }
        let mut output = Frame::array();
        output.push_bulk(bytes_copy(name.as_slice()));
        assert(output@->Array_0 =~= seq![FrameModel::Bulk(name@)]);
        Ok(output)
    } else if same_bytes(&name, &get_word) {
        if n != 2 {
            return Err(CommandError::ArityMismatch(Verb::GET, 1, n - 1));
        }
        let mut output = Frame::array();
        output.push_bulk(bytes_copy(name.as_slice()));
        output.push_bulk(bytes_copy(words[1].as_slice()));
        assert(output@->Array_0 =~= seq![FrameModel::Bulk(name@), FrameModel::Bulk(ts[1])]);
        Ok(output)
    } else if same_bytes(&name, &set_word) {
        if n != 3 {
            return Err(CommandError::ArityMismatch(Verb::SET, 2, n - 1));
        }
        let mut output = Frame::array();
        output.push_bulk(bytes_copy(name.as_slice()));
        output.push_bulk(bytes_copy(words[1].as_slice()));
        output.push_bulk(bytes_copy(words[2].as_slice()));
        assert(output@->Array_0 =~= seq![
            FrameModel::Bulk(name@),
            FrameModel::Bulk(ts[1]),
            FrameModel::Bulk(ts[2]),
        ]);
        Ok(output)
    } else {
        match utf8_to_string(name) {
            Some(s) => Err(CommandError::UnknownCommand(s)),
            None => Err(CommandError::UnexpectedFrame),
        }
    }
}

} // verus!
