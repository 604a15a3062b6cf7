//! The decisions of one connection: what to do with the bytes buffered so
//! far, and the replies that errors become. Reading and writing the socket,
//! and locking the shared store, are left to the caller.
use crate::decode::decode;
use crate::frame::{Frame, FrameModel};
use crate::handler::{
    command_from_frame, command_of, reply_to, store_after, Command, CommandError, Handler, Refusal,
    Store, Verb,
};
use crate::wire::{is_line_break, parse, Malformation, ProtocolError};
use vstd::prelude::*;
use vstd::string::StringExecFns;
use vstd::utf8::encode_utf8;

verus! {

pub open spec fn malformation_text(k: Malformation) -> Seq<char> {
    match k {
        Malformation::UnknownTag => "ERR protocol error: unknown type tag"@,
        Malformation::BadLine => "ERR protocol error: stray line break"@,
        Malformation::BadText => "ERR protocol error: text is not UTF-8"@,
        Malformation::BadInteger => "ERR protocol error: bad integer"@,
        Malformation::BadLength => "ERR protocol error: bad length"@,
        Malformation::BadTerminator => "ERR protocol error: missing terminator"@,
        Malformation::TooDeep => "ERR protocol error: arrays nest too deep"@,
    }
}

/// Text whose bytes hold no carriage return or line feed.
pub open spec fn plain(t: Seq<char>) -> bool {
    forall|j: int| 0 <= j < encode_utf8(t).len() ==> !is_line_break(#[trigger] encode_utf8(t)[j])
}

pub open spec fn verb_text(v: Verb) -> Seq<char> {
    match v {
        Verb::PING => "ERR wrong number of arguments for 'PING' command"@,
        Verb::GET => "ERR wrong number of arguments for 'GET' command"@,
        Verb::SET => "ERR wrong number of arguments for 'SET' command"@,
    }
}

/// The text of the error reply to a refused command. An unknown name is
/// quoted when it holds no line break.
pub open spec fn refusal_text(e: Refusal) -> Seq<char> {
    match e {
        Refusal::UnexpectedFrame => "ERR unexpected frame"@,
        Refusal::UnknownCommand(n) => if plain(n) {
            "ERR unknown command '"@ + n + "'"@
        } else {
            "ERR unknown command"@
        },
        Refusal::ArityMismatch(v, _, _) => verb_text(v),
        Refusal::NoCommand => "ERR no command"@,
    }
}

/// The error reply to bytes that can never become a frame.
pub fn malformation_reply(k: Malformation) -> (r: Frame)
    ensures
        r@ == FrameModel::Error(malformation_text(k)),
{
    let text = match k {
        Malformation::UnknownTag => "ERR protocol error: unknown type tag".to_owned(),
        Malformation::BadLine => "ERR protocol error: stray line break".to_owned(),
        Malformation::BadText => "ERR protocol error: text is not UTF-8".to_owned(),
        Malformation::BadInteger => "ERR protocol error: bad integer".to_owned(),
        Malformation::BadLength => "ERR protocol error: bad length".to_owned(),
        Malformation::BadTerminator => "ERR protocol error: missing terminator".to_owned(),
        Malformation::TooDeep => "ERR protocol error: arrays nest too deep".to_owned(),
    };
    Frame::Error(text)
}

fn is_plain(t: &String) -> (r: bool)
    ensures
        r == plain(t@),
{
    let b = t.as_str().as_bytes();
    let mut i: usize = 0;
    while i < b.len()
        invariant
            i <= b@.len(),
            b@ == encode_utf8(t@),
            forall|j: int| 0 <= j < i ==> !is_line_break(#[trigger] b@[j]),
        decreases b@.len() - i,
    {
        if b[i] == 13u8 || b[i] == 10u8 {
            assert(is_line_break(b@[i as int]));
            return false;
        }
        i = i + 1;
    }
    true
}

/// The error reply to a refused command.
pub fn refusal_reply(e: &CommandError) -> (r: Frame)
    ensures
        r@ == FrameModel::Error(refusal_text(e@)),
{
    let text = match e {
        CommandError::UnexpectedFrame => "ERR unexpected frame".to_owned(),
        CommandError::UnknownCommand(n) => {
            if is_plain(n) {
                "ERR unknown command '".to_owned().concat(n.as_str()).concat("'")
            } else {
                "ERR unknown command".to_owned()
            }
        },
        CommandError::ArityMismatch(v, _, _) => match v {
            Verb::PING => "ERR wrong number of arguments for 'PING' command".to_owned(),
            Verb::GET => "ERR wrong number of arguments for 'GET' command".to_owned(),
            Verb::SET => "ERR wrong number of arguments for 'SET' command".to_owned(),
        },
        CommandError::NoCommand => "ERR no command".to_owned(),
    };
    Frame::Error(text)
}

/// What a connection does next with the bytes it has buffered.
pub enum Step {
    /// The bytes are only the beginning of a frame: keep them and wait for more.
    AwaitData,
    /// Run the command against the store and send its reply; the first
    /// bytes, as many as given, are done with.
    Execute(Command, usize),
    /// Send this reply without touching the store; the first bytes, as many
    /// as given, are done with.
    Reply(Frame, usize),
}

/// Decides what to do with the bytes buffered so far: wait on an incomplete
/// frame; run the command of a complete one; reply with an error to a frame
/// that is no command, and to bytes that can never become a frame, which
/// are then dropped whole.
pub fn next_step(buf: &[u8]) -> (r: Step)
    ensures
        match parse(buf@) {
            Err(ProtocolError::Incomplete) => r is AwaitData,
            Err(ProtocolError::Malformed(k)) => r matches Step::Reply(f, n) && n == buf@.len()
                && f@ == FrameModel::Error(malformation_text(k)),
            Ok((m, end)) => match command_of(m) {
                Ok(c) => r matches Step::Execute(cmd, n) && cmd@ == c && n == end,
                Err(e) => r matches Step::Reply(f, n) && n == end && f@ == FrameModel::Error(
                    refusal_text(e),
                ),
            },
        },
{
    match decode(buf) {
        Err(ProtocolError::Incomplete) => Step::AwaitData,
        Err(ProtocolError::Malformed(k)) => Step::Reply(malformation_reply(k), buf.len()),
        Ok((frame, end)) => match command_from_frame(frame) {
            Ok(c) => Step::Execute(c, end),
            Err(e) => Step::Reply(refusal_reply(&e), end),
        },
    }
}

/// The reply that a command gets from the store, an error reply where it
/// cannot run; the store changes as the command says.
pub fn respond(command: Command, store: &mut Store) -> (r: Frame)
    ensures
        final(store).contents() == store_after(command@, old(store).contents()),
        r@ == match reply_to(command@, old(store).contents()) {
            Ok(f) => f,
            Err(e) => FrameModel::Error(refusal_text(e)),
        },
{
    let mut handler = Handler::new(store);
    handler.command = command;
    match handler.execute_cmd() {
        Ok(f) => f,
        Err(e) => refusal_reply(&e),
    }
}

} // verus!
