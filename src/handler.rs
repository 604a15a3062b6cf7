//! Commands: how frames name them, the store they act on, and
//! their execution.
use crate::frame::{
    bytes_copy, bytes_view_slice, lemma_items_view, text_of, utf8_to_string, Frame, FrameModel,
};
use vstd::hash_map::StringHashMap;
use vstd::prelude::*;
use vstd::slice::slice_to_vec;
use vstd::utf8::{decode_utf8, encode_utf8, valid_utf8};

verus! {

/// The commands, as named in an arity error.
#[allow(non_camel_case_types)]
#[derive(Debug, PartialEq, Eq, Clone, Copy)]
pub enum Verb {
    PING,
    GET,
    SET,
}

/// Why a frame or a line gives no command, or a command cannot run.
#[derive(Debug, PartialEq)]
pub enum CommandError {
    /// Not an array of bulk strings, or an argument that is not valid UTF-8.
    UnexpectedFrame,
    /// The name, upper-cased, is none of the commands.
    UnknownCommand(String),
    /// The command, the number of arguments it takes, the number given.
    ArityMismatch(Verb, usize, usize),
    /// There is no command to run.
    NoCommand,
}

/// The mathematical value of a `CommandError`.
pub enum Refusal {
    UnexpectedFrame,
    UnknownCommand(Seq<char>),
    ArityMismatch(Verb, nat, nat),
    NoCommand,
}

impl View for CommandError {
    type V = Refusal;

    open spec fn view(&self) -> Refusal {
        match self {
            CommandError::UnexpectedFrame => Refusal::UnexpectedFrame,
            CommandError::UnknownCommand(s) => Refusal::UnknownCommand(s@),
            CommandError::ArityMismatch(v, e, g) => Refusal::ArityMismatch(*v, *e as nat, *g as nat),
            CommandError::NoCommand => Refusal::NoCommand,
        }
    }
}

/// A command of the service.
#[allow(non_camel_case_types)]
#[derive(PartialEq, Debug)]
pub enum Command {
    PING,
    GET(String),
    SET(String, Frame),
    NULL,
}

/// The mathematical value of a `Command`.
#[allow(non_camel_case_types)]
pub enum Request {
    PING,
    GET(Seq<char>),
    SET(Seq<char>, FrameModel),
    NULL,
}

impl View for Command {
    type V = Request;

    open spec fn view(&self) -> Request {
        match self {
            Command::PING => Request::PING,
            Command::GET(k) => Request::GET(k@),
            Command::SET(k, v) => Request::SET(k@, v@),
            Command::NULL => Request::NULL,
        }
    }
}

pub open spec fn upper_byte(b: u8) -> u8 {
    if 97 <= b <= 122 {
        (b - 32) as u8
    } else {
        b
    }
}

/// ASCII upper case of a byte string; other bytes stay.
pub open spec fn upper(b: Seq<u8>) -> Seq<u8> {
    Seq::new(b.len(), |i: int| upper_byte(b[i]))
}

pub open spec fn word_ping() -> Seq<u8> {
    seq![80u8, 73u8, 78u8, 71u8]
}

pub open spec fn word_get() -> Seq<u8> {
    seq![71u8, 69u8, 84u8]
}

pub open spec fn word_set() -> Seq<u8> {
    seq![83u8, 69u8, 84u8]
}

/// The bytes of a command name, which must be a bulk string.
pub open spec fn name_bytes(m: FrameModel) -> Option<Seq<u8>> {
    match m {
        FrameModel::Bulk(b) => Some(b),
        _ => None,
    }
}

/// The text of an argument: a bulk string of valid UTF-8.
pub open spec fn bulk_text(m: FrameModel) -> Option<Seq<char>> {
    match m {
        FrameModel::Bulk(b) => if valid_utf8(b) {
            Some(decode_utf8(b))
        } else {
            None
        },
        _ => None,
    }
}

/// The command chosen by an upper-cased name, given its argument frames.
pub open spec fn select(name: Seq<u8>, args: Seq<FrameModel>) -> Result<Request, Refusal> {
    if name == word_ping() {
        if args.len() != 0 {
            Err(Refusal::ArityMismatch(Verb::PING, 0, args.len()))
        } else {
            Ok(Request::PING)
        }
    } else if name == word_get() {
        if args.len() != 1 {
            Err(Refusal::ArityMismatch(Verb::GET, 1, args.len()))
        } else {
            match bulk_text(args[0]) {
                Some(k) => Ok(Request::GET(k)),
                None => Err(Refusal::UnexpectedFrame),
            }
        }
    } else if name == word_set() {
        if args.len() != 2 {
            Err(Refusal::ArityMismatch(Verb::SET, 2, args.len()))
        } else {
            match (bulk_text(args[0]), bulk_text(args[1])) {
                (Some(k), Some(_)) => Ok(Request::SET(k, args[1])),
                _ => Err(Refusal::UnexpectedFrame),
            }
        }
    } else if valid_utf8(name) {
        Err(Refusal::UnknownCommand(decode_utf8(name)))
    } else {
        Err(Refusal::UnexpectedFrame)
    }
}

/// The command that a frame of the wire stands for.
pub open spec fn command_of(m: FrameModel) -> Result<Request, Refusal> {
    match m {
        FrameModel::Array(items) => if items.len() == 0 {
            Err(Refusal::UnexpectedFrame)
        } else {
            match name_bytes(items[0]) {
                Some(n) => select(upper(n), items.subrange(1, items.len() as int)),
                None => Err(Refusal::UnexpectedFrame),
            }
        },
        _ => Err(Refusal::UnexpectedFrame),
    }
}

pub(crate) fn upper_bytes(b: &[u8]) -> (r: Vec<u8>)
    ensures
        r@ == upper(b@),
{
    let mut out: Vec<u8> = Vec::new();
    let mut i: usize = 0;
    while i < b.len()
        invariant
            i <= b@.len(),
            out@ == upper(b@).subrange(0, i as int),
        decreases b@.len() - i,
    {
        let c = b[i];
        let u = if 97 <= c && c <= 122 {
            c - 32
        } else {
            c
        };
        out.push(u);
        i = i + 1;
        assert(out@ =~= upper(b@).subrange(0, i as int));
    }
    assert(out@ =~= upper(b@));
    out
}

pub(crate) fn same_bytes(a: &Vec<u8>, b: &Vec<u8>) -> (r: bool)
    ensures
        r == (a@ == b@),
{
    if a.len() != b.len() {
        return false;
    }
    let mut i: usize = 0;
    while i < a.len()
        invariant
            i <= a@.len(),
            a@.len() == b@.len(),
            a@.subrange(0, i as int) == b@.subrange(0, i as int),
        decreases a@.len() - i,
    {
        if a[i] != b[i] {
            assert(a@[i as int] != b@[i as int]);
            return false;
        }
        i = i + 1;
        assert(a@.subrange(0, i as int) =~= b@.subrange(0, i as int)) by {
            assert forall|j: int| 0 <= j < i implies a@[j] == b@[j] by {
                if j < i - 1 {
                    assert(a@.subrange(0, i - 1)[j] == b@.subrange(0, i - 1)[j]);
                }
            }
        }
    }
    assert(a@ =~= a@.subrange(0, i as int));
    assert(b@ =~= b@.subrange(0, i as int));
    true
}

/// The text of an argument frame, when it is a bulk string of valid UTF-8.
fn bulk_string(f: &Frame) -> (r: Option<String>)
    ensures
        match r {
            Some(s) => bulk_text(f@) == Some(s@),
            None => bulk_text(f@) is None,
        },
{
    match f {
        Frame::Bulk(b) => utf8_to_string(slice_to_vec(bytes_view_slice(b))),
        _ => None,
    }
}

/// The command that a frame of the wire stands for.
pub fn command_from_frame(frame: Frame) -> (r: Result<Command, CommandError>)
    ensures
        match r {
            Ok(c) => command_of(frame@) == Ok::<Request, Refusal>(c@),
            Err(e) => command_of(frame@) == Err::<Request, Refusal>(e@),
        },
{
    let ghost m = frame@;
    if let Frame::Array(mut items) = frame {
        proof {
            lemma_items_view(frame);
        }
        let n = items.len();
        if n == 0 {
            return Err(CommandError::UnexpectedFrame);
        }
        let ghost args = m->Array_0.subrange(1, n as int);
        let name = match &items[0] {
            Frame::Bulk(b) => upper_bytes(bytes_view_slice(b)),
            _ => {
                return Err(CommandError::UnexpectedFrame);
            },
        };
        assert(name_bytes(m->Array_0[0]) is Some && name@ == upper(
            name_bytes(m->Array_0[0])->Some_0,
        ));
        let ping_word: Vec<u8> = vec![80u8, 73u8, 78u8, 71u8];
        let get_word: Vec<u8> = vec![71u8, 69u8, 84u8];
        let set_word: Vec<u8> = vec![83u8, 69u8, 84u8];
        assert(ping_word@ =~= word_ping());
        assert(get_word@ =~= word_get());
        assert(set_word@ =~= word_set());
        if same_bytes(&name, &ping_word) {
            if n != 1 {
                Err(CommandError::ArityMismatch(Verb::PING, 0, n - 1))
            } else {
                Ok(Command::PING)
            }
        } else if same_bytes(&name, &get_word) {
            if n != 2 {
                Err(CommandError::ArityMismatch(Verb::GET, 1, n - 1))
            } else {
                assert(args[0] == m->Array_0[1]);
                match bulk_string(&items[1]) {
                    Some(k) => Ok(Command::GET(k)),
                    None => Err(CommandError::UnexpectedFrame),
                }
            }
        } else if same_bytes(&name, &set_word) {
            if n != 3 {
                Err(CommandError::ArityMismatch(Verb::SET, 2, n - 1))
            } else {
                assert(args[0] == m->Array_0[1]);
                assert(args[1] == m->Array_0[2]);
                let key = bulk_string(&items[1]);
                let value_text = bulk_string(&items[2]);
                match key {
                    Some(k) => if value_text.is_some() {
                        let v = items.pop().unwrap();
                        Ok(Command::SET(k, v))
                    } else {
                        Err(CommandError::UnexpectedFrame)
                    },
                    None => Err(CommandError::UnexpectedFrame),
                }
            }
        } else {
            match utf8_to_string(name) {
                Some(s) => Err(CommandError::UnknownCommand(s)),
                None => Err(CommandError::UnexpectedFrame),
            }
        }
    } else {
        Err(CommandError::UnexpectedFrame)
    }
}

/// The shared mapping from keys to values.
pub struct Store {
    map: StringHashMap<String>,
}

impl Store {
    /// What the store holds: each key's value, as text.
    pub closed spec fn contents(&self) -> Map<Seq<char>, Seq<char>> {
        Map::new(|k: Seq<char>| self.map@.contains_key(k), |k: Seq<char>| self.map@[k]@)
    }

    /// An empty store.
    pub fn new() -> (r: Store)
        ensures
            r.contents() == Map::<Seq<char>, Seq<char>>::empty(),
    {
        let r = Store { map: StringHashMap::new() };
        assert(r.contents() =~= Map::<Seq<char>, Seq<char>>::empty());
        r
    }

    /// The value under `key`, if there is one.
    pub fn get(&self, key: &String) -> (r: Option<String>)
        ensures
            match r {
                Some(v) => self.contents().contains_key(key@) && v@ == self.contents()[key@],
                None => !self.contents().contains_key(key@),
            },
    {
        match self.map.get(key.as_str()) {
            Some(v) => Some(v.clone()),
            None => None,
        }
    }

    /// Puts `value` under `key`, in place of any value that was there.
    pub fn set(&mut self, key: String, value: String)
        ensures
            final(self).contents() == old(self).contents().insert(key@, value@),
    {
        self.map.insert(key, value);
        assert(self.contents() =~= old(self).contents().insert(key@, value@));
    }
}

pub open spec fn pong() -> Seq<char> {
    "PONG"@
}

/// The reply to a read of a missing key.
pub open spec fn miss() -> Seq<char> {
    "Nil"@
}

pub open spec fn ok_text() -> Seq<char> {
    "OK"@
}

/// The reply to a command run against a store holding `db`.
pub open spec fn reply_to(c: Request, db: Map<Seq<char>, Seq<char>>) -> Result<FrameModel, Refusal> {
    match c {
        Request::PING => Ok(FrameModel::Simple(pong())),
        Request::GET(k) => if db.contains_key(k) {
            Ok(FrameModel::Bulk(encode_utf8(db[k])))
        } else {
            Ok(FrameModel::Simple(miss()))
        },
        Request::SET(k, v) => if text_of(v) is Some {
            Ok(FrameModel::Simple(ok_text()))
        } else {
            Err(Refusal::UnexpectedFrame)
        },
        Request::NULL => Err(Refusal::NoCommand),
    }
}

/// What a store holding `db` holds once the command has run.
pub open spec fn store_after(c: Request, db: Map<Seq<char>, Seq<char>>) -> Map<Seq<char>, Seq<char>> {
    match c {
        Request::SET(k, v) => match text_of(v) {
            Some(t) => db.insert(k, t),
            None => db,
        },
        _ => db,
    }
}

/// A command together with the store it runs against.
pub struct Handler<'a> {
    pub command: Command,
    pub db: &'a mut Store,
}

impl<'a> Handler<'a> {
    /// A handler on `database`, with no command yet.
    pub fn new(database: &'a mut Store) -> (r: Handler<'a>)
        ensures
            r.command == Command::NULL,
            *r.db == *old(database),
            *final(database) == *final(r.db),
    {
        Handler { command: Command::NULL, db: database }
    }

    /// Takes the command that `frame` stands for; on an error the command
    /// stays as it was.
    pub fn get_command(&mut self, frame: Frame) -> (r: Result<(), CommandError>)
        ensures
            final(self).db == old(self).db,
            match r {
                Ok(()) => command_of(frame@) == Ok::<Request, Refusal>(final(self).command@),
                Err(e) => command_of(frame@) == Err::<Request, Refusal>(e@) && final(self).command
                    == old(self).command,
            },
    {
        match command_from_frame(frame) {
            Ok(c) => {
                self.command = c;
                Ok(())
            },
            Err(e) => Err(e),
        }
    }

    /// Runs the command against the store and gives the reply.
    pub fn execute_cmd(self) -> (r: Result<Frame, CommandError>)
        ensures
            final(self.db).contents() == store_after(self.command@, old(self.db).contents()),
            match r {
                Ok(f) => reply_to(self.command@, old(self.db).contents()) == Ok::<
                    FrameModel,
                    Refusal,
                >(f@),
                Err(e) => reply_to(self.command@, old(self.db).contents()) == Err::<
                    FrameModel,
                    Refusal,
                >(e@),
            },
    {
        match self.command {
            Command::PING => Ok(Frame::Simple("PONG".to_owned())),
            Command::GET(key) => match self.db.get(&key) {
                Some(v) => Ok(Frame::Bulk(bytes_copy(v.as_str().as_bytes()))),
                None => Ok(Frame::Simple("Nil".to_owned())),
            },
            Command::SET(key, val) => {
                let mut val = val;
                match val.to_string() {
                    Ok(t) => {
                        self.db.set(key, t);
                        Ok(Frame::Simple("OK".to_owned()))
                    },
                    Err(_) => Err(CommandError::UnexpectedFrame),
                }
            },
            Command::NULL => Err(CommandError::NoCommand),
        }
    }
}

} // verus!
