use bytes::Bytes;
use my_redis::connection::{next_step, refusal_reply, respond, Step};
use my_redis::frame::Frame;
use my_redis::handler::{command_from_frame, Command, CommandError, Store, Verb};
use my_redis::Handler;

#[test]
fn handler_ping_command_frame() {
    let mut db1 = Store::new();
    let ping = "PING".to_string();
    let mut input = Frame::array();
    input.push_simple(ping);

    let mut handler = Handler::new(&mut db1);
    let result = handler.get_command(input);

    assert_eq!(result, Err(CommandError::UnexpectedFrame));
    assert_eq!(handler.command, Command::NULL);
}

#[test]
fn bulk_ping_command_frame() {
    let mut db = Store::new();
    let mut input = Frame::array();
    input.push_bulk(Bytes::from("ping"));
    let mut handler = Handler::new(&mut db);
    handler.get_command(input).unwrap();
    assert_eq!(handler.command, Command::PING);
}

#[test]
fn simple_string_name_is_refused() {
    let mut input = Frame::array();
    input.push_simple("GET".to_string());
    input.push_bulk(Bytes::from("k"));
    assert_eq!(command_from_frame(input), Err(CommandError::UnexpectedFrame));
}

#[test]
fn handler_get_command_frame() {
    let mut db1 = Store::new();
    let mut db2 = Store::new();
    let cmd = Bytes::from("GET");
    let name = Bytes::from("test");
    let mut input = Frame::array();
    input.push_bulk(cmd);
    input.push_bulk(name);

    let mut handler = Handler::new(&mut db1);
    handler.get_command(input).unwrap();

    let expected = Handler {
        command: Command::GET("test".to_string()),
        db: &mut db2,
    };

    assert_eq!(handler.command, expected.command);
}

#[test]
fn handler_set_command_frame() {
    let mut db1 = Store::new();
    let mut db2 = Store::new();
    let cmd = Bytes::from("SET");
    let name = Bytes::from("test");
    let val = Bytes::from("testval");
    let mut input = Frame::array();
    input.push_bulk(cmd);
    input.push_bulk(name);
    input.push_bulk(val);

    let mut handler = Handler::new(&mut db1);
    handler.get_command(input).unwrap();

    let expected = Handler {
        command: Command::SET("test".to_string(), Frame::Bulk(Bytes::from("testval"))),
        db: &mut db2,
    };

    assert_eq!(handler.command, expected.command);
}

#[test]
fn handler_execute_command_test() {
    let mut db1 = Store::new();
    let mut db2 = Store::new();
    let mut db3 = Store::new();

    let ping_handler = Handler {
        command: Command::PING,
        db: &mut db1,
    };

    let get_handler = Handler {
        command: Command::GET("test".to_string()),
        db: &mut db2,
    };

    let set_handler = Handler {
        command: Command::SET("test".to_string(), Frame::Bulk(Bytes::from("testval"))),
        db: &mut db3,
    };

    let ping_output = ping_handler.execute_cmd().unwrap();
    let get_output = get_handler.execute_cmd().unwrap();
    let set_output = set_handler.execute_cmd().unwrap();

    let ping_expected = Frame::Simple("PONG".to_string());
    let get_expected = Frame::Simple("Nil".to_string());
    let set_expected = Frame::Simple("OK".to_string());

    assert_eq!(ping_output, ping_expected);
    assert_eq!(get_output, get_expected);
    assert_eq!(set_output, set_expected);
}

fn bulk_array(words: &[&str]) -> Frame {
    let mut f = Frame::array();
    for w in words {
        f.push_bulk(Bytes::copy_from_slice(w.as_bytes()));
    }
    f
}

fn run(store: &mut Store, command: Command) -> Frame {
    let handler = Handler {
        command,
        db: store,
    };
    handler.execute_cmd().unwrap()
}

#[test]
fn ping_ignores_store_contents() {
    let mut store = Store::new();
    store.set("k".to_string(), "v".to_string());
    assert_eq!(run(&mut store, Command::PING), Frame::Simple("PONG".to_string()));
    assert_eq!(store.get(&"k".to_string()), Some("v".to_string()));
}

#[test]
fn set_then_get_returns_value() {
    let mut store = Store::new();
    let set = Command::SET("foo".to_string(), Frame::Bulk(Bytes::from("bar")));
    assert_eq!(run(&mut store, set), Frame::Simple("OK".to_string()));
    assert_eq!(
        run(&mut store, Command::GET("foo".to_string())),
        Frame::Bulk(Bytes::from("bar"))
    );
}

#[test]
fn set_overwrites_previous_value() {
    let mut store = Store::new();
    run(&mut store, Command::SET("k".to_string(), Frame::Bulk(Bytes::from("one"))));
    run(&mut store, Command::SET("k".to_string(), Frame::Bulk(Bytes::from("two"))));
    assert_eq!(store.get(&"k".to_string()), Some("two".to_string()));
}

#[test]
fn missing_key_stays_a_miss() {
    let mut store = Store::new();
    run(&mut store, Command::SET("other".to_string(), Frame::Bulk(Bytes::from("x"))));
    for _ in 0..3 {
        assert_eq!(
            run(&mut store, Command::GET("absent".to_string())),
            Frame::Simple("Nil".to_string())
        );
    }
    assert_eq!(store.get(&"absent".to_string()), None);
}

#[test]
fn serialized_writes_keep_one_value() {
    let mut store = Store::new();
    let values = ["v1", "v2", "v3"];
    for v in values.iter().rev() {
        run(&mut store, Command::SET("k".to_string(), Frame::Bulk(Bytes::copy_from_slice(v.as_bytes()))));
    }
    assert_eq!(store.get(&"k".to_string()), Some("v1".to_string()));
}

#[test]
fn integer_value_is_stored_as_text() {
    let mut store = Store::new();
    run(&mut store, Command::SET("n".to_string(), Frame::Integer(-12)));
    assert_eq!(store.get(&"n".to_string()), Some("-12".to_string()));
}

#[test]
fn execute_errors() {
    let mut store = Store::new();
    let h = Handler::new(&mut store);
    assert_eq!(h.execute_cmd(), Err(CommandError::NoCommand));
    let h = Handler {
        command: Command::SET("k".to_string(), Frame::Null),
        db: &mut store,
    };
    assert_eq!(h.execute_cmd(), Err(CommandError::UnexpectedFrame));
    assert_eq!(store.get(&"k".to_string()), None);
}

#[test]
fn get_command_from_wire() {
    let c = command_from_frame(bulk_array(&["get", "foo"])).unwrap();
    assert_eq!(c, Command::GET("foo".to_string()));
}

#[test]
fn arity_mismatches() {
    assert_eq!(
        command_from_frame(bulk_array(&["GET"])),
        Err(CommandError::ArityMismatch(Verb::GET, 1, 0))
    );
    assert_eq!(
        command_from_frame(bulk_array(&["GET", "a", "b"])),
        Err(CommandError::ArityMismatch(Verb::GET, 1, 2))
    );
    assert_eq!(
        command_from_frame(bulk_array(&["set", "a"])),
        Err(CommandError::ArityMismatch(Verb::SET, 2, 1))
    );
    assert_eq!(
        command_from_frame(bulk_array(&["SET", "a", "b", "c"])),
        Err(CommandError::ArityMismatch(Verb::SET, 2, 3))
    );
    assert_eq!(
        command_from_frame(bulk_array(&["PING", "x"])),
        Err(CommandError::ArityMismatch(Verb::PING, 0, 1))
    );
}

#[test]
fn rejected_arity_leaves_command_and_store() {
    let mut store = Store::new();
    let mut handler = Handler::new(&mut store);
    let r = handler.get_command(bulk_array(&["SET", "k"]));
    assert_eq!(r, Err(CommandError::ArityMismatch(Verb::SET, 2, 1)));
    assert_eq!(handler.command, Command::NULL);
    assert_eq!(store.get(&"k".to_string()), None);
}

#[test]
fn unknown_and_unexpected_frames() {
    assert_eq!(
        command_from_frame(bulk_array(&["flush"])),
        Err(CommandError::UnknownCommand("FLUSH".to_string()))
    );
    assert_eq!(command_from_frame(Frame::Null), Err(CommandError::UnexpectedFrame));
    assert_eq!(command_from_frame(Frame::array()), Err(CommandError::UnexpectedFrame));
    let mut f = Frame::array();
    f.push_bulk(Bytes::from("GET"));
    f.push_int(3);
    assert_eq!(command_from_frame(f), Err(CommandError::UnexpectedFrame));
    let mut g = Frame::array();
    g.push_bulk(Bytes::from("GET"));
    g.push_bulk(Bytes::from(vec![0xffu8]));
    assert_eq!(command_from_frame(g), Err(CommandError::UnexpectedFrame));
}

#[test]
fn wire_bytes_to_command_step() {
    match next_step(b"*2\r\n$3\r\nGET\r\n$3\r\nfoo\r\n") {
        Step::Execute(c, n) => {
            assert_eq!(c, Command::GET("foo".to_string()));
            assert_eq!(n, 22);
        },
        _ => panic!("expected a command"),
    }
    assert!(matches!(next_step(b"*2\r\n$3\r\nGET\r\n$3\r\nfo"), Step::AwaitData));
    match next_step(b"?oops") {
        Step::Reply(f, n) => {
            assert_eq!(f, Frame::Error("ERR protocol error: unknown type tag".to_string()));
            assert_eq!(n, 5);
        },
        _ => panic!("expected an error reply"),
    }
    match next_step(b"*1\r\n$3\r\nGET\r\n+x\r\n") {
        Step::Reply(f, n) => {
            assert_eq!(f, Frame::Error("ERR wrong number of arguments for 'GET' command".to_string()));
            assert_eq!(n, 13);
        },
        _ => panic!("expected an error reply"),
    }
}

#[test]
fn error_replies() {
    assert_eq!(
        refusal_reply(&CommandError::UnknownCommand("FOO".to_string())),
        Frame::Error("ERR unknown command 'FOO'".to_string())
    );
    assert_eq!(
        refusal_reply(&CommandError::UnknownCommand("A\r\nB".to_string())),
        Frame::Error("ERR unknown command".to_string())
    );
    assert_eq!(refusal_reply(&CommandError::NoCommand), Frame::Error("ERR no command".to_string()));
}

#[test]
fn respond_runs_against_store() {
    let mut store = Store::new();
    let set = Command::SET("foo".to_string(), Frame::Bulk(Bytes::from("bar")));
    assert_eq!(respond(set, &mut store), Frame::Simple("OK".to_string()));
    assert_eq!(respond(Command::GET("foo".to_string()), &mut store), Frame::Bulk(Bytes::from("bar")));
    assert_eq!(respond(Command::NULL, &mut store), Frame::Error("ERR no command".to_string()));
}
