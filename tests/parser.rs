use bytes::Bytes;
use my_redis::frame::Frame;
use my_redis::handler::{CommandError, Verb};
use my_redis::parser::parse;

#[test]
fn parse_ping_test() {
    let input = "PING".to_string();
    let output = parse(input).unwrap();

    let mut expected = Frame::array();
    expected.push_bulk(Bytes::from("PING"));

    assert_eq!(expected, output);
}

#[test]
fn parse_get_test() {
    let input = "get key".to_string();
    let output = parse(input).unwrap();

    let mut expected = Frame::array();
    expected.push_bulk(Bytes::from("GET"));
    expected.push_bulk(Bytes::from("key"));

    assert_eq!(expected, output);
}

#[test]
fn parse_set_test() {
    let input = "set key val".to_string();
    let output = parse(input).unwrap();

    let mut expected = Frame::array();
    expected.push_bulk(Bytes::from("SET"));
    expected.push_bulk(Bytes::from("key"));
    expected.push_bulk(Bytes::from("val"));

    assert_eq!(expected, output);
}

#[test]
fn parse_strips_newline_and_extra_spaces() {
    let output = parse("  Get   key \n".to_string()).unwrap();
    let mut expected = Frame::array();
    expected.push_bulk(Bytes::from("GET"));
    expected.push_bulk(Bytes::from("key"));
    assert_eq!(expected, output);
}

#[test]
fn parse_rejects_bad_arity() {
    assert_eq!(parse("get\n".to_string()), Err(CommandError::ArityMismatch(Verb::GET, 1, 0)));
    assert_eq!(parse("SET a\n".to_string()), Err(CommandError::ArityMismatch(Verb::SET, 2, 1)));
    assert_eq!(parse("ping x\n".to_string()), Err(CommandError::ArityMismatch(Verb::PING, 0, 1)));
}

#[test]
fn parse_rejects_unknown() {
    assert_eq!(parse("del k\n".to_string()), Err(CommandError::UnknownCommand("DEL".to_string())));
    assert_eq!(parse("\n".to_string()), Err(CommandError::UnknownCommand(String::new())));
}
