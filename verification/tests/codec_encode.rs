use rusty_pelican::error::Error;
use rusty_pelican::resp::{parse_message_phrase, ErrorPrefix, Message, RequestState, Token};

fn round_trips(m: Message) {
    let encoded = m.encode();
    assert_eq!(parse_message_phrase(&encoded).unwrap(), m);
}

#[test]
fn encode_forms() {
    assert_eq!(Message::SimpleString("OK".to_string()).encode(), "+OK\r\n");
    assert_eq!(Message::Integer(-42).encode(), ":-42\r\n");
    assert_eq!(Message::BulkString("hello".to_string()).encode(), "$5\r\nhello\r\n");
    assert_eq!(Message::Nil.encode(), "$-1\r\n");
    assert_eq!(Message::Array(vec![]).encode(), "*0\r\n");
    assert_eq!(
        Message::Array(vec![
            Message::BulkString("a".to_string()),
            Message::BulkString("b".to_string())
        ])
        .encode(),
        "*2\r\n$1\r\na\r\n$1\r\nb\r\n"
    );
}

#[test]
fn encoded_messages_parse_back() {
    round_trips(Message::SimpleString("hello world".to_string()));
    round_trips(Message::Integer(0));
    round_trips(Message::Integer(i64::MIN));
    round_trips(Message::BulkString("".to_string()));
    round_trips(Message::BulkString("$dollar".to_string()));
    round_trips(Message::Nil);
    round_trips(Message::Error {
        prefix: ErrorPrefix::Canonical,
        message: "boom town".to_string(),
    });
    round_trips(Message::Array(vec![
        Message::Array(vec![Message::Integer(1), Message::Nil]),
        Message::BulkString("x".to_string()),
    ]));
}

#[test]
fn resumable_token_reader() {
    let mut state = RequestState::make();
    state.add_token(Token::parse("*2"));
    assert!(state.try_parse_message().is_none());
    state.add_token(Token::parse("$1"));
    assert!(state.try_parse_message().is_none());
    state.add_token(Token::parse("a"));
    assert!(state.try_parse_message().is_none());
    state.add_token(Token::parse(":9"));
    let message = state.try_parse_message().unwrap();
    assert_eq!(
        message,
        Message::Array(vec![Message::BulkString("a".to_string()), Message::Integer(9)])
    );
}

#[test]
fn dead_streams_are_reported() {
    let mut state = RequestState::make();
    assert!(state.failed().is_none());
    state.add_token(Token::parse("garbage with no tag"));
    assert!(state.try_parse_message().is_none());
    match state.failed() {
        Some(Error::InvalidData(_)) => {}
        other => panic!("expected an input-data error, got {:?}", other),
    }
    let mut fine = RequestState::make();
    fine.add_token(Token::parse("*1"));
    assert!(fine.try_parse_message().is_none());
    assert!(fine.failed().is_none());
}
