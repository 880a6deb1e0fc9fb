use rusty_pelican::resp::{parse_message_phrase, ErrorPrefix, Message};

fn parse(phrase: &str) -> Message {
    parse_message_phrase(phrase).unwrap()
}

#[test]
fn resp_simple_strings() {
    assert_eq!(parse("+OK\r\n"), Message::SimpleString("OK".to_string()));
}

#[test]
fn resp_errors() {
    assert_eq!(
        parse("-Error message\r\n"),
        Message::Error {
            prefix: ErrorPrefix::Named("Error".to_string()),
            message: "message".to_string()
        }
    );
    assert_eq!(
        parse("-WRONGTYPE Operation against a key holding the wrong kind of value"),
        Message::Error {
            prefix: ErrorPrefix::Named("WRONGTYPE".to_string()),
            message: "Operation against a key holding the wrong kind of value".to_string()
        }
    );
    assert_eq!(
        parse("-ERR unknown command 'helloworld'"),
        Message::Error {
            prefix: ErrorPrefix::Canonical,
            message: "unknown command 'helloworld'".to_string()
        }
    );
    assert_eq!(
        parse("-ERR"),
        Message::Error { prefix: ErrorPrefix::Empty, message: "ERR".to_string() }
    );
}

#[test]
fn resp_integers() {
    assert_eq!(parse(":0\r\n"), Message::Integer(0));
    assert_eq!(parse(":1234130\r\n"), Message::Integer(1234130));
}

#[test]
fn resp_bulk_strings() {
    assert_eq!(parse("$5\r\nhello\r\n"), Message::BulkString("hello".to_string()));
    assert_eq!(parse("$5\r\n$hell\r\n"), Message::BulkString("$hell".to_string()));
    assert_eq!(parse("$0\r\n\r\n"), Message::BulkString("".to_string()));
    assert_eq!(parse("$-1\r\n"), Message::Nil);
}

#[test]
fn resp_arrays() {
    assert_eq!(parse("*0\r\n"), Message::Array(vec![]));
    assert_eq!(
        parse("*2\r\n$5\r\nhello\r\n$5\r\nworld\r\n"),
        Message::Array(vec![
            Message::BulkString("hello".to_string()),
            Message::BulkString("world".to_string()),
        ])
    );
    assert_eq!(
        parse("*3\r\n:1\r\n:2\r\n:3\r\n"),
        Message::Array(vec![Message::Integer(1), Message::Integer(2), Message::Integer(3)])
    );
    assert_eq!(
        parse("*5\r\n:1\r\n:2\r\n:3\r\n:4\r\n$5\r\nhello\r\n"),
        Message::Array(vec![
            Message::Integer(1),
            Message::Integer(2),
            Message::Integer(3),
            Message::Integer(4),
            Message::BulkString("hello".to_string()),
        ])
    );
    assert_eq!(parse("*-1\r\n"), Message::Nil);
    assert_eq!(
        parse("*2\r\n*3\r\n:1\r\n:2\r\n:3\r\n*2\r\n+Hello\r\n-World\r\n"),
        Message::Array(vec![
            Message::Array(vec![
                Message::Integer(1),
                Message::Integer(2),
                Message::Integer(3),
            ]),
            Message::Array(vec![
                Message::SimpleString("Hello".to_string()),
                Message::Error {
                    prefix: ErrorPrefix::Empty,
                    message: "World".to_string()
                },
            ]),
        ])
    );
    assert_eq!(
        parse("*3\r\n$5\r\nhello\r\n$-1\r\n$5\r\nworld\r\n"),
        Message::Array(vec![
            Message::BulkString("hello".to_string()),
            Message::Nil,
            Message::BulkString("world".to_string()),
        ])
    );
}
