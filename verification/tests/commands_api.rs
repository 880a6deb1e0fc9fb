use rusty_pelican::commands::Command;
use rusty_pelican::lists::ListApi;
use rusty_pelican::resp::Message;

fn make_command(words: Vec<&str>) -> Message {
    Message::Array(words.iter().map(|s| Message::BulkString(s.to_string())).collect())
}

fn classify(words: Vec<&str>) -> Command {
    Command::try_from(&make_command(words)).unwrap()
}

#[test]
fn commands_lists() {
    match classify(vec!["LPUSH", "mylist", "Kalle"]) {
        Command::Lists(ListApi::Prepend(key, elements, to_existing)) => {
            assert_eq!(key, "mylist");
            assert_eq!(elements, vec!["Kalle".to_string()]);
            assert!(!to_existing);
        }
        other => panic!("wrong classification: {:?}", other),
    }
    match classify(vec!["LPUSHX", "mylist", "Kalle"]) {
        Command::Lists(ListApi::Prepend(key, elements, to_existing)) => {
            assert_eq!(key, "mylist");
            assert_eq!(elements, vec!["Kalle".to_string()]);
            assert!(to_existing);
        }
        other => panic!("wrong classification: {:?}", other),
    }
    match classify(vec!["RPUSH", "mylist", "Kalle"]) {
        Command::Lists(ListApi::Append(key, elements, to_existing)) => {
            assert_eq!(key, "mylist");
            assert_eq!(elements, vec!["Kalle".to_string()]);
            assert!(!to_existing);
        }
        other => panic!("wrong classification: {:?}", other),
    }
    match classify(vec!["RPUSHX", "mylist", "Kalle"]) {
        Command::Lists(ListApi::Append(key, elements, to_existing)) => {
            assert_eq!(key, "mylist");
            assert_eq!(elements, vec!["Kalle".to_string()]);
            assert!(to_existing);
        }
        other => panic!("wrong classification: {:?}", other),
    }
    match classify(vec!["LLEN", "mylist"]) {
        Command::Lists(ListApi::Length(key)) => assert_eq!(key, "mylist"),
        other => panic!("wrong classification: {:?}", other),
    }
}

#[test]
fn mixed_case_verbs_classify() {
    assert!(matches!(classify(vec!["llen", "k"]), Command::Lists(ListApi::Length(_))));
    assert!(matches!(classify(vec!["LLen", "k"]), Command::Lists(ListApi::Length(_))));
}

#[test]
fn unknown_verbs_join_their_words() {
    match classify(vec!["NOPE", "a", "b"]) {
        Command::Unknown(text) => assert_eq!(text, "NOPE a b"),
        other => panic!("wrong classification: {:?}", other),
    }
}

#[test]
fn non_bulk_arrays_are_rejected() {
    assert!(Command::try_from(&Message::Integer(5)).is_err());
    assert!(Command::try_from(&Message::Array(vec![Message::Integer(5)])).is_err());
}
