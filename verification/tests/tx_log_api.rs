use rusty_pelican::resp::Message;
use rusty_pelican::tx_log::{LogEntry, Revision, TransactionLog};

fn mk_string(text: &str) -> Message {
    Message::SimpleString(text.to_string())
}

#[test]
fn discards_stale_prefix() {
    let mut log = TransactionLog::new();
    let rev = Revision::default();
    log.append(LogEntry::new(0, &rev, &mk_string("OK"))).unwrap();
    log.append(LogEntry::new(0, &rev.succeeding(), &mk_string("OK2"))).unwrap();
    log.append(LogEntry::new(0, &rev.succeeding().succeeding(), &mk_string("OK3"))).unwrap();
    assert_eq!(
        log.replay(&rev.succeeding()).unwrap(),
        vec![mk_string("OK2"), mk_string("OK3")]
    );
}

#[test]
fn end_to_end() {
    let mut log = TransactionLog::new();
    let rev = Revision::default();
    log.append(LogEntry::new(0, &rev, &Message::BulkString("Hi, mom".to_string()))).unwrap();
    log.append(LogEntry::new(0, &rev, &Message::Integer(427))).unwrap();
    assert_eq!(
        log.replay(&Revision::default()).unwrap(),
        vec![Message::BulkString("Hi, mom".to_string()), Message::Integer(427)]
    );
}

#[test]
fn tx_log_end_to_end() {
    let mut log = TransactionLog::new();
    let rev = Revision::default();
    let nested = Message::Array(vec![
        Message::BulkString("SET".to_string()),
        Message::BulkString("k".to_string()),
        Message::BulkString("v".to_string()),
    ]);
    log.append(LogEntry::new(7, &rev, &nested)).unwrap();
    assert_eq!(log.replay(&rev).unwrap(), vec![nested]);
}

#[test]
fn entry_bytes_round_trip() {
    let entry = LogEntry::new(42, &Revision(9), &mk_string("hello"));
    let bytes = entry.to_bytes();
    let back = LogEntry::from_bytes(&bytes).unwrap();
    assert_eq!(back.at, 42);
    assert_eq!(back.revision, Revision(9));
    assert_eq!(back.content, entry.content);
}

#[test]
fn rejects_corrupt_bytes() {
    assert!(LogEntry::from_bytes(&vec![1u8, 2, 3]).is_err());
}
