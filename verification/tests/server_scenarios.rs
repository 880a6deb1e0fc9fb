use rusty_pelican::commands::Command;
use rusty_pelican::engine::Datasets;
use rusty_pelican::resp::{ErrorPrefix, Message};
use rusty_pelican::state::{CommandContext, StateContext};
use rusty_pelican::ttl::Lifetimes;
use rusty_pelican::tx_log::LoggedTransactions;

fn fresh() -> StateContext {
    let mut st = StateContext::new(LoggedTransactions::new(Lifetimes::new(Datasets::new())));
    st.state.finalize_replay();
    st
}

fn bulk(words: &[&str]) -> Message {
    Message::Array(words.iter().map(|w| Message::BulkString(w.to_string())).collect())
}

fn send(state: &mut StateContext, words: &[&str], now: u64) -> Message {
    let message = bulk(words);
    let command = Command::try_from(&message).unwrap();
    let ctx = CommandContext::new(command, message);
    state.apply(&ctx, now).unwrap().response
}

fn bulk_reply(words: &[&str]) -> Message {
    bulk(words)
}

#[test]
fn zadd_scenario_counts_and_ranks() {
    let mut st = fresh();
    assert_eq!(send(&mut st, &["ZADD", "k", "1", "a", "2", "b", "3", "c"], 0), Message::Integer(3));
    assert_eq!(send(&mut st, &["ZRANGE", "k", "0", "-1"], 0), bulk_reply(&["a", "b", "c"]));
    assert_eq!(send(&mut st, &["ZSCORE", "k", "b"], 0), Message::BulkString("2".to_string()));
    assert_eq!(send(&mut st, &["ZRANK", "k", "c"], 0), Message::Integer(2));
}

#[test]
fn zadd_update_only_if_greater() {
    let mut st = fresh();
    assert_eq!(send(&mut st, &["ZADD", "k", "1", "a"], 0), Message::Integer(1));
    assert_eq!(send(&mut st, &["ZADD", "k", "XX", "GT", "1", "a"], 0), Message::Integer(0));
    assert_eq!(send(&mut st, &["ZSCORE", "k", "a"], 0), Message::BulkString("1".to_string()));
}

#[test]
fn zadd_changed_count() {
    let mut st = fresh();
    assert_eq!(send(&mut st, &["ZADD", "k", "1", "a"], 0), Message::Integer(1));
    assert_eq!(send(&mut st, &["ZADD", "k", "XX", "GT", "CH", "5", "a"], 0), Message::Integer(1));
    assert_eq!(send(&mut st, &["ZSCORE", "k", "a"], 0), Message::BulkString("5".to_string()));
}

#[test]
fn zadd_rejects_bad_option_mix() {
    let mut st = fresh();
    match send(&mut st, &["ZADD", "k", "NX", "XX", "1", "a"], 0) {
        Message::Error { prefix, .. } => assert_eq!(prefix, ErrorPrefix::Canonical),
        other => panic!("expected an error reply, got {:?}", other),
    }
}

#[test]
fn ttl_scenario_expiry() {
    let mut st = fresh();
    assert_eq!(send(&mut st, &["SET", "k", "v"], 100), Message::SimpleString("OK".to_string()));
    assert_eq!(send(&mut st, &["EXPIRE", "k", "1"], 100), Message::Integer(1));
    assert_eq!(send(&mut st, &["TTL", "k"], 100), Message::Integer(1));
    assert_eq!(send(&mut st, &["GET", "k"], 102), Message::Nil);
    assert_eq!(send(&mut st, &["TTL", "k"], 102), Message::Integer(-2));
}

#[test]
fn ttl_scenario_eternal() {
    let mut st = fresh();
    assert_eq!(send(&mut st, &["SET", "k", "v"], 0), Message::SimpleString("OK".to_string()));
    assert_eq!(send(&mut st, &["TTL", "k"], 0), Message::Integer(-1));
}

#[test]
fn expire_on_absent_key_reports_zero() {
    let mut st = fresh();
    assert_eq!(send(&mut st, &["EXPIRE", "nothing", "5"], 0), Message::Integer(0));
}

#[test]
fn unknown_command_reply() {
    let mut st = fresh();
    assert_eq!(
        send(&mut st, &["HELLOWORLD", "x"], 0),
        Message::Error {
            prefix: ErrorPrefix::Canonical,
            message: "Unsupported command string `HELLOWORLD x`.".to_string()
        }
    );
}

#[test]
fn bad_integer_is_an_input_error() {
    let mut st = fresh();
    let message = bulk(&["EXPIRE", "k", "soon"]);
    assert!(Command::try_from(&message).is_err());
}

#[test]
fn basic_pipeline() {
    let mut st = fresh();
    assert_eq!(send(&mut st, &["SET", "k", "v"], 0), Message::SimpleString("OK".to_string()));
    assert_eq!(send(&mut st, &["GET", "k"], 0), Message::BulkString("v".to_string()));
    assert_eq!(send(&mut st, &["LPUSH", "l", "b"], 0), Message::Integer(1));
    assert_eq!(send(&mut st, &["LPUSH", "l", "a"], 0), Message::Integer(2));
    assert_eq!(send(&mut st, &["LRANGE", "l", "0", "-1"], 0), bulk_reply(&["a", "b"]));
    assert_eq!(send(&mut st, &["LLEN", "l"], 0), Message::Integer(2));
    assert_eq!(send(&mut st, &["EXISTS", "k"], 0), Message::Integer(1));
    assert_eq!(send(&mut st, &["TYPE", "l"], 0), Message::SimpleString("list".to_string()));
    assert_eq!(send(&mut st, &["PING"], 0), Message::SimpleString("PONG".to_string()));
    assert_eq!(send(&mut st, &["PING", "hi", "there"], 0), Message::SimpleString("hi there".to_string()));
    assert_eq!(send(&mut st, &["DBSIZE"], 0), Message::Integer(2));
    assert_eq!(send(&mut st, &["SELECT", "3"], 0), Message::SimpleString("OK".to_string()));
    assert_eq!(send(&mut st, &["CLIENT", "SETNAME", "me"], 0), Message::SimpleString("OK".to_string()));
}

#[test]
fn lset_out_of_range_reply() {
    let mut st = fresh();
    assert_eq!(
        send(&mut st, &["LSET", "l", "0", "x"], 0),
        Message::Error {
            prefix: ErrorPrefix::Canonical,
            message: "Index out of range".to_string()
        }
    );
}

#[test]
fn info_sections() {
    let mut st = fresh();
    assert_eq!(
        send(&mut st, &["INFO", "server"], 0),
        Message::BulkString("# Server\r\nredis_version:7.0.9\r\n".to_string())
    );
    assert_eq!(
        send(&mut st, &["INFO", "keyspace"], 0),
        Message::BulkString("# Keyspace\r\ndb0:keys=0,expires=0,avg_ttl=0\r\n".to_string())
    );
}
