use rusty_pelican::commands::Command;
use rusty_pelican::engine::Datasets;
use rusty_pelican::resp::Message;
use rusty_pelican::state::{CommandContext, StateContext};
use rusty_pelican::ttl::Lifetimes;
use rusty_pelican::tx_log::{LoggedTransactions, Revision};

fn fresh() -> StateContext {
    let mut st = StateContext::new(LoggedTransactions::new(Lifetimes::new(Datasets::new())));
    st.state.finalize_replay();
    st
}

fn bulk(words: &[&str]) -> Message {
    Message::Array(words.iter().map(|w| Message::BulkString(w.to_string())).collect())
}

fn send(state: &mut StateContext, words: &[&str], now: u64) -> Message {
    let message = bulk(words);
    let command = Command::try_from(&message).unwrap();
    let ctx = CommandContext::new(command, message);
    state.apply(&ctx, now).unwrap().response
}

#[test]
fn replay_reconstructs_the_dataset() {
    let mut st = fresh();
    send(&mut st, &["SET", "a", "1"], 0);
    send(&mut st, &["SET", "b", "2"], 0);
    send(&mut st, &["LPUSH", "l", "x"], 0);
    send(&mut st, &["LPUSH", "l", "y"], 0);

    let messages = st.state.transaction_log().replay(&Revision::default()).unwrap();
    assert_eq!(messages.len(), 4);

    // a fresh context replays the messages while marked replaying
    let mut recovered = StateContext::new(LoggedTransactions::new(Lifetimes::new(
        Datasets::new(),
    )));
    for message in messages {
        let command = Command::try_from(&message).unwrap();
        let ctx = CommandContext::new(command, message);
        recovered.apply(&ctx, 0).unwrap();
    }
    recovered.state.finalize_replay();
    assert_eq!(send(&mut recovered, &["GET", "a"], 0), Message::BulkString("1".to_string()));
    assert_eq!(send(&mut recovered, &["GET", "b"], 0), Message::BulkString("2".to_string()));
    assert_eq!(
        send(&mut recovered, &["LRANGE", "l", "0", "-1"], 0),
        bulk(&["y", "x"])
    );
    // a replaying context records nothing; once finalized it records again
    assert_eq!(recovered.state.transaction_log().replay(&Revision::default()).unwrap().len(), 0);
    send(&mut recovered, &["SET", "c", "3"], 0);
    assert_eq!(recovered.state.transaction_log().replay(&Revision::default()).unwrap().len(), 1);
}

#[test]
fn replay_skips_entries_before_the_baseline() {
    let mut st = fresh();
    send(&mut st, &["SET", "a", "1"], 0);
    send(&mut st, &["SET", "b", "2"], 0);
    send(&mut st, &["SET", "c", "3"], 0);
    let tail = st.state.transaction_log().replay(&Revision(1)).unwrap();
    assert_eq!(tail.len(), 2);
    assert_eq!(tail[0], bulk(&["SET", "b", "2"]));
    assert_eq!(tail[1], bulk(&["SET", "c", "3"]));
}
