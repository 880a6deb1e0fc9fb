//! Server-management commands: size and keyspace reporting, and the
//! snapshot trigger.

use vstd::prelude::*;

verus! {

use vstd::string::StringExecFns;
use crate::commands::{ServerManagement, Topic, CommandOption};
use crate::error::Error;
use crate::resp::Message;
use crate::state::{StateContext, Outcome, err_response};
use crate::text::usize_to_string;

/// Applies a server-management command; a save request hands back the
/// snapshot bytes for the store.
/// What applying a server-management command answers: every one succeeds,
/// mutates nothing, logs nothing, and only a save request carries bytes.
pub open spec fn apply_spec(
    pre: StateContext,
    command: ServerManagement,
    now: u64,
    r: Result<Outcome, Error>,
) -> bool {
    let st = pre.state.state;
    match r {
        Ok(o) => {
            &&& o.log_line is None
            &&& (match command {
                ServerManagement::DbSize => o.snapshot is None && ({
                    let n = st.matching_keys(st.key_universe(), seq!['*'], now).len() as int;
                    o.response@ == crate::resp::MessageView::Integer((n as i64) as int)
                }),
                ServerManagement::Command(_) => o.snapshot is None && o.response@ is Error,
                ServerManagement::Info(topic) => o.snapshot is None && (match topic {
                    Topic::Server => o.response@ == crate::resp::MessageView::BulkString(
                        "# Server\r\nredis_version:7.0.9\r\n"@,
                    ),
                    Topic::Keyspace => o.response@ == crate::resp::MessageView::BulkString(
                        "# Keyspace\r\ndb0:keys="@ + crate::text::dec_str_of(
                            st.matching_keys(st.key_universe(), seq!['*'], now).len(),
                        ) + ",expires=0,avg_ttl=0\r\n"@,
                    ),
                    Topic::Named(n) => o.response@ == crate::resp::MessageView::BulkString(
                        "Info about "@ + n@,
                    ),
                }),
                ServerManagement::BgSave => o.response@
                    == crate::resp::MessageView::SimpleString("OK"@) && o.snapshot is Some,
            })
        },
        Err(_) => false,
    }
}

pub fn apply(state: &StateContext, command: &ServerManagement, now: u64) -> (r: Result<
    Outcome,
    Error,
>)
    requires
        state.wf(),
    ensures
        apply_spec(*state, *command, now, r),
{
    proof {
        reveal_strlit("*");
        reveal_strlit("OK");
        reveal_strlit("Unsupported command");
        reveal_strlit("# Keyspace\r\ndb0:keys=");
        reveal_strlit(",expires=0,avg_ttl=0\r\n");
        reveal_strlit("# Server\r\nredis_version:7.0.9\r\n");
        reveal_strlit("Info about ");
    }
    match command {
        ServerManagement::DbSize => {
            let keys = state.state.state.filter_keys("*", now);
            proof {
                assert("*"@ =~= seq!['*']);
            }
            Ok(Outcome::reply(Message::Integer(keys.len() as i64)))
        },
        ServerManagement::Command(opt) => {
            match opt {
                CommandOption::Empty => Ok(
                    Outcome::reply(err_response(String::from_str("Unsupported command"))),
                ),
                CommandOption::Docs => Ok(
                    Outcome::reply(err_response(String::from_str("Unsupported command"))),
                ),
            }
        },
        ServerManagement::Info(topic) => {
            match topic {
                Topic::Keyspace => {
                    let keys = state.state.state.filter_keys("*", now);
                    proof {
                        assert("*"@ =~= seq!['*']);
                    }
                    let mut text = String::from_str("# Keyspace\r\ndb0:keys=");
                    text.append(usize_to_string(keys.len()).as_str());
                    text.append(",expires=0,avg_ttl=0\r\n");
                    Ok(Outcome::reply(Message::BulkString(text)))
                },
                Topic::Server => Ok(
                    Outcome::reply(
                        Message::BulkString(
                            String::from_str("# Server\r\nredis_version:7.0.9\r\n"),
                        ),
                    ),
                ),
                Topic::Named(name) => {
                    let mut text = String::from_str("Info about ");
                    text.append(name.as_str());
                    Ok(Outcome::reply(Message::BulkString(text)))
                },
            }
        },
        ServerManagement::BgSave => {
            let bytes = crate::snapshots::snapshot_bytes(&state.state.state);
            let mut o = Outcome::reply(crate::state::ok_response());
            o.snapshot = Some(bytes);
            Ok(o)
        },
    }
}

} // verus!
