//! Connection-management commands: client naming, database selection, and
//! the ping echo.

use vstd::prelude::*;

verus! {

use crate::commands::ConnectionManagement;
use crate::error::Error;
use crate::resp::{Message, MessageView};
use crate::state::{StateContext, Outcome, ok_response};

/// What applying a connection-management command answers: every one
/// succeeds, touches nothing, and logs nothing.
pub open spec fn apply_spec(command: ConnectionManagement, r: Result<Outcome, Error>) -> bool {
    match r {
        Ok(o) => o.log_line is None && o.snapshot is None && o.response@ == (match command {
            ConnectionManagement::SetClientName(_) => MessageView::SimpleString("OK"@),
            ConnectionManagement::SelectDatabase(_) => MessageView::SimpleString("OK"@),
            ConnectionManagement::Ping(text) => MessageView::SimpleString(text@),
        }),
        Err(_) => false,
    }
}

/// Applies a connection-management command; none of them touches the state.
pub fn apply(_state: &StateContext, command: &ConnectionManagement) -> (r: Result<
    Outcome,
    Error,
>)
    ensures
        apply_spec(*command, r),
{
    match command {
        ConnectionManagement::SetClientName(_) => Ok(Outcome::reply(ok_response())),
        ConnectionManagement::SelectDatabase(_) => Ok(Outcome::reply(ok_response())),
        ConnectionManagement::Ping(text) => Ok(
            Outcome::reply(Message::SimpleString(text.clone())),
        ),
    }
}

} // verus!
