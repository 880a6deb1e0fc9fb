//! The state context and the executor: one aggregate of dataset, expiry,
//! and transaction log, applying typed commands to produce responses.

use vstd::prelude::*;

verus! {

use vstd::string::StringExecFns;
use crate::commands::{Command, ConnectionManagement, ServerManagement};
use crate::error::Error;
use crate::resp::{Message, ErrorPrefix};
use crate::tx_log::LoggedTransactions;

/// The full server state: the log wrapper around the TTL-wrapped dataset.
pub type State = LoggedTransactions;

/// A typed command paired with the original message it was read from, kept
/// verbatim so the log can record it unaltered.
pub struct CommandContext<A> {
    pub command: A,
    pub message: Message,
}

impl<A> CommandContext<A> {
    /// Pairs a command with its source message.
    pub fn new(command: A, message: Message) -> (r: CommandContext<A>)
        ensures
            r.command == command,
            r.message == message,
    {
        CommandContext { command, message }
    }

    /// The original message, to be logged unaltered.
    pub fn transaction_message(&self) -> (r: &Message)
        ensures
            r == &self.message,
    {
        &self.message
    }
}

/// Owns the whole state and serializes command application against it.
pub struct StateContext {
    pub state: State,
}

impl StateContext {
    /// The state underneath is well formed.
    pub open spec fn wf(&self) -> bool {
        self.state.wf()
    }

    /// Wraps a state.
    pub fn new(state: State) -> (r: StateContext)
        ensures
            r.state == state,
    {
        StateContext { state }
    }

    /// A shared view of the state, for read-only commands.
    pub fn begin_reading(&self) -> (r: &State)
        ensures
            r == &self.state,
    {
        &self.state
    }

    /// Commits a write that already mutated the state: captures the current
    /// revision, records the originating message against it, advances the
    /// revision, and expunges what has expired. The log entry carries the
    /// revision the command advanced into. It fails only with the revision
    /// space exhausted or a message too large for one log line.
    pub fn apply_transaction(&mut self, message: &Message, now: u64) -> (r: Result<
        Option<String>,
        Error,
    >)
        requires
            old(self).wf(),
        ensures
            final(self).wf(),
            match r {
                Ok(line) => {
                    &&& final(self).state.state.data.rev() == old(self).state.state.data.rev()
                        + 1
                    &&& (forall|k: Seq<char>|
                        #[trigger] final(self).state.state.ttl_of(k) == (match old(
                            self,
                        ).state.state.ttl_of(k) {
                            Some(at) => if at < now {
                                None
                            } else {
                                Some(at)
                            },
                            None => None,
                        }))
                    &&& (forall|k: Seq<char>|
                        #[trigger] final(self).state.state.data.lists.spec_get(k) == (if old(
                            self,
                        ).state.state.live(k, now) {
                            old(self).state.state.data.lists.spec_get(k)
                        } else {
                            None
                        }))
                    &&& (forall|k: Seq<char>|
                        #[trigger] final(self).state.state.data.strings.spec_get(k) == (if old(
                            self,
                        ).state.state.live(k, now) {
                            old(self).state.state.data.strings.spec_get(k)
                        } else {
                            None
                        }))
                    &&& (forall|k: Seq<char>|
                        #[trigger] final(self).state.state.data.sorted_sets.spec_get(k) == (
                        if old(self).state.state.live(k, now) {
                            old(self).state.state.data.sorted_sets.spec_get(k)
                        } else {
                            None
                        }))
                    &&& final(self).state.replaying == old(self).state.replaying
                    &&& (line is Some <==> !old(self).state.replaying)
                    &&& (line matches Some(l) ==> final(self).state.log.entry_seq() == old(
                        self,
                    ).state.log.entry_seq().push(
                        (
                            now,
                            old(self).state.state.data.rev() as u64,
                            crate::resp::encode_spec(message@),
                        ),
                    ))
                    &&& (line is None ==> final(self).state.log == old(self).state.log)
                },
                Err(_) => {
                    &&& *final(self) == *old(self)
                    &&& (old(self).state.state.data.rev() == u64::MAX || (!old(
                        self,
                    ).state.replaying && 24 + vstd::utf8::encode_utf8(
                        crate::resp::encode_spec(message@),
                    ).len() >= 0x10000000))
                },
            },
    {
        proof {
            reveal_strlit("revision space exhausted");
        }
        let revision = self.state.state.data.revision();
        if revision.0 == u64::MAX {
            return Err(Error::InvalidData(String::from_str("revision space exhausted")));
        }
        let line = match self.state.record_evidence(&revision, message, now) {
            Ok(l) => l,
            Err(e) => {
                return Err(e);
            },
        };
        let ghost mid = self.state.state;
        self.state.state.data.bump_revision();
        proof {
            crate::ttl::lemma_ttl_wf_frame(mid, self.state.state);
        }
        let ghost s2 = self.state.state;
        self.state.state.expunge_expired(now);
        proof {
            assert(self.state.log.wf());
            let s0 = old(self).state.state;
            assert(mid == s0);
            assert(s2.ttls == s0.ttls);
            assert(s2.data.lists == s0.data.lists);
            assert(s2.data.strings == s0.data.strings);
            assert(s2.data.sorted_sets == s0.data.sorted_sets);
            assert forall|k: Seq<char>| #[trigger] self.state.state.ttl_of(k) == (match s0.ttl_of(
                k,
            ) {
                Some(at) => if at < now {
                    None
                } else {
                    Some(at)
                },
                None => None,
            }) by {
                crate::ttl::lemma_ttl_of_frame(s0, s2, k);
            }
            assert forall|k: Seq<char>| #[trigger] self.state.state.data.lists.spec_get(k) == (
            if s0.live(k, now) {
                s0.data.lists.spec_get(k)
            } else {
                None
            }) by {
                crate::ttl::lemma_ttl_of_frame(s0, s2, k);
                assert(s2.data.lists.spec_get(k) == s0.data.lists.spec_get(k));
            }
            assert forall|k: Seq<char>| #[trigger] self.state.state.data.strings.spec_get(k) == (
            if s0.live(k, now) {
                s0.data.strings.spec_get(k)
            } else {
                None
            }) by {
                crate::ttl::lemma_ttl_of_frame(s0, s2, k);
                assert(s2.data.strings.spec_get(k) == s0.data.strings.spec_get(k));
            }
            assert forall|k: Seq<char>|
                #[trigger] self.state.state.data.sorted_sets.spec_get(k) == (if s0.live(
                    k,
                    now,
                ) {
                    s0.data.sorted_sets.spec_get(k)
                } else {
                    None
                }) by {
                crate::ttl::lemma_ttl_of_frame(s0, s2, k);
                assert(s2.data.sorted_sets.spec_get(k) == s0.data.sorted_sets.spec_get(k));
            }
        }
        Ok(line)
    }

    /// Applies one classified command, producing the response and, for a
    /// committed write outside replay, the log line to persist; a snapshot
    /// request also hands back the bytes to write.
    pub fn apply(&mut self, ctx: &CommandContext<Command>, now: u64) -> (r: Result<
        Outcome,
        Error,
    >)
        requires
            old(self).wf(),
        ensures
            final(self).wf(),
            match ctx.command {
                Command::Lists(sub) => crate::lists::apply_spec(
                    *old(self),
                    *final(self),
                    sub,
                    ctx.message@,
                    now,
                    r,
                ),
                Command::Strings(sub) => crate::keyvalues::apply_spec(
                    *old(self),
                    *final(self),
                    sub,
                    ctx.message@,
                    now,
                    r,
                ),
                Command::SortedSets(sub) => crate::sorted_sets::apply_spec(
                    *old(self),
                    *final(self),
                    sub,
                    ctx.message@,
                    now,
                    r,
                ),
                Command::Generic(sub) => crate::generic::apply_spec(
                    *old(self),
                    *final(self),
                    sub,
                    ctx.message@,
                    now,
                    r,
                ),
                Command::ConnectionManagement(sub) => *final(self) == *old(self)
                    && crate::connections::apply_spec(sub, r),
                Command::ServerManagement(sub) => *final(self) == *old(self)
                    && crate::server::apply_spec(*old(self), sub, now, r),
                Command::Unknown(name) => r matches Ok(o) && *final(self) == *old(self)
                    && o.log_line is None && o.snapshot is None && o.response@ == (
                crate::resp::MessageView::Error {
                    prefix: crate::resp::PrefixView::Canonical,
                    message: "Unsupported command string `"@ + name@ + "`."@,
                }),
            },
    {
        match &ctx.command {
            Command::Lists(sub) => crate::lists::apply(self, sub, &ctx.message, now),
            Command::Strings(sub) => crate::keyvalues::apply(self, sub, &ctx.message, now),
            Command::SortedSets(sub) => crate::sorted_sets::apply(self, sub, &ctx.message, now),
            Command::Generic(sub) => crate::generic::apply(self, sub, &ctx.message, now),
            Command::ConnectionManagement(sub) => crate::connections::apply(self, sub),
            Command::ServerManagement(sub) => crate::server::apply(self, sub, now),
            Command::Unknown(name) => {
                proof {
                    reveal_strlit("Unsupported command string `");
                    reveal_strlit("`.");
                }
                let mut text = String::from_str("Unsupported command string `");
                text.append(name.as_str());
                text.append("`.");
                Ok(Outcome::reply(Message::Error {
                    prefix: ErrorPrefix::Canonical,
                    message: text,
                }))
            },
        }
    }
}

/// What applying a command produced: the response, the log line of a
/// committed write, and the snapshot bytes of a save request.
pub struct Outcome {
    pub response: Message,
    pub log_line: Option<String>,
    pub snapshot: Option<Vec<u8>>,
}

impl Outcome {
    /// An outcome that only answers.
    pub fn reply(response: Message) -> (r: Outcome)
        ensures
            r.response == response,
            r.log_line is None,
            r.snapshot is None,
    {
        Outcome { response, log_line: None, snapshot: None }
    }

    /// An outcome that answers and persists a log line.
    pub fn committed(response: Message, log_line: Option<String>) -> (r: Outcome)
        ensures
            r.response == response,
            r.log_line == log_line,
            r.snapshot is None,
    {
        Outcome { response, log_line, snapshot: None }
    }
}

/// The commit bookkeeping a successful write performs: one revision step,
/// and — outside replay — one log entry carrying the originating message
/// verbatim at the revision it advanced from.
pub open spec fn commit_shape(
    pre: StateContext,
    post: StateContext,
    msg: crate::resp::MessageView,
    now: u64,
    log_line: Option<String>,
) -> bool {
    &&& post.state.state.data.rev() == pre.state.state.data.rev() + 1
    &&& post.state.replaying == pre.state.replaying
    &&& (log_line is Some <==> !pre.state.replaying)
    &&& (log_line is Some ==> post.state.log.entry_seq() == pre.state.log.entry_seq().push(
        (now, pre.state.state.data.rev() as u64, crate::resp::encode_spec(msg)),
    ))
    &&& (log_line is None ==> post.state.log == pre.state.log)
}

/// The only grounds on which a commit may fail: the revision space is
/// exhausted, or the message is too large for one log line.
pub open spec fn commit_failure(pre: StateContext, msg: crate::resp::MessageView) -> bool {
    pre.state.state.data.rev() == u64::MAX || (!pre.state.replaying && 24
        + vstd::utf8::encode_utf8(crate::resp::encode_spec(msg)).len() >= 0x10000000)
}

/// Every expiration of `pre` survives into `post` exactly when it has not
/// yet passed.
pub open spec fn ttls_filtered(pre: StateContext, post: StateContext, now: u64) -> bool {
    forall|k: Seq<char>|
        #[trigger] post.state.state.ttl_of(k) == (match pre.state.state.ttl_of(k) {
            Some(at) => if at < now {
                None
            } else {
                Some(at)
            },
            None => None,
        })
}

/// The list bindings of `pre` survive into `post` exactly for live keys.
pub open spec fn lists_filtered_except(
    pre: StateContext,
    post: StateContext,
    now: u64,
    except: Seq<char>,
) -> bool {
    forall|k: Seq<char>|
        k != except ==> #[trigger] post.state.state.data.lists.spec_get(k) == (
        if pre.state.state.live(k, now) {
            pre.state.state.data.lists.spec_get(k)
        } else {
            None
        })
}

/// The string bindings of `pre` survive into `post` exactly for live keys.
pub open spec fn strings_filtered_except(
    pre: StateContext,
    post: StateContext,
    now: u64,
    except: Seq<char>,
) -> bool {
    forall|k: Seq<char>|
        k != except ==> #[trigger] post.state.state.data.strings.spec_get(k) == (
        if pre.state.state.live(k, now) {
            pre.state.state.data.strings.spec_get(k)
        } else {
            None
        })
}

/// The sorted-set bindings of `pre` survive into `post` exactly for live
/// keys.
pub open spec fn zsets_filtered_except(
    pre: StateContext,
    post: StateContext,
    now: u64,
    except: Seq<char>,
) -> bool {
    forall|k: Seq<char>|
        k != except ==> #[trigger] post.state.state.data.sorted_sets.spec_get(k) == (
        if pre.state.state.live(k, now) {
            pre.state.state.data.sorted_sets.spec_get(k)
        } else {
            None
        })
}

/// The list bindings of `pre` survive into `post` exactly for live keys.
pub open spec fn lists_filtered(pre: StateContext, post: StateContext, now: u64) -> bool {
    forall|k: Seq<char>|
        #[trigger] post.state.state.data.lists.spec_get(k) == (if pre.state.state.live(
            k,
            now,
        ) {
            pre.state.state.data.lists.spec_get(k)
        } else {
            None
        })
}

/// The string bindings of `pre` survive into `post` exactly for live keys.
pub open spec fn strings_filtered(pre: StateContext, post: StateContext, now: u64) -> bool {
    forall|k: Seq<char>|
        #[trigger] post.state.state.data.strings.spec_get(k) == (if pre.state.state.live(
            k,
            now,
        ) {
            pre.state.state.data.strings.spec_get(k)
        } else {
            None
        })
}

/// The sorted-set bindings of `pre` survive into `post` exactly for live
/// keys.
pub open spec fn zsets_filtered(pre: StateContext, post: StateContext, now: u64) -> bool {
    forall|k: Seq<char>|
        #[trigger] post.state.state.data.sorted_sets.spec_get(k) == (if pre.state.state.live(
            k,
            now,
        ) {
            pre.state.state.data.sorted_sets.spec_get(k)
        } else {
            None
        })
}

/// The canonical `+OK` response.
pub fn ok_response() -> (r: Message)
    ensures
        r@ == crate::resp::MessageView::SimpleString("OK"@),
{
    proof {
        reveal_strlit("OK");
    }
    Message::SimpleString(String::from_str("OK"))
}

/// An `ERR`-prefixed error response.
pub fn err_response(text: String) -> (r: Message)
    ensures
        r@ == (crate::resp::MessageView::Error {
            prefix: crate::resp::PrefixView::Canonical,
            message: text@,
        }),
{
    Message::Error { prefix: ErrorPrefix::Canonical, message: text }
}

} // verus!
