//! The durable transaction log: revisions, log entries with their binary and
//! line encodings, and the book of appended lines.

use vstd::prelude::*;

verus! {

use vstd::string::StringExecFns;
use vstd::string::StrSliceExecFns;
use vstd::utf8::encode_utf8;
use crate::resp::{Message, parse_phrase_spec, parse_message_phrase};
use crate::error::Error;
use crate::wire;
use crate::b64;

/// A monotonically increasing count of committed write transactions.
#[derive(Clone, Copy, Debug, PartialEq, Eq, Structural)]
pub struct Revision(pub u64);

impl Revision {
    /// The revision after this one.
    pub fn succeeding(&self) -> (r: Revision)
        requires
            self.0 < u64::MAX,
        ensures
            r.0 == self.0 + 1,
    {
        Revision(self.0 + 1)
    }

    /// Strictly-before comparison.
    pub fn precedes(&self, other: &Revision) -> (r: bool)
        ensures
            r == (self.0 < other.0),
    {
        self.0 < other.0
    }
}

impl Default for Revision {
    fn default() -> (r: Self)
        ensures
            r.0 == 0,
    {
        Revision(0)
    }
}

/// One committed write: when it happened, the revision it advanced into, and
/// the message that caused it, in wire encoding.
pub struct LogEntry {
    pub at: u64,
    pub revision: Revision,
    pub content: String,
}

/// Whether bytes spell a log entry with the given fields.
pub open spec fn entry_shape(bytes: Seq<u8>, at: u64, rev: u64, cs: Seq<char>) -> bool {
    bytes == wire::u64_le(at) + wire::u64_le(rev) + wire::u64_le(encode_utf8(cs).len() as u64)
        + encode_utf8(cs)
}

impl LogEntry {
    /// Builds an entry for a message at a time and revision.
    pub fn new(at: u64, revision: &Revision, message: &Message) -> (r: LogEntry)
        ensures
            r.at == at,
            r.revision == *revision,
            r.content@ == crate::resp::encode_spec(message@),
    {
        LogEntry { at, revision: *revision, content: message.encode() }
    }

    /// The length-prefixed binary form of the entry.
    pub open spec fn bytes_spec(&self) -> Seq<u8> {
        wire::u64_le(self.at) + wire::u64_le(self.revision.0) + wire::u64_le(
            encode_utf8(self.content@).len() as u64,
        ) + encode_utf8(self.content@)
    }

    /// Serializes the entry.
    pub fn to_bytes(&self) -> (r: Vec<u8>)
        ensures
            r@ == self.bytes_spec(),
    {
        let mut out: Vec<u8> = Vec::new();
        wire::put_u64(&mut out, self.at);
        wire::put_u64(&mut out, self.revision.0);
        wire::put_chars(&mut out, self.content.as_str());
        proof {
            assert(out@ =~= self.bytes_spec());
        }
        out
    }

    /// Reads an entry back from its binary form; fails exactly where the
    /// bytes spell no entry.
    pub fn from_bytes(bytes: &Vec<u8>) -> (r: Result<LogEntry, Error>)
        ensures
            match r {
                Ok(e) => bytes@ == e.bytes_spec(),
                Err(_) => !(exists|at: u64, rev: u64, cs: Seq<char>|
                    #[trigger] entry_shape(bytes@, at, rev, cs)),
            },
    {
        proof {
            reveal_strlit("log entry truncated");
        }
        let total = bytes.len();
        if total < 24 {
            proof {
                assert forall|at: u64, rev: u64, cs: Seq<char>| !(#[trigger] entry_shape(
                    bytes@,
                    at,
                    rev,
                    cs,
                )) by {
                    if entry_shape(bytes@, at, rev, cs) {
                        assert(bytes@.len() >= 24);
                    }
                }
            }
            return Err(Error::InvalidData(String::from_str("log entry truncated")));
        }
        let at = wire::get_u64(bytes, 0);
        let revision = wire::get_u64(bytes, 8);
        let len64 = wire::get_u64(bytes, 16);
        if (total as u64) - 24 != len64 {
            proof {
                assert forall|a2: u64, r2: u64, cs: Seq<char>| !(#[trigger] entry_shape(
                    bytes@,
                    a2,
                    r2,
                    cs,
                )) by {
                    if entry_shape(bytes@, a2, r2, cs) {
                        let blen = encode_utf8(cs).len() as u64;
                        assert(bytes@.subrange(16, 24) =~= wire::u64_le(blen));
                        assert(bytes@.subrange(16, 24) == wire::u64_le(len64));
                        wire::lemma_u64_le_injective(blen, len64);
                        assert(bytes@.len() == 24 + encode_utf8(cs).len());
                    }
                }
            }
            return Err(Error::InvalidData(String::from_str("log entry truncated")));
        }
        match wire::get_text(bytes, 24, total) {
            Ok(content) => {
                let e = LogEntry { at, revision: Revision(revision), content };
                proof {
                    assert(bytes@ =~= bytes@.subrange(0, 8) + bytes@.subrange(8, 16)
                        + bytes@.subrange(16, 24) + bytes@.subrange(24, total as int));
                    assert(bytes@.subrange(0, 8) =~= wire::u64_le(at));
                    assert(bytes@.subrange(8, 16) =~= wire::u64_le(revision));
                    assert(bytes@.subrange(16, 24) =~= wire::u64_le(len64));
                    assert(encode_utf8(e.content@) == bytes@.subrange(24, total as int));
                    assert(encode_utf8(e.content@).len() == len64);
                }
                Ok(e)
            },
            Err(e) => {
                proof {
                    broadcast use vstd::utf8::encode_utf8_valid_utf8;

                    assert forall|a2: u64, r2: u64, cs: Seq<char>| !(#[trigger] entry_shape(
                        bytes@,
                        a2,
                        r2,
                        cs,
                    )) by {
                        if entry_shape(bytes@, a2, r2, cs) {
                            assert(bytes@.subrange(24, total as int) =~= encode_utf8(cs));
                        }
                    }
                }
                Err(e)
            },
        }
    }
}

/// The binary form of a recorded entry triple.
pub open spec fn triple_bytes(e: (u64, u64, Seq<char>)) -> Seq<u8> {
    wire::u64_le(e.0) + wire::u64_le(e.1) + wire::u64_le(encode_utf8(e.2).len() as u64)
        + encode_utf8(e.2)
}

/// The append-only book of encoded log lines, with the entries they record.
pub struct TransactionLog {
    lines: Vec<String>,
    entries: Ghost<Seq<(u64, u64, Seq<char>)>>,
}

impl TransactionLog {
    /// The recorded entries: instant, revision, and message text.
    pub closed spec fn entry_seq(&self) -> Seq<(u64, u64, Seq<char>)> {
        self.entries@
    }

    /// The lines written so far.
    pub closed spec fn lines_view(&self) -> Seq<Seq<char>> {
        crate::resp::strings_views(self.lines@)
    }

    /// Every line is the base64 encoding of its entry's binary form.
    pub closed spec fn wf(&self) -> bool {
        &&& self.lines@.len() == self.entries@.len()
        &&& forall|i: int|
            0 <= i < self.lines@.len() ==> b64::b64_decode_of(#[trigger] self.lines@[i]@)
                == Some(triple_bytes(self.entries@[i]))
    }

    /// An empty book.
    pub fn new() -> (r: TransactionLog)
        ensures
            r.wf(),
            r.entry_seq() == Seq::<(u64, u64, Seq<char>)>::empty(),
            r.lines_view() == Seq::<Seq<char>>::empty(),
    {
        let r = TransactionLog { lines: Vec::new(), entries: Ghost(Seq::empty()) };
        proof {
            assert(r.lines_view() =~= Seq::<Seq<char>>::empty());
        }
        r
    }

    /// How many entries are recorded.
    pub fn len(&self) -> (n: usize)
        requires
            self.wf(),
        ensures
            n == self.entry_seq().len(),
    {
        self.lines.len()
    }

    /// The encoded line at a position, as the durable file carries it.
    pub fn line_at(&self, i: usize) -> (r: &String)
        requires
            self.wf(),
            i < self.entry_seq().len(),
        ensures
            r@ == self.lines_view()[i as int],
    {
        &self.lines[i]
    }

    /// Appends one entry as an encoded line and hands the line back for the
    /// durable file. Fails exactly on an entry too large for the line format.
    pub fn append(&mut self, entry: LogEntry) -> (r: Result<String, Error>)
        requires
            old(self).wf(),
        ensures
            match r {
                Ok(line) => {
                    &&& final(self).wf()
                    &&& final(self).entry_seq() == old(self).entry_seq().push(
                        (entry.at, entry.revision.0, entry.content@),
                    )
                    &&& final(self).lines_view() == old(self).lines_view().push(line@)
                    &&& b64::b64_decode_of(line@) == Some(
                        triple_bytes((entry.at, entry.revision.0, entry.content@)),
                    )
                    &&& forall|i: int|
                        0 <= i < line@.len() ==> (#[trigger] line@[i]) != '\r' && line@[i]
                            != '\n'
                },
                Err(_) => {
                    &&& *final(self) == *old(self)
                    &&& entry.bytes_spec().len() >= 0x10000000
                },
            },
    {
        proof {
            reveal_strlit("log entry too large");
        }
        let bytes = entry.to_bytes();
        if bytes.len() >= 0x10000000 {
            return Err(Error::InvalidData(String::from_str("log entry too large")));
        }
        let line = b64::b64_encode(&bytes);
        self.lines.push(line.clone());
        proof {
            self.entries@ = old(self).entries@.push((entry.at, entry.revision.0, entry.content@));
            assert(self.lines_view() =~= old(self).lines_view().push(line@));
            assert(bytes@ == triple_bytes((entry.at, entry.revision.0, entry.content@)));
            assert forall|i: int|
                0 <= i < self.lines@.len() implies b64::b64_decode_of(
                #[trigger] self.lines@[i]@,
            ) == Some(triple_bytes(self.entries@[i])) by {
                if i < old(self).lines@.len() {
                    assert(self.lines@[i] == old(self).lines@[i]);
                }
            }
        }
        Ok(line)
    }
}

impl TransactionLog {
    /// Takes one line back in from the durable file, checking that it is a
    /// well-formed encoded entry: the recorded triple is exactly what the
    /// line decodes to, and a line that decodes to no entry is rejected.
    pub fn ingest_line(&mut self, line: &str) -> (r: Result<(), Error>)
        requires
            old(self).wf(),
        ensures
            final(self).wf(),
            match r {
                Ok(_) => exists|e: (u64, u64, Seq<char>)|
                    {
                        &&& final(self).entry_seq() == old(self).entry_seq().push(e)
                        &&& b64::b64_decode_of(line@) == Some(#[trigger] triple_bytes(e))
                        &&& final(self).lines_view() == old(self).lines_view().push(line@)
                    },
                Err(_) => {
                    &&& *final(self) == *old(self)
                    &&& (match b64::b64_decode_of(line@) {
                        Some(bs) => !(exists|at: u64, rev: u64, cs: Seq<char>|
                            #[trigger] entry_shape(bs, at, rev, cs)),
                        None => true,
                    })
                },
            },
    {
        proof {
            reveal_strlit("unreadable log line");
        }
        let bytes = match b64::b64_decode(line) {
            Ok(v) => v,
            Err(_) => {
                return Err(Error::InvalidData(String::from_str("unreadable log line")));
            },
        };
        let entry = match LogEntry::from_bytes(&bytes) {
            Ok(e) => e,
            Err(e) => {
                return Err(e);
            },
        };
        self.lines.push(String::from_str(line));
        proof {
            self.entries@ = old(self).entries@.push(
                (entry.at, entry.revision.0, entry.content@),
            );
            assert(bytes@ == triple_bytes((entry.at, entry.revision.0, entry.content@)));
            assert forall|i: int|
                0 <= i < self.lines@.len() implies b64::b64_decode_of(
                #[trigger] self.lines@[i]@,
            ) == Some(triple_bytes(self.entries@[i])) by {
                if i < old(self).lines@.len() {
                    assert(self.lines@[i] == old(self).lines@[i]);
                }
            }
            assert(self.lines_view() =~= old(self).lines_view().push(line@));
            assert(entry_shape(
                bytes@,
                entry.at,
                entry.revision.0,
                entry.content@,
            ));
        }
        Ok(())
    }
}

/// The entries left once those before the requested revision are skipped
/// from the front.
pub open spec fn drop_stale(es: Seq<(u64, u64, Seq<char>)>, since: u64) -> Seq<
    (u64, u64, Seq<char>),
>
    decreases es.len(),
{
    if es.len() == 0 {
        es
    } else if es[0].1 < since {
        drop_stale(es.drop_first(), since)
    } else {
        es
    }
}

impl TransactionLog {
    /// Replays the book: skips the leading entries before `since`, then
    /// reads each remaining message back from its recorded text. The first
    /// unreadable message aborts the replay.
    pub fn replay(&self, since: &Revision) -> (r: Result<Vec<Message>, Error>)
        requires
            self.wf(),
        ensures
            ({
                let kept = drop_stale(self.entry_seq(), since.0);
                match r {
                    Ok(ms) => {
                        &&& ms@.len() == kept.len()
                        &&& forall|i: int|
                            0 <= i < ms@.len() ==> parse_phrase_spec((#[trigger] kept[i]).2)
                                == Some(ms@[i]@)
                    },
                    Err(_) => exists|i: int|
                        0 <= i < kept.len() && parse_phrase_spec((#[trigger] kept[i]).2) is None,
                }
            }),
    {
        let n = self.lines.len();
        let ghost es = self.entry_seq();
        let mut out: Vec<Message> = Vec::new();
        let mut skipping = true;
        let mut i: usize = 0;
        proof {
            assert(es.skip(0) =~= es);
        }
        while i < n
            invariant
                0 <= i <= n,
                self.wf(),
                n == self.lines@.len(),
                es == self.entry_seq(),
                skipping ==> (forall|j: int| 0 <= j < i ==> (#[trigger] es[j]).1 < since.0)
                    && out@.len() == 0,
                skipping ==> drop_stale(es, since.0) == drop_stale(es.skip(i as int), since.0),
                !skipping ==> {
                    &&& exists|j0: int|
                        {
                            &&& 0 <= j0 <= i
                            &&& drop_stale(es, since.0) == es.skip(j0)
                            &&& out@.len() == i - j0
                            &&& forall|k: int|
                                0 <= k < out@.len() ==> parse_phrase_spec(
                                    (#[trigger] es.skip(j0)[k]).2,
                                ) == Some(out@[k]@)
                        }
                },
            decreases n - i,
        {
            let entry_bytes = match b64::b64_decode(self.lines[i].as_str()) {
                Ok(v) => v,
                Err(_) => {
                    proof {
                        assert(b64::b64_decode_of(self.lines@[i as int]@) == Some(
                            triple_bytes(es[i as int]),
                        ));
                        assert(false);
                    }
                    return Ok(out);
                },
            };
            proof {
                assert(b64::b64_decode_of(self.lines@[i as int]@) == Some(
                    triple_bytes(es[i as int]),
                ));
                assert(entry_bytes@ == triple_bytes(es[i as int]));
            }
            let entry = match LogEntry::from_bytes(&entry_bytes) {
                Ok(e) => e,
                Err(_) => {
                    proof {
                        assert(entry_shape(
                            entry_bytes@,
                            es[i as int].0,
                            es[i as int].1,
                            es[i as int].2,
                        ));
                        assert(false);
                    }
                    return Ok(out);
                },
            };
            proof {
                // the decoded fields are the recorded ones
                let rec = LogEntry {
                    at: es[i as int].0,
                    revision: Revision(es[i as int].1),
                    content: entry.content,
                };
                assert(entry.bytes_spec() == entry_bytes@);
                lemma_triple_fields(entry, es[i as int]);
            }
            if skipping && entry.revision.precedes(since) {
                proof {
                    assert(es.skip(i as int)[0] == es[i as int]);
                    assert(es.skip(i as int).drop_first() =~= es.skip(i + 1));
                }
                i += 1;
                continue ;
            }
            if skipping {
                skipping = false;
                proof {
                    assert(es.skip(i as int)[0] == es[i as int]);
                    assert(drop_stale(es.skip(i as int), since.0) == es.skip(i as int));
                    assert(drop_stale(es, since.0) == es.skip(i as int));
                }
            }
            let message = match parse_message_phrase(entry.content.as_str()) {
                Ok(m) => m,
                Err(_) => {
                    proof {
                        reveal_strlit("unreadable log entry");
                        let j0 = choose|j0: int|
                            {
                                &&& 0 <= j0 <= i
                                &&& drop_stale(es, since.0) == es.skip(j0)
                                &&& out@.len() == i - j0
                                &&& forall|k: int|
                                    0 <= k < out@.len() ==> parse_phrase_spec(
                                        (#[trigger] es.skip(j0)[k]).2,
                                    ) == Some(out@[k]@)
                            };
                        assert(es.skip(j0)[i - j0] == es[i as int]);
                        assert(parse_phrase_spec(es[i as int].2) is None);
                    }
                    return Err(Error::InvalidData(String::from_str("unreadable log entry")));
                },
            };
            proof {
                let j0 = choose|j0: int|
                    {
                        &&& 0 <= j0 <= i
                        &&& drop_stale(es, since.0) == es.skip(j0)
                        &&& out@.len() == i - j0
                        &&& forall|k: int|
                            0 <= k < out@.len() ==> parse_phrase_spec(
                                (#[trigger] es.skip(j0)[k]).2,
                            ) == Some(out@[k]@)
                    };
                assert(es.skip(j0)[i - j0] == es[i as int]);
            }
            out.push(message);
            i += 1;
        }
        proof {
            if skipping {
                assert(es.skip(n as int).len() == 0);
                assert(drop_stale(es, since.0) == es.skip(n as int));
            }
        }
        Ok(out)
    }
}

/// A decoded entry whose bytes match a recorded triple carries that
/// triple's fields.
proof fn lemma_triple_fields(e: LogEntry, t: (u64, u64, Seq<char>))
    requires
        e.bytes_spec() == triple_bytes(t),
    ensures
        e.at == t.0,
        e.revision.0 == t.1,
        e.content@ == t.2,
{
    let eb = e.bytes_spec();
    let tb = triple_bytes(t);
    assert(eb.subrange(0, 8) =~= wire::u64_le(e.at));
    assert(tb.subrange(0, 8) =~= wire::u64_le(t.0));
    wire::lemma_u64_le_injective(e.at, t.0);
    assert(eb.subrange(8, 16) =~= wire::u64_le(e.revision.0));
    assert(tb.subrange(8, 16) =~= wire::u64_le(t.1));
    wire::lemma_u64_le_injective(e.revision.0, t.1);
    assert(encode_utf8(e.content@) =~= eb.subrange(24, eb.len() as int));
    assert(encode_utf8(t.2) =~= tb.subrange(24, tb.len() as int));
    wire::lemma_encode_utf8_injective(e.content@, t.2);
}

/// The dataset behind its TTL layer, wrapped with the transaction log; only
/// this outermost layer sees write commands at commit time.
pub struct LoggedTransactions {
    pub log: TransactionLog,
    pub state: crate::ttl::Lifetimes,
    pub replaying: bool,
}

impl LoggedTransactions {
    /// The layered state and the log book are both well formed.
    pub open spec fn wf(&self) -> bool {
        self.state.wf() && self.log.wf()
    }

    /// Wraps a state with an empty log, in replaying mode: nothing is
    /// recorded until the replay is finalized.
    pub fn new(state: crate::ttl::Lifetimes) -> (r: LoggedTransactions)
        ensures
            r.state == state,
            r.log.wf(),
            r.log.entry_seq() == Seq::<(u64, u64, Seq<char>)>::empty(),
            r.replaying,
    {
        LoggedTransactions { log: TransactionLog::new(), state, replaying: true }
    }

    /// The log book.
    pub fn transaction_log(&self) -> (r: &TransactionLog)
        ensures
            r == &self.log,
    {
        &self.log
    }

    /// Unlatches the replaying flag: write commands are recorded from now
    /// on.
    pub fn finalize_replay(&mut self)
        ensures
            !final(self).replaying,
            final(self).state == old(self).state,
            final(self).log == old(self).log,
    {
        self.replaying = false;
    }

    /// Records a committed write unless a replay is under way; hands back
    /// the encoded line for the durable file. While replaying it always
    /// succeeds with nothing recorded; otherwise it fails exactly on an
    /// entry too large for the line format.
    pub fn record_evidence(&mut self, revision: &Revision, message: &Message, at: u64) -> (r:
        Result<Option<String>, Error>)
        requires
            old(self).log.wf(),
        ensures
            final(self).state == old(self).state,
            final(self).replaying == old(self).replaying,
            final(self).log.wf(),
            old(self).replaying ==> (r matches Ok(l) && l is None),
            match r {
                Ok(Some(line)) => {
                    &&& !old(self).replaying
                    &&& final(self).log.entry_seq() == old(self).log.entry_seq().push(
                        (at, revision.0, crate::resp::encode_spec(message@)),
                    )
                    &&& final(self).log.lines_view() == old(self).log.lines_view().push(line@)
                },
                Ok(None) => old(self).replaying && *final(self) == *old(self),
                Err(_) => {
                    &&& *final(self) == *old(self)
                    &&& !old(self).replaying
                    &&& 24 + encode_utf8(crate::resp::encode_spec(message@)).len()
                        >= 0x10000000
                },
            },
    {
        if self.replaying {
            return Ok(None);
        }
        let entry = LogEntry::new(at, revision, message);
        match self.log.append(entry) {
            Ok(line) => Ok(Some(line)),
            Err(e) => Err(e),
        }
    }
}

} // verus!
