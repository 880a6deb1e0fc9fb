//! The command classifier: a bulk array of words becomes a typed command.
//! Verbs and keyword tokens match without regard to ASCII case.

use vstd::prelude::*;

verus! {

use vstd::string::StringExecFns;
use crate::error::Error;
use crate::resp::{Message, strs_views, strings_views, bulk_texts};
use crate::lists::ListApi;
use crate::keyvalues::StringsApi;
use crate::sorted_sets::{SortedSetApi, AddOptions};
use crate::score::Score;
use crate::generic::GenericApi;
use crate::text::{eq_ignore_case, opt_int_of, opt_nat_of, parse_i32, parse_i64, parse_u64, parse_usize, ci_eq};
use crate::score::{parse_score, score_of_text};

/// Connection-management commands.
#[derive(Debug)]
pub enum ConnectionManagement {
    SetClientName(String),
    SelectDatabase(i32),
    Ping(String),
}

/// What the `COMMAND` verb was asked for.
#[derive(Debug)]
pub enum CommandOption {
    Empty,
    Docs,
}

/// The subject of an `INFO` request.
#[derive(Debug)]
pub enum Topic {
    Keyspace,
    Server,
    Named(String),
}

/// Server-management commands.
#[derive(Debug)]
pub enum ServerManagement {
    DbSize,
    Command(CommandOption),
    Info(Topic),
    BgSave,
}

/// The full command algebra.
#[derive(Debug)]
pub enum Command {
    ConnectionManagement(ConnectionManagement),
    ServerManagement(ServerManagement),
    Generic(GenericApi),
    Lists(ListApi),
    Strings(StringsApi),
    SortedSets(SortedSetApi),
    Unknown(String),
}

impl Command {
    /// Whether the command mutates the dataset; the distinction is a static
    /// property of the variant.
    pub open spec fn is_write_spec(&self) -> bool {
        match self {
            Command::Lists(a) => match a {
                ListApi::Append(_, _, _) => true,
                ListApi::Prepend(_, _, _) => true,
                ListApi::SetAt(_, _, _) => true,
                _ => false,
            },
            Command::Strings(a) => a is Store,
            Command::SortedSets(a) => a is Add,
            Command::Generic(a) => a is Expire,
            _ => false,
        }
    }

    /// Whether the command mutates the dataset.
    pub fn is_write(&self) -> (r: bool)
        ensures
            r == self.is_write_spec(),
    {
        match self {
            Command::Lists(a) => match a {
                ListApi::Append(_, _, _) => true,
                ListApi::Prepend(_, _, _) => true,
                ListApi::SetAt(_, _, _) => true,
                _ => false,
            },
            Command::Strings(a) => matches!(a, StringsApi::Store(_, _)),
            Command::SortedSets(a) => matches!(a, SortedSetApi::Add { .. }),
            Command::Generic(a) => matches!(a, GenericApi::Expire(_, _)),
            _ => false,
        }
    }

    /// Classifies a message. A message that is no bulk array is rejected;
    /// an unrecognized verb becomes `Unknown` with the words joined; a
    /// recognized verb with malformed arguments is an input error.
    pub fn try_from(message: &Message) -> (r: Result<Command, Error>)
        ensures
            match r {
                Ok(c) => bulk_texts(message@) matches Some(ws) && command_form(c, ws),
                Err(e) => e is InvalidInput,
            },
            bulk_texts(message@) is None ==> r is Err,
            (match bulk_texts(message@) {
                Some(ws) => {
                    &&& (lists_claimed(ws) ==> (if lists_args_ok(ws) {
                        r matches Ok(c) && c is Lists
                    } else {
                        r is Err
                    }))
                    &&& (!lists_claimed(ws) && strings_claimed(ws) ==> (r matches Ok(c)
                        && c is Strings))
                    &&& (!lists_claimed(ws) && !strings_claimed(ws) && connection_claimed(ws)
                        ==> (if connection_args_ok(ws) {
                        r matches Ok(c) && c is ConnectionManagement
                    } else {
                        r is Err
                    }))
                    &&& (!lists_claimed(ws) && !strings_claimed(ws) && !connection_claimed(ws)
                        && server_claimed(ws) ==> (r matches Ok(c) && c is ServerManagement))
                    &&& (!lists_claimed(ws) && !strings_claimed(ws) && !connection_claimed(ws)
                        && !server_claimed(ws) && generic_claimed(ws) ==> (
                    if generic_args_ok(ws) {
                        r matches Ok(c) && c is Generic
                    } else {
                        r is Err
                    }))
                    &&& (!lists_claimed(ws) && !strings_claimed(ws) && !connection_claimed(ws)
                        && !server_claimed(ws) && !generic_claimed(ws) && sorted_sets_claimed(
                        ws,
                    ) ==> (if sorted_sets_args_ok(ws) {
                        r matches Ok(c) && c is SortedSets
                    } else {
                        r is Err
                    }))
                    &&& (!lists_claimed(ws) && !strings_claimed(ws) && !connection_claimed(ws)
                        && !server_claimed(ws) && !generic_claimed(ws) && !sorted_sets_claimed(
                        ws,
                    ) ==> (r matches Ok(c) && (c matches Command::Unknown(t) && t@
                        == joined_spec(ws))))
                },
                None => true,
            }),
    {
        proof {
            reveal_strlit("Unknown or incomplete command.");
            reveal_strlit(" ");
        }
        let words = match message.try_as_bulk_array() {
            Some(ws) => ws,
            None => {
                return Err(
                    Error::InvalidInput(String::from_str("Unknown or incomplete command.")),
                );
            },
        };
        match classify_lists(&words) {
            Ok(Some(v)) => {
                return Ok(Command::Lists(v));
            },
            Err(e) => {
                return Err(e);
            },
            Ok(None) => {},
        }
        match classify_strings(&words) {
            Ok(Some(v)) => {
                return Ok(Command::Strings(v));
            },
            Err(e) => {
                return Err(e);
            },
            Ok(None) => {},
        }
        match classify_connection(&words) {
            Ok(Some(v)) => {
                return Ok(Command::ConnectionManagement(v));
            },
            Err(e) => {
                return Err(e);
            },
            Ok(None) => {},
        }
        match classify_server(&words) {
            Ok(Some(v)) => {
                return Ok(Command::ServerManagement(v));
            },
            Err(e) => {
                return Err(e);
            },
            Ok(None) => {},
        }
        match classify_generic(&words) {
            Ok(Some(v)) => {
                return Ok(Command::Generic(v));
            },
            Err(e) => {
                return Err(e);
            },
            Ok(None) => {},
        }
        match classify_sorted_sets(&words) {
            Ok(Some(v)) => {
                return Ok(Command::SortedSets(v));
            },
            Err(e) => {
                return Err(e);
            },
            Ok(None) => {},
        }
        Ok(Command::Unknown(join_words(&words)))
    }
}


/// Whether a list command corresponds to the words it was read from.
pub open spec fn lists_form(v: ListApi, ws: Seq<Seq<char>>) -> bool {
    match v {
        ListApi::Range(k, a, b) => {
            &&& ws.len() == 4
            &&& ci_eq(ws[0], "LRANGE"@)
            &&& k@ == ws[1]
            &&& opt_int_of(ws[2]) == Some(a as int)
            &&& opt_int_of(ws[3]) == Some(b as int)
        },
        ListApi::Append(k, es, x) => {
            &&& ws.len() >= 2
            &&& (if x {
                ci_eq(ws[0], "RPUSHX"@)
            } else {
                ci_eq(ws[0], "RPUSH"@)
            })
            &&& k@ == ws[1]
            &&& strings_views(es@) == ws.skip(2)
        },
        ListApi::Prepend(k, es, x) => {
            &&& ws.len() >= 2
            &&& (if x {
                ci_eq(ws[0], "LPUSHX"@)
            } else {
                ci_eq(ws[0], "LPUSH"@)
            })
            &&& k@ == ws[1]
            &&& strings_views(es@) == ws.skip(2)
        },
        ListApi::Length(k) => ws.len() == 2 && ci_eq(ws[0], "LLEN"@) && k@ == ws[1],
        ListApi::SetAt(k, i, e) => {
            &&& ws.len() == 4
            &&& ci_eq(ws[0], "LSET"@)
            &&& k@ == ws[1]
            &&& opt_nat_of(ws[2]) == Some(i as int)
            &&& e@ == ws[3]
        },
    }
}

/// Whether a string command corresponds to the words it was read from.
pub open spec fn strings_form(v: StringsApi, ws: Seq<Seq<char>>) -> bool {
    match v {
        StringsApi::Store(k, val) => {
            &&& ws.len() == 3
            &&& ci_eq(ws[0], "SET"@)
            &&& k@ == ws[1]
            &&& val@ == ws[2]
        },
        StringsApi::Get(k) => ws.len() == 2 && ci_eq(ws[0], "GET"@) && k@ == ws[1],
        StringsApi::Mget(ks) => {
            &&& ws.len() >= 1
            &&& ci_eq(ws[0], "MGET"@)
            &&& strings_views(ks@) == ws.skip(1)
        },
    }
}

/// Whether a connection command corresponds to the words it was read from.
pub open spec fn connection_form(v: ConnectionManagement, ws: Seq<Seq<char>>) -> bool {
    match v {
        ConnectionManagement::SetClientName(n) => {
            &&& ws.len() == 3
            &&& ci_eq(ws[0], "CLIENT"@)
            &&& ci_eq(ws[1], "SETNAME"@)
            &&& n@ == ws[2]
        },
        ConnectionManagement::SelectDatabase(i) => {
            &&& ws.len() == 2
            &&& ci_eq(ws[0], "SELECT"@)
            &&& opt_int_of(ws[1]) == Some(i as int)
        },
        ConnectionManagement::Ping(t) => {
            &&& ws.len() >= 1
            &&& ci_eq(ws[0], "PING"@)
            &&& (if ws.len() == 1 {
                t@ == "PONG"@
            } else {
                t@ == joined_spec(ws.skip(1))
            })
        },
    }
}

/// Whether a server command corresponds to the words it was read from.
pub open spec fn server_form(v: ServerManagement, ws: Seq<Seq<char>>) -> bool {
    match v {
        ServerManagement::DbSize => ws.len() == 1 && ci_eq(ws[0], "DBSIZE"@),
        ServerManagement::Command(opt) => {
            &&& ws.len() >= 1
            &&& ci_eq(ws[0], "COMMAND"@)
            &&& (match opt {
                CommandOption::Empty => ws.len() == 1,
                CommandOption::Docs => ws.len() == 2 && ci_eq(ws[1], "DOCS"@),
            })
        },
        ServerManagement::Info(topic) => {
            &&& ws.len() >= 1
            &&& ci_eq(ws[0], "INFO"@)
            &&& (match topic {
                Topic::Keyspace => ws.len() == 2 && ci_eq(ws[1], "keyspace"@),
                Topic::Server => ws.len() == 2 && ci_eq(ws[1], "server"@),
                Topic::Named(n) => (ws.len() == 2 && n@ == ws[1]) || (ws.len() == 1 && n@
                    == Seq::<char>::empty()),
            })
        },
        ServerManagement::BgSave => ws.len() == 1 && ci_eq(ws[0], "BGSAVE"@),
    }
}

/// Whether a generic command corresponds to the words it was read from.
pub open spec fn generic_form(v: GenericApi, ws: Seq<Seq<char>>) -> bool {
    match v {
        GenericApi::Keys(p) => ws.len() == 2 && ci_eq(ws[0], "KEYS"@) && p@ == ws[1],
        GenericApi::Scan { cursor, pattern, count, tpe } => {
            &&& ws.len() >= 2
            &&& ci_eq(ws[0], "SCAN"@)
            &&& opt_nat_of(ws[1]) == Some(cursor as int)
            &&& tpe is None
            &&& (match (pattern, count) {
                (None, None) => ws.len() == 2,
                (None, Some(c)) => ws.len() == 4 && ci_eq(ws[2], "COUNT"@) && opt_nat_of(
                    ws[3],
                ) == Some(c as int),
                (Some(p), Some(c)) => {
                    &&& ws.len() == 6
                    &&& ci_eq(ws[2], "MATCH"@)
                    &&& p@ == ws[3]
                    &&& ci_eq(ws[4], "COUNT"@)
                    &&& opt_nat_of(ws[5]) == Some(c as int)
                },
                (Some(_), None) => false,
            })
        },
        GenericApi::Ttl(k) => ws.len() == 2 && ci_eq(ws[0], "TTL"@) && k@ == ws[1],
        GenericApi::Expire(k, s) => {
            &&& ws.len() == 3
            &&& ci_eq(ws[0], "EXPIRE"@)
            &&& k@ == ws[1]
            &&& opt_nat_of(ws[2]) == Some(s as int)
        },
        GenericApi::Exists(k) => ws.len() == 2 && ci_eq(ws[0], "EXISTS"@) && k@ == ws[1],
        GenericApi::Type(k) => ws.len() == 2 && ci_eq(ws[0], "TYPE"@) && k@ == ws[1],
    }
}

/// Whether a sorted-set command corresponds to the words it was read from.
pub open spec fn sorted_sets_form(v: SortedSetApi, ws: Seq<Seq<char>>) -> bool {
    match v {
        SortedSetApi::Add { key, entries, options } => {
            &&& ws.len() >= 2
            &&& ci_eq(ws[0], "ZADD"@)
            &&& key@ == ws[1]
            &&& ({
                let args = ws.skip(2);
                let rest = args.skip(crate::sorted_sets::opts_end(args));
                &&& crate::sorted_sets::policy_matches(options.merge, args)
                &&& (options.and_return is Changed) == crate::sorted_sets::wants_changed(args)
                &&& rest.len() % 2 == 0
                &&& entries@.len() * 2 == rest.len()
                &&& forall|j: int|
                    0 <= j < entries@.len() ==> {
                        &&& score_of_text(rest[2 * j]) == Some(
                            (#[trigger] entries@[j]).0.units as int,
                        )
                        &&& entries@[j].1@ == rest[2 * j + 1]
                    }
            })
        },
        SortedSetApi::RangeByRank(k, a, b) => {
            &&& ws.len() == 4
            &&& ci_eq(ws[0], "ZRANGE"@)
            &&& k@ == ws[1]
            &&& opt_int_of(ws[2]) == Some(a as int)
            &&& opt_int_of(ws[3]) == Some(b as int)
        },
        SortedSetApi::RangeByScore(k, lo, hi) => {
            &&& ws.len() == 5
            &&& ci_eq(ws[0], "ZRANGE"@)
            &&& ci_eq(ws[4], "BYSCORE"@)
            &&& k@ == ws[1]
            &&& score_of_text(ws[2]) == Some(lo.units as int)
            &&& score_of_text(ws[3]) == Some(hi.units as int)
        },
        SortedSetApi::Rank(k, m) => ws.len() == 3 && ci_eq(ws[0], "ZRANK"@) && k@ == ws[1] && m@
            == ws[2],
        SortedSetApi::Score(k, m) => ws.len() == 3 && ci_eq(ws[0], "ZSCORE"@) && k@ == ws[1]
            && m@ == ws[2],
    }
}

/// Whether a classified command corresponds to the words it was read from.
pub open spec fn command_form(c: Command, ws: Seq<Seq<char>>) -> bool {
    match c {
        Command::Lists(v) => lists_form(v, ws),
        Command::Strings(v) => strings_form(v, ws),
        Command::ConnectionManagement(v) => connection_form(v, ws),
        Command::ServerManagement(v) => server_form(v, ws),
        Command::Generic(v) => generic_form(v, ws),
        Command::SortedSets(v) => sorted_sets_form(v, ws),
        Command::Unknown(t) => t@ == joined_spec(ws),
    }
}


/// A numeral in `i32` range.
pub open spec fn num_i32(w: Seq<char>) -> bool {
    match opt_int_of(w) {
        Some(n) => i32::MIN <= n <= i32::MAX,
        None => false,
    }
}

/// A numeral in `i64` range.
pub open spec fn num_i64(w: Seq<char>) -> bool {
    match opt_int_of(w) {
        Some(n) => i64::MIN <= n <= i64::MAX,
        None => false,
    }
}

/// An unsigned numeral in `u64` range.
pub open spec fn num_u64(w: Seq<char>) -> bool {
    match opt_nat_of(w) {
        Some(n) => n <= u64::MAX,
        None => false,
    }
}

/// An unsigned numeral in `usize` range.
pub open spec fn num_usize(w: Seq<char>) -> bool {
    match opt_nat_of(w) {
        Some(n) => n <= usize::MAX,
        None => false,
    }
}

/// The word shapes the list reader takes for itself, in the order the
/// verbs are tried.
pub open spec fn lists_claimed(ws: Seq<Seq<char>>) -> bool {
    ws.len() >= 1 && (if ci_eq(ws[0], "LRANGE"@) {
        ws.len() == 4
    } else if ci_eq(ws[0], "RPUSH"@) || ci_eq(ws[0], "RPUSHX"@) || ci_eq(ws[0], "LPUSH"@)
        || ci_eq(ws[0], "LPUSHX"@) {
        ws.len() >= 2
    } else if ci_eq(ws[0], "LLEN"@) {
        ws.len() == 2
    } else if ci_eq(ws[0], "LSET"@) {
        ws.len() == 4
    } else {
        false
    })
}

/// Whether the numeric arguments of a claimed list shape are well formed.
pub open spec fn lists_args_ok(ws: Seq<Seq<char>>) -> bool {
    ws.len() >= 1 && (if ci_eq(ws[0], "LRANGE"@) {
        ws.len() == 4 ==> num_i32(ws[2]) && num_i32(ws[3])
    } else if ci_eq(ws[0], "LSET"@) {
        ws.len() == 4 ==> num_usize(ws[2])
    } else {
        true
    })
}

/// The word shapes the string reader takes for itself, in the order the
/// verbs are tried.
pub open spec fn strings_claimed(ws: Seq<Seq<char>>) -> bool {
    ws.len() >= 1 && (if ci_eq(ws[0], "SET"@) {
        ws.len() == 3
    } else if ci_eq(ws[0], "GET"@) {
        ws.len() == 2
    } else if ci_eq(ws[0], "MGET"@) {
        true
    } else {
        false
    })
}

/// The word shapes the connection reader takes for itself, in the order
/// the verbs are tried.
pub open spec fn connection_claimed(ws: Seq<Seq<char>>) -> bool {
    ws.len() >= 1 && (if ci_eq(ws[0], "CLIENT"@) {
        ws.len() == 3 && ci_eq(ws[1], "SETNAME"@)
    } else if ci_eq(ws[0], "PING"@) {
        true
    } else if ci_eq(ws[0], "SELECT"@) {
        ws.len() == 2
    } else {
        false
    })
}

/// Whether the numeric arguments of a claimed connection shape are well
/// formed.
pub open spec fn connection_args_ok(ws: Seq<Seq<char>>) -> bool {
    ws.len() >= 1 && (if ci_eq(ws[0], "CLIENT"@) || ci_eq(ws[0], "PING"@) {
        true
    } else if ci_eq(ws[0], "SELECT"@) {
        ws.len() == 2 ==> num_i32(ws[1])
    } else {
        true
    })
}

/// The word shapes the server reader takes for itself, in the order the
/// verbs are tried.
pub open spec fn server_claimed(ws: Seq<Seq<char>>) -> bool {
    ws.len() >= 1 && (if ci_eq(ws[0], "COMMAND"@) {
        ws.len() == 1 || (ws.len() == 2 && ci_eq(ws[1], "DOCS"@))
    } else if ci_eq(ws[0], "DBSIZE"@) {
        ws.len() == 1
    } else if ci_eq(ws[0], "INFO"@) {
        ws.len() <= 2
    } else if ci_eq(ws[0], "BGSAVE"@) {
        ws.len() == 1
    } else {
        false
    })
}

/// The word shapes the generic reader takes for itself, in the order the
/// verbs are tried.
pub open spec fn generic_claimed(ws: Seq<Seq<char>>) -> bool {
    ws.len() >= 1 && (if ci_eq(ws[0], "KEYS"@) {
        ws.len() == 2
    } else if ci_eq(ws[0], "SCAN"@) {
        ws.len() == 2 || (ws.len() == 4 && ci_eq(ws[2], "COUNT"@)) || (ws.len() == 6 && ci_eq(
            ws[2],
            "MATCH"@,
        ) && ci_eq(ws[4], "COUNT"@))
    } else if ci_eq(ws[0], "TTL"@) {
        ws.len() == 2
    } else if ci_eq(ws[0], "EXPIRE"@) {
        ws.len() == 3
    } else if ci_eq(ws[0], "EXISTS"@) {
        ws.len() == 2
    } else if ci_eq(ws[0], "TYPE"@) {
        ws.len() == 2
    } else {
        false
    })
}

/// Whether the numeric arguments of a claimed generic shape are well
/// formed.
pub open spec fn generic_args_ok(ws: Seq<Seq<char>>) -> bool {
    ws.len() >= 1 && (if ci_eq(ws[0], "KEYS"@) {
        true
    } else if ci_eq(ws[0], "SCAN"@) {
        &&& (ws.len() == 2 ==> num_usize(ws[1]))
        &&& (ws.len() == 4 && ci_eq(ws[2], "COUNT"@) ==> num_usize(ws[1]) && num_usize(ws[3]))
        &&& (ws.len() == 6 && ci_eq(ws[2], "MATCH"@) && ci_eq(ws[4], "COUNT"@) ==> num_usize(
            ws[1],
        ) && num_usize(ws[5]))
    } else if ci_eq(ws[0], "EXPIRE"@) {
        ws.len() == 3 ==> num_u64(ws[2])
    } else {
        true
    })
}

/// The word shapes the sorted-set reader takes for itself, in the order
/// the verbs are tried.
pub open spec fn sorted_sets_claimed(ws: Seq<Seq<char>>) -> bool {
    ws.len() >= 1 && (if ci_eq(ws[0], "ZADD"@) {
        ws.len() >= 2
    } else if ci_eq(ws[0], "ZRANGE"@) {
        (ws.len() == 5 && ci_eq(ws[4], "BYSCORE"@)) || ws.len() == 4
    } else if ci_eq(ws[0], "ZRANK"@) {
        ws.len() == 3
    } else if ci_eq(ws[0], "ZSCORE"@) {
        ws.len() == 3
    } else {
        false
    })
}

/// Whether the arguments of a claimed sorted-set shape are well formed:
/// scores parse and the score-member list pairs up.
pub open spec fn sorted_sets_args_ok(ws: Seq<Seq<char>>) -> bool {
    ws.len() >= 1 && (if ci_eq(ws[0], "ZADD"@) {
        ws.len() >= 2 ==> ({
            let args = ws.skip(2);
            let rest = args.skip(crate::sorted_sets::opts_end(args));
            &&& rest.len() % 2 == 0
            &&& forall|j: int|
                0 <= j && 2 * j < rest.len() ==> score_of_text(#[trigger] rest[2 * j]) is Some
        })
    } else if ci_eq(ws[0], "ZRANGE"@) {
        &&& (ws.len() == 5 && ci_eq(ws[4], "BYSCORE"@) ==> score_of_text(ws[2]) is Some
            && score_of_text(ws[3]) is Some)
        &&& (ws.len() == 4 ==> num_i64(ws[2]) && num_i64(ws[3]))
    } else {
        true
    })
}

/// The words joined with single spaces.
pub open spec fn joined_spec(ws: Seq<Seq<char>>) -> Seq<char>
    decreases ws.len(),
{
    if ws.len() == 0 {
        Seq::empty()
    } else if ws.len() == 1 {
        ws[0]
    } else {
        joined_spec(ws.drop_last()) + seq![' '] + ws.last()
    }
}

/// Joins words with single spaces.
fn join_words(words: &Vec<&str>) -> (r: String)
    ensures
        r@ == joined_spec(strs_views(words@)),
{
    let ghost ws = strs_views(words@);
    let mut r = String::new();
    let mut i: usize = 0;
    proof {
        assert(ws.take(0) =~= Seq::<Seq<char>>::empty());
    }
    while i < words.len()
        invariant
            0 <= i <= words@.len(),
            ws == strs_views(words@),
            r@ == joined_spec(ws.take(i as int)),
        decreases words@.len() - i,
    {
        proof {
            reveal_strlit(" ");
            assert(" "@ =~= seq![' ']);
            assert(ws.take(i + 1).drop_last() =~= ws.take(i as int));
            assert(ws.take(i + 1).last() == ws[i as int]);
            if i == 0 {
                assert(ws.take(1) =~= seq![ws[0]]);
            }
        }
        if i > 0 {
            r.append(" ");
        }
        r.append(words[i]);
        i += 1;
    }
    proof {
        assert(ws.take(ws.len() as int) =~= ws);
    }
    r
}

/// Whether a word equals a keyword up to ASCII case.
fn word_is(w: &str, keyword: &str) -> (r: bool)
    ensures
        r == ci_eq(w@, keyword@),
{
    eq_ignore_case(w, keyword)
}

/// An input error for a number that did not parse.
fn bad_number() -> (r: Error)
    ensures
        r is InvalidInput,
{
    proof {
        reveal_strlit("value is not a valid number");
    }
    Error::InvalidInput(String::from_str("value is not a valid number"))
}

/// Reads the list commands.
fn classify_lists(words: &Vec<&str>) -> (r: Result<Option<ListApi>, Error>)
    ensures
        r matches Ok(Some(v)) ==> lists_form(v, strs_views(words@)),
        r matches Err(e) ==> e is InvalidInput,
        (lists_claimed(strs_views(words@)) && lists_args_ok(strs_views(words@))) ==> (r matches Ok(v) && v is Some),
        (lists_claimed(strs_views(words@)) && !lists_args_ok(strs_views(words@))) ==> r is Err,
        !lists_claimed(strs_views(words@)) ==> (r matches Ok(v) && v is None),
{
    proof {
        reveal_strlit("LRANGE");
        reveal_strlit("RPUSH");
        reveal_strlit("RPUSHX");
        reveal_strlit("LPUSH");
        reveal_strlit("LPUSHX");
        reveal_strlit("LLEN");
        reveal_strlit("LSET");
    }
    if words.len() == 0 {
        return Ok(None);
    }
    let verb = words[0];
    if word_is(verb, "LRANGE") {
        if words.len() != 4 {
            return Ok(None);
        }
        let start = match parse_i32(words[2]) {
            Ok(v) => v,
            Err(_) => {
                return Err(bad_number());
            },
        };
        let stop = match parse_i32(words[3]) {
            Ok(v) => v,
            Err(_) => {
                return Err(bad_number());
            },
        };
        return Ok(Some(ListApi::Range(String::from_str(words[1]), start, stop)));
    }
    if word_is(verb, "RPUSH") || word_is(verb, "RPUSHX") || word_is(verb, "LPUSH") || word_is(
        verb,
        "LPUSHX",
    ) {
        if words.len() < 2 {
            return Ok(None);
        }
        let mut elements: Vec<String> = Vec::new();
        let mut i: usize = 2;
        while i < words.len()
            invariant
                2 <= i <= words@.len(),
                elements@.len() == i - 2,
                forall|j: int| 0 <= j < elements@.len() ==> #[trigger] elements@[j]@ == words@[j
                    + 2]@,
            decreases words@.len() - i,
        {
            elements.push(String::from_str(words[i]));
            i += 1;
        }
        proof {
            assert(strings_views(elements@) =~= strs_views(words@).skip(2));
        }
        let key = String::from_str(words[1]);
        if word_is(verb, "RPUSH") {
            return Ok(Some(ListApi::Append(key, elements, false)));
        }
        if word_is(verb, "RPUSHX") {
            return Ok(Some(ListApi::Append(key, elements, true)));
        }
        if word_is(verb, "LPUSH") {
            return Ok(Some(ListApi::Prepend(key, elements, false)));
        }
        return Ok(Some(ListApi::Prepend(key, elements, true)));
    }
    if word_is(verb, "LLEN") {
        if words.len() != 2 {
            return Ok(None);
        }
        return Ok(Some(ListApi::Length(String::from_str(words[1]))));
    }
    if word_is(verb, "LSET") {
        if words.len() != 4 {
            return Ok(None);
        }
        let index = match parse_usize(words[2]) {
            Ok(v) => v,
            Err(_) => {
                return Err(bad_number());
            },
        };
        return Ok(Some(ListApi::SetAt(
            String::from_str(words[1]),
            index,
            String::from_str(words[3]),
        )));
    }
    proof {
        reveal_strlit("LRANGE");
        reveal_strlit("RPUSH");
        reveal_strlit("RPUSHX");
        reveal_strlit("LPUSH");
        reveal_strlit("LPUSHX");
        reveal_strlit("LLEN");
        reveal_strlit("LSET");
    }
    Ok(None)
}

/// Reads the string commands.
fn classify_strings(words: &Vec<&str>) -> (r: Result<Option<StringsApi>, Error>)
    ensures
        r matches Ok(Some(v)) ==> strings_form(v, strs_views(words@)),
        r matches Err(e) ==> e is InvalidInput,
        strings_claimed(strs_views(words@)) ==> (r matches Ok(v) && v is Some),
        !strings_claimed(strs_views(words@)) ==> (r matches Ok(v) && v is None),
{
    proof {
        reveal_strlit("SET");
        reveal_strlit("GET");
        reveal_strlit("MGET");
    }
    if words.len() == 0 {
        return Ok(None);
    }
    let verb = words[0];
    if word_is(verb, "SET") {
        if words.len() != 3 {
            return Ok(None);
        }
        return Ok(Some(StringsApi::Store(
            String::from_str(words[1]),
            String::from_str(words[2]),
        )));
    }
    if word_is(verb, "GET") {
        if words.len() != 2 {
            return Ok(None);
        }
        return Ok(Some(StringsApi::Get(String::from_str(words[1]))));
    }
    if word_is(verb, "MGET") {
        let mut keys: Vec<String> = Vec::new();
        let mut i: usize = 1;
        while i < words.len()
            invariant
                1 <= i <= words@.len(),
                keys@.len() == i - 1,
                forall|j: int| 0 <= j < keys@.len() ==> #[trigger] keys@[j]@ == words@[j + 1]@,
            decreases words@.len() - i,
        {
            keys.push(String::from_str(words[i]));
            i += 1;
        }
        proof {
            assert(strings_views(keys@) =~= strs_views(words@).skip(1));
        }
        return Ok(Some(StringsApi::Mget(keys)));
    }
    proof {
        reveal_strlit("SET");
        reveal_strlit("GET");
        reveal_strlit("MGET");
    }
    Ok(None)
}

/// Reads the connection-management commands.
fn classify_connection(words: &Vec<&str>) -> (r: Result<Option<ConnectionManagement>, Error>)
    ensures
        r matches Ok(Some(v)) ==> connection_form(v, strs_views(words@)),
        r matches Err(e) ==> e is InvalidInput,
        (connection_claimed(strs_views(words@)) && connection_args_ok(strs_views(words@))) ==> (r matches Ok(v) && v is Some),
        (connection_claimed(strs_views(words@)) && !connection_args_ok(strs_views(words@))) ==> r is Err,
        !connection_claimed(strs_views(words@)) ==> (r matches Ok(v) && v is None),
{
    proof {
        reveal_strlit("PONG");
        reveal_strlit(" ");
    }
    proof {
        reveal_strlit("CLIENT");
        reveal_strlit("SETNAME");
        reveal_strlit("PING");
        reveal_strlit("SELECT");
    }
    if words.len() == 0 {
        return Ok(None);
    }
    let verb = words[0];
    if word_is(verb, "CLIENT") {
        if words.len() == 3 && word_is(words[1], "SETNAME") {
            return Ok(Some(ConnectionManagement::SetClientName(String::from_str(words[2]))));
        }
        return Ok(None);
    }
    if word_is(verb, "PING") {
        if words.len() == 1 {
            return Ok(Some(ConnectionManagement::Ping(String::from_str("PONG"))));
        }
        let mut rest: Vec<&str> = Vec::new();
        let mut i: usize = 1;
        while i < words.len()
            invariant
                1 <= i <= words@.len(),
                rest@.len() == i - 1,
                forall|j: int| 0 <= j < rest@.len() ==> #[trigger] rest@[j]@ == words@[j + 1]@,
            decreases words@.len() - i,
        {
            rest.push(words[i]);
            i += 1;
        }
        proof {
            assert(strs_views(rest@) =~= strs_views(words@).skip(1));
        }
        return Ok(Some(ConnectionManagement::Ping(join_words(&rest))));
    }
    if word_is(verb, "SELECT") {
        if words.len() != 2 {
            return Ok(None);
        }
        let idx = match parse_i32(words[1]) {
            Ok(v) => v,
            Err(_) => {
                return Err(bad_number());
            },
        };
        return Ok(Some(ConnectionManagement::SelectDatabase(idx)));
    }
    proof {
        reveal_strlit("CLIENT");
        reveal_strlit("SETNAME");
        reveal_strlit("PING");
        reveal_strlit("SELECT");
    }
    Ok(None)
}

/// Reads the server-management commands.
fn classify_server(words: &Vec<&str>) -> (r: Result<Option<ServerManagement>, Error>)
    ensures
        r matches Ok(Some(v)) ==> server_form(v, strs_views(words@)),
        r matches Err(e) ==> e is InvalidInput,
        server_claimed(strs_views(words@)) ==> (r matches Ok(v) && v is Some),
        !server_claimed(strs_views(words@)) ==> (r matches Ok(v) && v is None),
{
    proof {
        reveal_strlit("COMMAND");
        reveal_strlit("DOCS");
        reveal_strlit("DBSIZE");
        reveal_strlit("INFO");
        reveal_strlit("keyspace");
        reveal_strlit("server");
        reveal_strlit("BGSAVE");
    }
    if words.len() == 0 {
        return Ok(None);
    }
    let verb = words[0];
    if word_is(verb, "COMMAND") {
        if words.len() == 2 && word_is(words[1], "DOCS") {
            return Ok(Some(ServerManagement::Command(CommandOption::Docs)));
        }
        if words.len() == 1 {
            return Ok(Some(ServerManagement::Command(CommandOption::Empty)));
        }
        return Ok(None);
    }
    if word_is(verb, "DBSIZE") {
        if words.len() == 1 {
            return Ok(Some(ServerManagement::DbSize));
        }
        return Ok(None);
    }
    if word_is(verb, "INFO") {
        if words.len() == 2 {
            if word_is(words[1], "keyspace") {
                return Ok(Some(ServerManagement::Info(Topic::Keyspace)));
            }
            if word_is(words[1], "server") {
                return Ok(Some(ServerManagement::Info(Topic::Server)));
            }
            return Ok(Some(ServerManagement::Info(Topic::Named(String::from_str(words[1])))));
        }
        if words.len() == 1 {
            return Ok(Some(ServerManagement::Info(Topic::Named(String::new()))));
        }
        return Ok(None);
    }
    if word_is(verb, "BGSAVE") {
        if words.len() == 1 {
            return Ok(Some(ServerManagement::BgSave));
        }
        return Ok(None);
    }
    proof {
        reveal_strlit("COMMAND");
        reveal_strlit("DOCS");
        reveal_strlit("DBSIZE");
        reveal_strlit("INFO");
        reveal_strlit("keyspace");
        reveal_strlit("server");
        reveal_strlit("BGSAVE");
    }
    Ok(None)
}

/// Reads the generic keyspace commands.
fn classify_generic(words: &Vec<&str>) -> (r: Result<Option<GenericApi>, Error>)
    ensures
        r matches Ok(Some(v)) ==> generic_form(v, strs_views(words@)),
        r matches Err(e) ==> e is InvalidInput,
        (generic_claimed(strs_views(words@)) && generic_args_ok(strs_views(words@))) ==> (r matches Ok(v) && v is Some),
        (generic_claimed(strs_views(words@)) && !generic_args_ok(strs_views(words@))) ==> r is Err,
        !generic_claimed(strs_views(words@)) ==> (r matches Ok(v) && v is None),
{
    proof {
        reveal_strlit("KEYS");
        reveal_strlit("SCAN");
        reveal_strlit("COUNT");
        reveal_strlit("MATCH");
        reveal_strlit("TTL");
        reveal_strlit("EXPIRE");
        reveal_strlit("EXISTS");
        reveal_strlit("TYPE");
    }
    if words.len() == 0 {
        return Ok(None);
    }
    let verb = words[0];
    if word_is(verb, "KEYS") {
        if words.len() != 2 {
            return Ok(None);
        }
        return Ok(Some(GenericApi::Keys(String::from_str(words[1]))));
    }
    if word_is(verb, "SCAN") {
        if words.len() == 2 {
            let cursor = match parse_usize(words[1]) {
                Ok(v) => v,
                Err(_) => {
                    return Err(bad_number());
                },
            };
            return Ok(Some(GenericApi::Scan { cursor, pattern: None, count: None, tpe: None }));
        }
        if words.len() == 4 && word_is(words[2], "COUNT") {
            let cursor = match parse_usize(words[1]) {
                Ok(v) => v,
                Err(_) => {
                    return Err(bad_number());
                },
            };
            let count = match parse_usize(words[3]) {
                Ok(v) => v,
                Err(_) => {
                    return Err(bad_number());
                },
            };
            return Ok(Some(GenericApi::Scan {
                cursor,
                pattern: None,
                count: Some(count),
                tpe: None,
            }));
        }
        if words.len() == 6 && word_is(words[2], "MATCH") && word_is(words[4], "COUNT") {
            let cursor = match parse_usize(words[1]) {
                Ok(v) => v,
                Err(_) => {
                    return Err(bad_number());
                },
            };
            let count = match parse_usize(words[5]) {
                Ok(v) => v,
                Err(_) => {
                    return Err(bad_number());
                },
            };
            return Ok(Some(GenericApi::Scan {
                cursor,
                pattern: Some(String::from_str(words[3])),
                count: Some(count),
                tpe: None,
            }));
        }
        return Ok(None);
    }
    if word_is(verb, "TTL") {
        if words.len() != 2 {
            return Ok(None);
        }
        return Ok(Some(GenericApi::Ttl(String::from_str(words[1]))));
    }
    if word_is(verb, "EXPIRE") {
        if words.len() != 3 {
            return Ok(None);
        }
        let secs = match parse_u64(words[2]) {
            Ok(v) => v,
            Err(_) => {
                return Err(bad_number());
            },
        };
        return Ok(Some(GenericApi::Expire(String::from_str(words[1]), secs)));
    }
    if word_is(verb, "EXISTS") {
        if words.len() != 2 {
            return Ok(None);
        }
        return Ok(Some(GenericApi::Exists(String::from_str(words[1]))));
    }
    if word_is(verb, "TYPE") {
        if words.len() != 2 {
            return Ok(None);
        }
        return Ok(Some(GenericApi::Type(String::from_str(words[1]))));
    }
    proof {
        reveal_strlit("KEYS");
        reveal_strlit("SCAN");
        reveal_strlit("COUNT");
        reveal_strlit("MATCH");
        reveal_strlit("TTL");
        reveal_strlit("EXPIRE");
        reveal_strlit("EXISTS");
        reveal_strlit("TYPE");
    }
    Ok(None)
}

/// Reads the sorted-set commands.
fn classify_sorted_sets(words: &Vec<&str>) -> (r: Result<Option<SortedSetApi>, Error>)
    ensures
        r matches Ok(Some(v)) ==> sorted_sets_form(v, strs_views(words@)),
        r matches Err(e) ==> e is InvalidInput,
        (sorted_sets_claimed(strs_views(words@)) && sorted_sets_args_ok(strs_views(words@))) ==> (r matches Ok(v) && v is Some),
        (sorted_sets_claimed(strs_views(words@)) && !sorted_sets_args_ok(strs_views(words@))) ==> r is Err,
        !sorted_sets_claimed(strs_views(words@)) ==> (r matches Ok(v) && v is None),
{
    proof {
        reveal_strlit("score and member lists must pair up");
    }
    proof {
        reveal_strlit("ZADD");
        reveal_strlit("ZRANGE");
        reveal_strlit("BYSCORE");
        reveal_strlit("ZRANK");
        reveal_strlit("ZSCORE");
    }
    if words.len() == 0 {
        return Ok(None);
    }
    let verb = words[0];
    if word_is(verb, "ZADD") {
        if words.len() < 2 {
            return Ok(None);
        }
        let args = vstd::slice::slice_subrange(words.as_slice(), 2, words.len());
        proof {
            assert(strs_views(args@) =~= strs_views(words@).skip(2));
        }
        let (options, rest) = AddOptions::parse(args);
        let ghost restv = strings_views(rest@);
        proof {
            let ws = strs_views(words@);
            assert(strs_views(args@) == ws.skip(2));
            assert(restv == ws.skip(2).skip(crate::sorted_sets::opts_end(ws.skip(2))));
        }
        if rest.len() % 2 != 0 {
            return Err(
                Error::InvalidInput(String::from_str("score and member lists must pair up")),
            );
        }
        let mut entries: Vec<(Score, String)> = Vec::new();
        let mut i: usize = 0;
        while i + 1 < rest.len()
            invariant
                0 <= i <= rest@.len(),
                i % 2 == 0,
                rest@.len() % 2 == 0,
                restv == strings_views(rest@),
                ci_eq(strs_views(words@)[0], "ZADD"@),
                strs_views(words@).len() >= 2,
                restv == strs_views(words@).skip(2).skip(
                    crate::sorted_sets::opts_end(strs_views(words@).skip(2)),
                ),
                entries@.len() * 2 == i,
                forall|j: int|
                    0 <= j < entries@.len() ==> {
                        &&& (#[trigger] entries@[j]).0.wf()
                        &&& score_of_text(restv[2 * j]) == Some(entries@[j].0.units as int)
                        &&& entries@[j].1@ == restv[2 * j + 1]
                    },
            decreases rest@.len() - i,
        {
            let sc = match parse_score(rest[i].as_str()) {
                Ok(s) => s,
                Err(_) => {
                    proof {
                        assert(restv[i as int] == rest@[i as int]@);
                        assert(score_of_text(restv[i as int]) is None);
                        let j = (i / 2) as int;
                        assert(2 * j == i as int);
                        assert(!(score_of_text(restv[2 * j]) is Some));
                    }
                    return Err(bad_number());
                },
            };
            entries.push((sc, rest[i + 1].clone()));
            i += 2;
        }
        proof {
            assert forall|j: int|
                0 <= j && 2 * j < restv.len() implies score_of_text(
                #[trigger] restv[2 * j],
            ) is Some by {
                assert(0 <= j < entries@.len());
                assert(score_of_text(restv[2 * j]) == Some(entries@[j].0.units as int));
            }
        }
        return Ok(Some(SortedSetApi::Add { key: String::from_str(words[1]), entries, options }));
    }
    if word_is(verb, "ZRANGE") {
        if words.len() == 5 && word_is(words[4], "BYSCORE") {
            let lo = match parse_score(words[2]) {
                Ok(s) => s,
                Err(_) => {
                    return Err(bad_number());
                },
            };
            let hi = match parse_score(words[3]) {
                Ok(s) => s,
                Err(_) => {
                    return Err(bad_number());
                },
            };
            return Ok(Some(SortedSetApi::RangeByScore(String::from_str(words[1]), lo, hi)));
        }
        if words.len() == 4 {
            let start = match parse_i64(words[2]) {
                Ok(v) => v,
                Err(_) => {
                    return Err(bad_number());
                },
            };
            let stop = match parse_i64(words[3]) {
                Ok(v) => v,
                Err(_) => {
                    return Err(bad_number());
                },
            };
            return Ok(Some(SortedSetApi::RangeByRank(String::from_str(words[1]), start, stop)));
        }
        return Ok(None);
    }
    if word_is(verb, "ZRANK") {
        if words.len() != 3 {
            return Ok(None);
        }
        return Ok(Some(SortedSetApi::Rank(
            String::from_str(words[1]),
            String::from_str(words[2]),
        )));
    }
    if word_is(verb, "ZSCORE") {
        if words.len() != 3 {
            return Ok(None);
        }
        return Ok(Some(SortedSetApi::Score(
            String::from_str(words[1]),
            String::from_str(words[2]),
        )));
    }
    proof {
        reveal_strlit("ZADD");
        reveal_strlit("ZRANGE");
        reveal_strlit("BYSCORE");
        reveal_strlit("ZRANK");
        reveal_strlit("ZSCORE");
    }
    Ok(None)
}

} // verus!
