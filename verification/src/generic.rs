//! Generic keyspace operations: key listing and scanning, existence, type
//! reporting, and the TTL queries.

use vstd::prelude::*;

verus! {

use vstd::string::StringExecFns;
use crate::ttl::Lifetimes;
use crate::globs::{Glob, glob_match};
use crate::resp::strings_views;

/// The generic keyspace commands.
#[derive(Debug)]
pub enum GenericApi {
    Ttl(String),
    Expire(String, u64),
    Keys(String),
    Scan { cursor: usize, pattern: Option<String>, count: Option<usize>, tpe: Option<String> },
    Exists(String),
    Type(String),
}

/// What a scan returned: the whole remainder, or a chunk with the cursor to
/// continue from.
#[derive(Debug)]
pub enum ScanResult {
    Complete(Vec<String>),
    Chunk(usize, Vec<String>),
}

impl ScanResult {
    /// The keys carried, whichever variant holds them.
    pub fn get_data(&self) -> (r: &Vec<String>)
        ensures
            r == (match self {
                ScanResult::Complete(xs) => xs,
                ScanResult::Chunk(_, xs) => xs,
            }),
    {
        match self {
            ScanResult::Complete(xs) => xs,
            ScanResult::Chunk(_, xs) => xs,
        }
    }
}

/// A key's remaining lifetime: no such key, no expiration set, or the
/// seconds left.
#[derive(Debug)]
pub enum Ttl {
    UnknownKey,
    Eternal,
    ExpiresIn(u64),
}

impl Lifetimes {
    /// The string, list and sorted-set keys, in storage order: the shared
    /// namespace that key listing walks.
    pub open spec fn key_universe(&self) -> Seq<Seq<char>> {
        self.data.strings.key_seq() + self.data.lists.key_seq()
            + self.data.sorted_sets.key_seq()
    }

    /// The keys of the universe slice that are live and match the pattern.
    pub open spec fn matching_keys(&self, ks: Seq<Seq<char>>, p: Seq<char>, now: u64) -> Seq<
        Seq<char>,
    >
        decreases ks.len(),
    {
        if ks.len() == 0 {
            Seq::empty()
        } else {
            self.matching_keys(ks.drop_last(), p, now) + (if glob_match(p, ks.last())
                && self.live(ks.last(), now) {
                seq![ks.last()]
            } else {
                Seq::empty()
            })
        }
    }

    /// The keys of the universe, cloned in storage order.
    fn universe_keys(&self) -> (r: Vec<String>)
        ensures
            strings_views(r@) == self.key_universe(),
    {
        let mut out: Vec<String> = Vec::new();
        let n1 = self.data.strings.len();
        let mut i: usize = 0;
        while i < n1
            invariant
                0 <= i <= n1,
                n1 == self.data.strings.model().len(),
                out@.len() == i,
                forall|j: int|
                    0 <= j < i ==> #[trigger] out@[j]@ == self.data.strings.key_seq()[j],
            decreases n1 - i,
        {
            out.push(self.data.strings.key_at(i).clone());
            i += 1;
        }
        let n2 = self.data.lists.len();
        let mut i2: usize = 0;
        while i2 < n2
            invariant
                0 <= i2 <= n2,
                n1 == self.data.strings.model().len(),
                n2 == self.data.lists.model().len(),
                out@.len() == n1 + i2,
                forall|j: int|
                    0 <= j < n1 ==> #[trigger] out@[j]@ == self.data.strings.key_seq()[j],
                forall|j: int|
                    0 <= j < i2 ==> #[trigger] out@[n1 + j]@ == self.data.lists.key_seq()[j],
            decreases n2 - i2,
        {
            out.push(self.data.lists.key_at(i2).clone());
            i2 += 1;
        }
        let n3 = self.data.sorted_sets.len();
        let mut i3: usize = 0;
        while i3 < n3
            invariant
                0 <= i3 <= n3,
                n1 == self.data.strings.model().len(),
                n2 == self.data.lists.model().len(),
                n3 == self.data.sorted_sets.model().len(),
                out@.len() == n1 + n2 + i3,
                forall|j: int|
                    0 <= j < n1 ==> #[trigger] out@[j]@ == self.data.strings.key_seq()[j],
                forall|j: int|
                    0 <= j < n2 ==> #[trigger] out@[n1 + j]@ == self.data.lists.key_seq()[j],
                forall|j: int|
                    0 <= j < i3 ==> #[trigger] out@[n1 + n2 + j]@
                        == self.data.sorted_sets.key_seq()[j],
            decreases n3 - i3,
        {
            out.push(self.data.sorted_sets.key_at(i3).clone());
            i3 += 1;
        }
        proof {
            assert forall|x: int|
                0 <= x < out@.len() implies strings_views(out@)[x] == self.key_universe()[x] by {
                if x >= n1 + n2 {
                    assert(out@[n1 + n2 + (x - n1 - n2)]@ == self.data.sorted_sets.key_seq()[x
                        - n1 - n2]);
                } else if x >= n1 {
                    assert(out@[n1 + (x - n1)]@ == self.data.lists.key_seq()[x - n1]);
                }
            }
            assert(strings_views(out@) =~= self.key_universe());
        }
        out
    }

    /// The live keys matching a pattern, in storage order.
    pub fn filter_keys(&self, pattern: &str, now: u64) -> (r: Vec<String>)
        ensures
            strings_views(r@) == self.matching_keys(self.key_universe(), pattern@, now),
    {
        let glob = Glob::new(pattern);
        let g = glob.unwrap();
        let ks = self.universe_keys();
        let ghost u = self.key_universe();
        let mut out: Vec<String> = Vec::new();
        let mut i: usize = 0;
        proof {
            assert(u.take(0) =~= Seq::<Seq<char>>::empty());
        }
        while i < ks.len()
            invariant
                0 <= i <= ks@.len(),
                u == self.key_universe(),
                g.pattern@ == pattern@,
                strings_views(ks@) == u,
                ks@.len() == u.len(),
                strings_views(out@) == self.matching_keys(u.take(i as int), pattern@, now),
            decreases ks@.len() - i,
        {
            proof {
                assert(u.take(i + 1).drop_last() =~= u.take(i as int));
                assert(u.take(i + 1).last() == u[i as int]);
                assert(ks@[i as int]@ == u[i as int]);
            }
            if g.matches(ks[i].as_str()) && self.is_live(ks[i].as_str(), now) {
                out.push(ks[i].clone());
                proof {
                    assert(strings_views(out@) =~= self.matching_keys(
                        u.take(i + 1),
                        pattern@,
                        now,
                    ));
                }
            } else {
                proof {
                    assert(strings_views(out@) =~= self.matching_keys(
                        u.take(i + 1),
                        pattern@,
                        now,
                    ));
                }
            }
            i += 1;
        }
        proof {
            assert(u.take(u.len() as int) =~= u);
        }
        out
    }

    /// Whether the key is bound in any typed map and is live.
    pub fn key_exists(&self, key: &str, now: u64) -> (r: bool)
        ensures
            r == (self.live(key@, now) && (self.data.strings.has_key(key@)
                || self.data.lists.has_key(key@) || self.data.sorted_sets.has_key(key@))),
    {
        self.is_live(key, now) && (self.data.strings.contains(key) || self.data.lists.contains(
            key,
        ) || self.data.sorted_sets.contains(key))
    }

    /// The kind of value a live key holds, where one is bound.
    pub fn type_of_key(&self, key: &str, now: u64) -> (r: Option<String>)
        ensures
            ({
                let want = if self.live(key@, now) && self.data.strings.has_key(key@) {
                    Some("string"@)
                } else if self.live(key@, now) && self.data.lists.has_key(key@) {
                    Some("list"@)
                } else {
                    None::<Seq<char>>
                };
                match r {
                    Some(s) => want == Some(s@),
                    None => want is None,
                }
            }),
    {
        if self.is_live(key, now) {
            if self.data.strings.contains(key) {
                return Some(String::from_str("string"));
            }
            if self.data.lists.contains(key) {
                return Some(String::from_str("list"));
            }
        }
        None
    }

    /// A key's remaining lifetime at `now`.
    pub fn get_ttl(&self, key: &str, now: u64) -> (r: Ttl)
        ensures
            r == (match self.ttl_of(key@) {
                Some(at) => if at >= now {
                    Ttl::ExpiresIn((at - now) as u64)
                } else {
                    Ttl::UnknownKey
                },
                None => if self.data.strings.has_key(key@) || self.data.lists.has_key(key@)
                    || self.data.sorted_sets.has_key(key@) {
                    Ttl::Eternal
                } else {
                    Ttl::UnknownKey
                },
            }),
    {
        match self.ttl_remaining(key, now) {
            Some(left) => Ttl::ExpiresIn(left),
            None => {
                if self.key_exists(key, now) {
                    Ttl::Eternal
                } else {
                    Ttl::UnknownKey
                }
            },
        }
    }

    /// Scans the key universe from `cursor`, taking up to `count` keys and
    /// keeping the live ones that match the pattern; reports either the end
    /// of the walk or the cursor to continue from.
    pub fn scan_keys(
        &self,
        cursor: usize,
        pattern: Option<&str>,
        count: Option<usize>,
        now: u64,
    ) -> (r: ScanResult)
        ensures
            ({
                let n = match count {
                    Some(c) => c as int,
                    None => 10,
                };
                let p = match pattern {
                    Some(q) => q@,
                    None => seq!['*'],
                };
                let ulen = self.key_universe().len() as int;
                let f = if cursor as int <= ulen {
                    cursor as int
                } else {
                    ulen
                };
                let t = if f + n <= ulen {
                    f + n
                } else {
                    ulen
                };
                let window = self.key_universe().subrange(f, t);
                let content = self.matching_keys(window, p, now);
                match r {
                    ScanResult::Complete(xs) => {
                        &&& strings_views(xs@) == content
                        &&& (cursor + n > self.key_universe().len() || cursor + n
                            >= usize::MAX)
                    },
                    ScanResult::Chunk(c2, xs) => {
                        &&& strings_views(xs@) == content
                        &&& cursor + n <= self.key_universe().len()
                        &&& c2 as int == cursor + n + 1
                    },
                }
            }),
    {
        proof {
            reveal_strlit("*");
        }
        let n: usize = match count {
            Some(c) => c,
            None => 10,
        };
        let pat: &str = match pattern {
            Some(q) => q,
            None => "*",
        };
        proof {
            assert("*"@ =~= seq!['*']);
        }
        let ks = self.universe_keys();
        let total = ks.len();
        let from = if cursor <= total {
            cursor
        } else {
            total
        };
        let upto = if n <= total - from {
            from + n
        } else {
            total
        };
        let glob = Glob::new(pat);
        let g = glob.unwrap();
        let ghost window = self.key_universe().subrange(from as int, upto as int);
        let mut out: Vec<String> = Vec::new();
        let mut i: usize = from;
        proof {
            assert(window.take(0) =~= Seq::<Seq<char>>::empty());
        }
        while i < upto
            invariant
                from <= i <= upto <= total,
                total == ks@.len(),
                strings_views(ks@) == self.key_universe(),
                g.pattern@ == pat@,
                window == self.key_universe().subrange(from as int, upto as int),
                strings_views(out@) == self.matching_keys(window.take(i - from), pat@, now),
            decreases upto - i,
        {
            proof {
                assert(window.take(i - from + 1).drop_last() =~= window.take(i - from));
                assert(window.take(i - from + 1).last() == window[i - from]);
                assert(window[i - from] == self.key_universe()[i as int]);
                assert(ks@[i as int]@ == self.key_universe()[i as int]);
            }
            if g.matches(ks[i].as_str()) && self.is_live(ks[i].as_str(), now) {
                out.push(ks[i].clone());
                proof {
                    assert(strings_views(out@) =~= self.matching_keys(
                        window.take(i - from + 1),
                        pat@,
                        now,
                    ));
                }
            } else {
                proof {
                    assert(strings_views(out@) =~= self.matching_keys(
                        window.take(i - from + 1),
                        pat@,
                        now,
                    ));
                }
            }
            i += 1;
        }
        proof {
            assert(window.take(upto - from) =~= window);
        }
        if n > total || cursor > total - n {
            ScanResult::Complete(out)
        } else if cursor + n == usize::MAX {
            ScanResult::Complete(out)
        } else {
            ScanResult::Chunk(cursor + n + 1, out)
        }
    }
}


/// What applying a generic keyspace command answers and changes.
pub open spec fn apply_spec(
    pre: crate::state::StateContext,
    post: crate::state::StateContext,
    command: GenericApi,
    message: crate::resp::MessageView,
    now: u64,
    r: Result<crate::state::Outcome, crate::error::Error>,
) -> bool {
    let st = pre.state.state;
    match command {
        GenericApi::Keys(p) => r matches Ok(o) && post == pre && o.response@
            == crate::resp::MessageView::Array(
            crate::resp::bulk_views(st.matching_keys(st.key_universe(), p@, now)),
        ),
        GenericApi::Scan { cursor, pattern, count, tpe } => r matches Ok(o) && post == pre && ({
            let n = match count {
                Some(c) => c as int,
                None => 10,
            };
            let p = match pattern {
                Some(q) => q@,
                None => seq!['*'],
            };
            let ulen = st.key_universe().len() as int;
            let f = if cursor as int <= ulen {
                cursor as int
            } else {
                ulen
            };
            let t = if f + n <= ulen {
                f + n
            } else {
                ulen
            };
            let content = st.matching_keys(st.key_universe().subrange(f, t), p, now);
            let next: int = if cursor + n > ulen || cursor + n >= usize::MAX {
                0
            } else {
                cursor + n + 1
            };
            o.response@ == crate::resp::MessageView::Array(
                seq![
                    crate::resp::MessageView::Integer((next as i64) as int),
                    crate::resp::MessageView::Array(crate::resp::bulk_views(content)),
                ],
            )
        }),
        GenericApi::Ttl(key) => r matches Ok(o) && post == pre && ({
            let n: int = match st.ttl_of(key@) {
                Some(at) => if at >= now {
                    if at - now > i64::MAX {
                        i64::MAX as int
                    } else {
                        at - now
                    }
                } else {
                    -2
                },
                None => if st.data.strings.has_key(key@) || st.data.lists.has_key(key@)
                    || st.data.sorted_sets.has_key(key@) {
                    -1
                } else {
                    -2
                },
            };
            o.response@ == crate::resp::MessageView::Integer(n)
        }),
        GenericApi::Expire(key, secs) => ({
            let eligible = st.live(key@, now) && (st.data.strings.has_key(key@)
                || st.data.lists.has_key(key@) || st.data.sorted_sets.has_key(key@));
            if eligible {
                match r {
                    Ok(o) => {
                        &&& crate::state::commit_shape(pre, post, message, now, o.log_line)
                        &&& post.state.state.ttl_of(key@) == Some(
                            if secs > u64::MAX - now {
                                u64::MAX
                            } else {
                                (now + secs) as u64
                            },
                        )
                        &&& (forall|k2: Seq<char>|
                            k2 != key@ ==> #[trigger] post.state.state.ttl_of(k2) == (
                            match st.ttl_of(k2) {
                                Some(at) => if at < now {
                                    None
                                } else {
                                    Some(at)
                                },
                                None => None,
                            }))
                        &&& crate::state::lists_filtered_except(pre, post, now, key@)
                        &&& crate::state::strings_filtered_except(pre, post, now, key@)
                        &&& crate::state::zsets_filtered_except(pre, post, now, key@)
                        &&& post.state.state.data.lists.spec_get(key@)
                            == st.data.lists.spec_get(key@)
                        &&& post.state.state.data.strings.spec_get(key@)
                            == st.data.strings.spec_get(key@)
                        &&& post.state.state.data.sorted_sets.spec_get(key@)
                            == st.data.sorted_sets.spec_get(key@)
                        &&& o.snapshot is None
                        &&& o.response@ == crate::resp::MessageView::Integer(1)
                    },
                    Err(_) => crate::state::commit_failure(pre, message),
                }
            } else {
                r matches Ok(o) && post == pre && o.response@
                    == crate::resp::MessageView::Integer(0) && o.log_line is None
                    && o.snapshot is None
            }
        }),
        GenericApi::Exists(key) => r matches Ok(o) && post == pre && o.response@
            == crate::resp::MessageView::Integer(
            if st.live(key@, now) && (st.data.strings.has_key(key@) || st.data.lists.has_key(
                key@,
            ) || st.data.sorted_sets.has_key(key@)) {
                1
            } else {
                0
            },
        ),
        GenericApi::Type(key) => r matches Ok(o) && post == pre && o.response@
            == crate::resp::MessageView::SimpleString(
            if st.live(key@, now) && st.data.strings.has_key(key@) {
                "string"@
            } else if st.live(key@, now) && st.data.lists.has_key(key@) {
                "list"@
            } else {
                "none"@
            },
        ),
    }
}

/// Applies a generic keyspace command against the state, committing writes;
/// it answers and changes exactly what [`apply_spec`] says.
pub fn apply(
    state: &mut crate::state::StateContext,
    command: &GenericApi,
    message: &crate::resp::Message,
    now: u64,
) -> (r: Result<crate::state::Outcome, crate::error::Error>)
    requires
        old(state).wf(),
    ensures
        final(state).wf(),
        apply_spec(*old(state), *final(state), *command, message@, now, r),
{
    match command {
        GenericApi::Keys(pattern) => {
            let found = state.state.state.filter_keys(pattern.as_str(), now);
            Ok(crate::state::Outcome::reply(crate::resp::Message::make_bulk_array(
                found.as_slice(),
            )))
        },
        GenericApi::Scan { cursor, pattern, count, tpe: _ } => {
            let pat: Option<&str> = match pattern {
                Some(p) => Some(p.as_str()),
                None => None,
            };
            let scanned = state.state.state.scan_keys(*cursor, pat, *count, now);
            let (next, content) = match scanned {
                ScanResult::Complete(xs) => (0usize, xs),
                ScanResult::Chunk(c, xs) => (c, xs),
            };
            let mut parts: Vec<crate::resp::Message> = Vec::new();
            parts.push(crate::resp::Message::Integer(next as i64));
            parts.push(crate::resp::Message::make_bulk_array(content.as_slice()));
            let reply = crate::resp::Message::make_array(parts);
            proof {
                crate::resp::lemma_message_views(parts@);
                assert(crate::resp::message_views(parts@) =~= seq![
                    parts@[0]@,
                    parts@[1]@,
                ]);
            }
            Ok(crate::state::Outcome::reply(reply))
        },
        GenericApi::Ttl(key) => {
            let t = state.state.state.get_ttl(key.as_str(), now);
            let n: i64 = match t {
                Ttl::ExpiresIn(secs) => if secs > i64::MAX as u64 {
                    i64::MAX
                } else {
                    secs as i64
                },
                Ttl::Eternal => -1,
                Ttl::UnknownKey => -2,
            };
            Ok(crate::state::Outcome::reply(crate::resp::Message::Integer(n)))
        },
        GenericApi::Expire(key, secs) => {
            let ghost pre = *state;
            let lives = state.state.state.is_live(key.as_str(), now);
            let bound = state.state.state.data.strings.contains(key.as_str())
                || state.state.state.data.lists.contains(key.as_str())
                || state.state.state.data.sorted_sets.contains(key.as_str());
            if lives && bound {
                state.state.state.register_ttl(key.as_str(), now, *secs);
                let ghost mid = *state;
                match state.apply_transaction(message, now) {
                    Ok(line) => {
                        proof {
                            let at: u64 = if *secs > u64::MAX - now {
                                u64::MAX
                            } else {
                                (now + *secs) as u64
                            };
                            assert(mid.state.state.ttl_of(key@) == Some(at));
                            assert(mid.state.state.live(key@, now));
                            assert forall|k2: Seq<char>|
                                k2 != key@ implies #[trigger] mid.state.state.live(k2, now)
                                == pre.state.state.live(k2, now) by {
                                assert(mid.state.state.ttl_of(k2) == pre.state.state.ttl_of(
                                    k2,
                                ));
                            }
                        }
                        Ok(crate::state::Outcome::committed(
                            crate::resp::Message::Integer(1),
                            line,
                        ))
                    },
                    Err(e) => Err(e),
                }
            } else {
                Ok(crate::state::Outcome::reply(crate::resp::Message::Integer(0)))
            }
        },
        GenericApi::Exists(key) => {
            let found = state.state.state.key_exists(key.as_str(), now);
            Ok(crate::state::Outcome::reply(crate::resp::Message::Integer(
                if found {
                    1
                } else {
                    0
                },
            )))
        },
        GenericApi::Type(key) => {
            proof {
                reveal_strlit("none");
            }
            let name = match state.state.state.type_of_key(key.as_str(), now) {
                Some(t) => t,
                None => String::from_str("none"),
            };
            Ok(crate::state::Outcome::reply(crate::resp::Message::SimpleString(name)))
        },
    }
}

} // verus!
