//! Keyed strings: plain set and get, with the documented list fallback on
//! reads and the per-key multi-get.

use vstd::prelude::*;

verus! {

use vstd::string::StringExecFns;
use crate::ttl::Lifetimes;
use crate::resp::strings_views;
use crate::error::Error;

/// The string commands.
#[derive(Debug)]
pub enum StringsApi {
    Store(String, String),
    Get(String),
    Mget(Vec<String>),
}

/// The texts joined with commas between them.
pub open spec fn join_commas(l: Seq<Seq<char>>) -> Seq<char>
    decreases l.len(),
{
    if l.len() == 0 {
        Seq::empty()
    } else if l.len() == 1 {
        l[0]
    } else {
        join_commas(l.drop_last()) + seq![','] + l.last()
    }
}

/// The comma-joined prefix of up to five list elements, read where a string
/// was asked for.
pub open spec fn string_prefix_spec(l: Seq<Seq<char>>) -> Seq<char> {
    if l.len() <= 5 {
        join_commas(l)
    } else {
        join_commas(l.take(5))
    }
}

/// Joins the first five elements of a list with commas.
pub fn string_prefix(xs: &Vec<String>) -> (r: String)
    ensures
        r@ == string_prefix_spec(strings_views(xs@)),
{
    proof {
        reveal_strlit(",");
    }
    let n = if xs.len() > 5 {
        5
    } else {
        xs.len()
    };
    let ghost l = if xs@.len() <= 5 {
        strings_views(xs@)
    } else {
        strings_views(xs@).take(5)
    };
    proof {
        assert(l.len() == n);
        assert(forall|i: int| 0 <= i < n ==> #[trigger] l[i] == strings_views(xs@)[i]);
    }
    let mut r = String::new();
    let mut i: usize = 0;
    while i < n
        invariant
            0 <= i <= n,
            n <= xs@.len(),
            l.len() == n,
            forall|j: int| 0 <= j < n ==> #[trigger] l[j] == strings_views(xs@)[j],
            r@ == join_commas(l.take(i as int)),
        decreases n - i,
    {
        if i > 0 {
            r.append(",");
        }
        r.append(xs[i].as_str());
        proof {
            reveal_strlit(",");
            assert(","@ =~= seq![',']);
            assert(l.take(i + 1).drop_last() =~= l.take(i as int));
            assert(l.take(i + 1).last() == l[i as int]);
            assert(l[i as int] == xs@[i as int]@);
            if i == 0 {
                assert(l.take(1) =~= seq![l[0]]);
                assert(join_commas(l.take(1)) == l[0]);
                assert(r@ =~= join_commas(l.take(1)));
            } else {
                assert(join_commas(l.take(i + 1)) == join_commas(l.take(i as int)) + seq![',']
                    + l[i as int]);
                assert(r@ =~= join_commas(l.take(i + 1)));
            }
        }
        i += 1;
    }
    proof {
        assert(l.take(n as int) =~= l);
    }
    r
}

impl Lifetimes {
    /// What a read of a key yields: the stored string, or the comma-joined
    /// prefix of a list stored there, as seen at `now`.
    pub open spec fn read_string(&self, k: Seq<char>, now: u64) -> Option<Seq<char>> {
        if !self.live(k, now) {
            None
        } else {
            match self.data.strings.spec_get(k) {
                Some(v) => Some(v@),
                None => match self.data.lists.spec_get(k) {
                    Some(l) => Some(string_prefix_spec(strings_views(l@))),
                    None => None,
                },
            }
        }
    }

    /// Binds a key to a string, overwriting any previous binding.
    pub fn set(&mut self, key: &str, value: &str)
        requires
            old(self).wf(),
        ensures
            final(self).wf(),
            final(self).data.strings.spec_get(key@) matches Some(v) && v@ == value@,
            forall|k2: Seq<char>|
                k2 != key@ ==> #[trigger] final(self).data.strings.spec_get(k2) == old(
                    self,
                ).data.strings.spec_get(k2),
            final(self).data.lists == old(self).data.lists,
            final(self).data.sorted_sets == old(self).data.sorted_sets,
            final(self).ttls == old(self).ttls,
            final(self).expires == old(self).expires,
            final(self).data.rev() == old(self).data.rev(),
    {
        self.data.strings.set(key, String::from_str(value));
        proof {
            crate::ttl::lemma_ttl_wf_frame(*old(self), *self);
        }
    }

    /// The value a key reads as, or the reason there is none.
    pub fn get(&self, key: &str, now: u64) -> (r: Result<String, Error>)
        ensures
            match r {
                Ok(s) => self.read_string(key@, now) == Some(s@),
                Err(e) => self.read_string(key@, now) is None && (e matches Error::NotFound(k)
                    && k@ == key@),
            },
    {
        if self.is_live(key, now) {
            match self.data.strings.get(key) {
                Some(v) => {
                    return Ok(v.clone());
                },
                None => {
                    match self.data.lists.get(key) {
                        Some(l) => {
                            return Ok(string_prefix(l));
                        },
                        None => {},
                    }
                },
            }
        }
        Err(Error::NotFound(String::from_str(key)))
    }

    /// Each key's read value, or nothing for keys that read as nothing.
    pub fn mget(&self, keys: &Vec<String>, now: u64) -> (r: Vec<Option<String>>)
        ensures
            r@.len() == keys@.len(),
            forall|i: int|
                0 <= i < r@.len() ==> (match #[trigger] r@[i] {
                    Some(s) => self.read_string(keys@[i]@, now) == Some(s@),
                    None => self.read_string(keys@[i]@, now) is None,
                }),
    {
        let mut out: Vec<Option<String>> = Vec::new();
        let mut i: usize = 0;
        while i < keys.len()
            invariant
                0 <= i <= keys@.len(),
                out@.len() == i,
                forall|j: int|
                    0 <= j < i ==> (match #[trigger] out@[j] {
                        Some(s) => self.read_string(keys@[j]@, now) == Some(s@),
                        None => self.read_string(keys@[j]@, now) is None,
                    }),
            decreases keys@.len() - i,
        {
            match self.get(keys[i].as_str(), now) {
                Ok(v) => out.push(Some(v)),
                Err(_) => out.push(None),
            }
            i += 1;
        }
        out
    }
}


/// What applying a string command answers and changes.
pub open spec fn apply_spec(
    pre: crate::state::StateContext,
    post: crate::state::StateContext,
    command: StringsApi,
    message: crate::resp::MessageView,
    now: u64,
    r: Result<crate::state::Outcome, Error>,
) -> bool {
    let st = pre.state.state;
    match command {
        StringsApi::Store(key, value) => match r {
            Ok(o) => {
                &&& crate::state::commit_shape(pre, post, message, now, o.log_line)
                &&& crate::state::ttls_filtered(pre, post, now)
                &&& crate::state::lists_filtered(pre, post, now)
                &&& crate::state::zsets_filtered(pre, post, now)
                &&& crate::state::strings_filtered_except(pre, post, now, key@)
                &&& (match post.state.state.data.strings.spec_get(key@) {
                    Some(v) => st.live(key@, now) && v@ == value@,
                    None => !st.live(key@, now),
                })
                &&& o.snapshot is None
                &&& o.response@ == crate::resp::MessageView::SimpleString("OK"@)
            },
            Err(_) => crate::state::commit_failure(pre, message),
        },
        StringsApi::Get(key) => r matches Ok(o) && post == pre && ({
            o.response@ == (match st.read_string(key@, now) {
                Some(v) => crate::resp::MessageView::BulkString(v),
                None => crate::resp::MessageView::Nil,
            })
        }),
        StringsApi::Mget(keys) => r matches Ok(o) && post == pre && ({
            o.response@ == crate::resp::MessageView::Array(
                Seq::new(
                    keys@.len() as nat,
                    |i: int|
                        match st.read_string(keys@[i]@, now) {
                            Some(v) => crate::resp::MessageView::BulkString(v),
                            None => crate::resp::MessageView::Nil,
                        },
                ),
            )
        }),
    }
}

/// Applies a string command against the state, committing writes; it
/// answers and changes exactly what [`apply_spec`] says.
pub fn apply(
    state: &mut crate::state::StateContext,
    command: &StringsApi,
    message: &crate::resp::Message,
    now: u64,
) -> (r: Result<crate::state::Outcome, Error>)
    requires
        old(state).wf(),
    ensures
        final(state).wf(),
        apply_spec(*old(state), *final(state), *command, message@, now, r),
{
    match command {
        StringsApi::Store(key, value) => {
            let ghost pre = *state;
            state.state.state.set(key.as_str(), value.as_str());
            let ghost mid = *state;
            match state.apply_transaction(message, now) {
                Ok(line) => {
                    proof {
                        crate::lists::lemma_commit_carries(pre, mid, *state, now);
                    }
                    Ok(crate::state::Outcome::committed(crate::state::ok_response(), line))
                },
                Err(e) => Err(e),
            }
        },
        StringsApi::Get(key) => {
            match state.state.state.get(key.as_str(), now) {
                Ok(v) => Ok(crate::state::Outcome::reply(crate::resp::Message::BulkString(v))),
                Err(_) => Ok(crate::state::Outcome::reply(crate::resp::Message::Nil)),
            }
        },
        StringsApi::Mget(keys) => {
            let ghost st = state.state.state;
            let values = state.state.state.mget(keys, now);
            let mut parts: Vec<crate::resp::Message> = Vec::new();
            let mut i: usize = 0;
            while i < values.len()
                invariant
                    0 <= i <= values@.len(),
                    values@.len() == keys@.len(),
                    st == state.state.state,
                    parts@.len() == i,
                    forall|j: int|
                        0 <= j < values@.len() ==> (match #[trigger] values@[j] {
                            Some(v) => st.read_string(keys@[j]@, now) == Some(v@),
                            None => st.read_string(keys@[j]@, now) is None,
                        }),
                    forall|j: int|
                        0 <= j < i ==> #[trigger] parts@[j]@ == (match st.read_string(
                            keys@[j]@,
                            now,
                        ) {
                            Some(v) => crate::resp::MessageView::BulkString(v),
                            None => crate::resp::MessageView::Nil,
                        }),
                decreases values@.len() - i,
            {
                match &values[i] {
                    Some(v) => parts.push(crate::resp::Message::BulkString(v.clone())),
                    None => parts.push(crate::resp::Message::Nil),
                }
                i += 1;
            }
            let reply = crate::resp::Message::make_array(parts);
            proof {
                assert(crate::resp::message_views(parts@) =~= Seq::new(
                    keys@.len() as nat,
                    |i: int|
                        match st.read_string(keys@[i]@, now) {
                            Some(v) => crate::resp::MessageView::BulkString(v),
                            None => crate::resp::MessageView::Nil,
                        },
                )) by {
                    crate::resp::lemma_message_views(parts@);
                }
            }
            Ok(crate::state::Outcome::reply(reply))
        },
    }
}

} // verus!
