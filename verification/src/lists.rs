//! Lists: doubly ended sequences of strings under one key each, with the
//! inclusive-start, exclusive-stop range semantics of the wire API.

use vstd::prelude::*;

verus! {

use vstd::string::StringExecFns;
use crate::ttl::Lifetimes;
use crate::resp::strings_views;

/// The list commands.
#[derive(Debug)]
pub enum ListApi {
    Length(String),
    Append(String, Vec<String>, bool),
    Prepend(String, Vec<String>, bool),
    SetAt(String, usize, String),
    Range(String, i32, i32),
}

/// The bounds a range request resolves to over a sequence of the given
/// length: the first index kept and the first index dropped. Negative
/// positions count from the end, with `-1` the last element; positions past
/// either end are clamped; an inverted range resolves to nothing.
pub open spec fn resolve_range(len: int, start: int, stop: int) -> Option<(int, int)> {
    if len == 0 || start >= len {
        None
    } else {
        let es = if 0 <= start {
            start
        } else if -len <= start {
            start + len
        } else {
            0
        };
        let eo = if stop >= 0 {
            if stop < len {
                stop
            } else {
                len
            }
        } else if -len - 1 <= stop {
            stop + len + 1
        } else {
            0
        };
        if es <= eo {
            Some((es, eo))
        } else {
            None
        }
    }
}

/// The slice of a list a range request selects.
pub open spec fn range_spec(l: Seq<Seq<char>>, start: int, stop: int) -> Seq<Seq<char>> {
    match resolve_range(l.len() as int, start, stop) {
        Some(b) => l.subrange(b.0, b.1),
        None => Seq::empty(),
    }
}

/// The full list is selected by the range from zero to minus one.
pub proof fn lemma_range_full(l: Seq<Seq<char>>)
    ensures
        range_spec(l, 0, -1) == l,
{
    if l.len() > 0 {
        assert(range_spec(l, 0, -1) =~= l);
    } else {
        assert(range_spec(l, 0, -1) =~= l);
    }
}

/// A range starting at or past the length selects nothing.
pub proof fn lemma_range_past_end(l: Seq<Seq<char>>, start: int, stop: int)
    requires
        start >= l.len(),
    ensures
        range_spec(l, start, stop) == Seq::<Seq<char>>::empty(),
{
}

/// The view of a possibly absent list.
pub open spec fn list_view(o: Option<Vec<String>>) -> Option<Seq<Seq<char>>> {
    match o {
        Some(v) => Some(strings_views(v@)),
        None => None,
    }
}

impl Lifetimes {
    /// The list bound to a live key, as seen at `now`.
    pub open spec fn live_list(&self, k: Seq<char>, now: u64) -> Option<Seq<Seq<char>>> {
        if self.live(k, now) {
            list_view(self.data.lists.spec_get(k))
        } else {
            None
        }
    }

    /// The number of elements under a key; absent or expired keys count
    /// zero.
    pub fn length(&self, key: &str, now: u64) -> (r: usize)
        ensures
            r == (match self.live_list(key@, now) {
                Some(l) => l.len(),
                None => 0,
            }),
    {
        if !self.is_live(key, now) {
            return 0;
        }
        match self.data.lists.get(key) {
            Some(v) => v.len(),
            None => 0,
        }
    }

    /// Pushes an element to the back of a key's list; with `to_existing`
    /// set, an absent key stays absent. Returns the resulting length, zero
    /// where nothing was created.
    pub fn append(&mut self, key: &str, element: &str, to_existing: bool) -> (r: usize)
        requires
            old(self).wf(),
        ensures
            final(self).wf(),
            list_view(final(self).data.lists.spec_get(key@)) == (match list_view(
                old(self).data.lists.spec_get(key@),
            ) {
                Some(l) => Some(l.push(element@)),
                None => if to_existing {
                    None
                } else {
                    Some(seq![element@])
                },
            }),
            forall|k2: Seq<char>|
                k2 != key@ ==> #[trigger] final(self).data.lists.spec_get(k2) == old(
                    self,
                ).data.lists.spec_get(k2),
            final(self).data.strings == old(self).data.strings,
            final(self).data.sorted_sets == old(self).data.sorted_sets,
            final(self).ttls == old(self).ttls,
            final(self).expires == old(self).expires,
            final(self).data.rev() == old(self).data.rev(),
            r == (match list_view(final(self).data.lists.spec_get(key@)) {
                Some(l) => l.len(),
                None => 0,
            }),
    {
        let r: usize = match self.data.lists.take(key) {
            Some(mut v) => {
                v.push(String::from_str(element));
                let n = v.len();
                self.data.lists.set(key, v);
                proof {
                    let oldl = old(self).data.lists.spec_get(key@)->Some_0;
                    assert(strings_views(self.data.lists.spec_get(key@)->Some_0@)
                        =~= strings_views(oldl@).push(element@));
                }
                n
            },
            None => {
                if to_existing {
                    0
                } else {
                    let mut v: Vec<String> = Vec::new();
                    v.push(String::from_str(element));
                    self.data.lists.set(key, v);
                    proof {
                        assert(strings_views(self.data.lists.spec_get(key@)->Some_0@)
                            =~= seq![element@]);
                    }
                    1
                }
            },
        };
        proof {
            crate::ttl::lemma_ttl_wf_frame(*old(self), *self);
        }
        r
    }

    /// Pushes an element to the front of a key's list; with `to_existing`
    /// set, an absent key stays absent. Returns the resulting length.
    pub fn prepend(&mut self, key: &str, element: &str, to_existing: bool) -> (r: usize)
        requires
            old(self).wf(),
        ensures
            final(self).wf(),
            list_view(final(self).data.lists.spec_get(key@)) == (match list_view(
                old(self).data.lists.spec_get(key@),
            ) {
                Some(l) => Some(seq![element@] + l),
                None => if to_existing {
                    None
                } else {
                    Some(seq![element@])
                },
            }),
            forall|k2: Seq<char>|
                k2 != key@ ==> #[trigger] final(self).data.lists.spec_get(k2) == old(
                    self,
                ).data.lists.spec_get(k2),
            final(self).data.strings == old(self).data.strings,
            final(self).data.sorted_sets == old(self).data.sorted_sets,
            final(self).ttls == old(self).ttls,
            final(self).expires == old(self).expires,
            final(self).data.rev() == old(self).data.rev(),
            r == (match list_view(final(self).data.lists.spec_get(key@)) {
                Some(l) => l.len(),
                None => 0,
            }),
    {
        let r: usize = match self.data.lists.take(key) {
            Some(mut v) => {
                v.insert(0, String::from_str(element));
                let n = v.len();
                self.data.lists.set(key, v);
                proof {
                    let oldl = old(self).data.lists.spec_get(key@)->Some_0;
                    assert(strings_views(self.data.lists.spec_get(key@)->Some_0@) =~= seq![
                        element@,
                    ] + strings_views(oldl@));
                }
                n
            },
            None => {
                if to_existing {
                    0
                } else {
                    let mut v: Vec<String> = Vec::new();
                    v.push(String::from_str(element));
                    self.data.lists.set(key, v);
                    proof {
                        assert(strings_views(self.data.lists.spec_get(key@)->Some_0@)
                            =~= seq![element@]);
                    }
                    1
                }
            },
        };
        proof {
            crate::ttl::lemma_ttl_wf_frame(*old(self), *self);
        }
        r
    }

    /// Overwrites the element at `index`; `false` where the key is absent or
    /// the index out of range.
    pub fn set_element(&mut self, key: &str, index: usize, element: &str) -> (r: bool)
        requires
            old(self).wf(),
        ensures
            final(self).wf(),
            r == (match list_view(old(self).data.lists.spec_get(key@)) {
                Some(l) => index < l.len(),
                None => false,
            }),
            list_view(final(self).data.lists.spec_get(key@)) == (match list_view(
                old(self).data.lists.spec_get(key@),
            ) {
                Some(l) => Some(
                    if index < l.len() {
                        l.update(index as int, element@)
                    } else {
                        l
                    },
                ),
                None => None,
            }),
            forall|k2: Seq<char>|
                k2 != key@ ==> #[trigger] final(self).data.lists.spec_get(k2) == old(
                    self,
                ).data.lists.spec_get(k2),
            final(self).data.strings == old(self).data.strings,
            final(self).data.sorted_sets == old(self).data.sorted_sets,
            final(self).ttls == old(self).ttls,
            final(self).expires == old(self).expires,
            final(self).data.rev() == old(self).data.rev(),
    {
        let r: bool = match self.data.lists.take(key) {
            Some(mut v) => {
                let hit = index < v.len();
                if hit {
                    let _ = v.remove(index);
                    v.insert(index, String::from_str(element));
                }
                proof {
                    let oldl = old(self).data.lists.spec_get(key@)->Some_0;
                    if index < oldl@.len() {
                        assert(strings_views(v@) =~= strings_views(oldl@).update(
                            index as int,
                            element@,
                        ));
                    } else {
                        assert(strings_views(v@) =~= strings_views(oldl@));
                    }
                }
                self.data.lists.set(key, v);
                hit
            },
            None => false,
        };
        proof {
            crate::ttl::lemma_ttl_wf_frame(*old(self), *self);
        }
        r
    }

    /// The slice a range request selects from a live key's list.
    pub fn range(&self, key: &str, start: i32, stop: i32, now: u64) -> (r: Vec<String>)
        ensures
            strings_views(r@) == (match self.live_list(key@, now) {
                Some(l) => range_spec(l, start as int, stop as int),
                None => Seq::<Seq<char>>::empty(),
            }),
    {
        let mut out: Vec<String> = Vec::new();
        if !self.is_live(key, now) {
            proof {
                assert(strings_views(out@) =~= Seq::<Seq<char>>::empty());
            }
            return out;
        }
        let list = match self.data.lists.get(key) {
            Some(v) => v,
            None => {
                proof {
                    assert(strings_views(out@) =~= Seq::<Seq<char>>::empty());
                }
                return out;
            },
        };
        let len = list.len();
        let ghost l = strings_views(list@);
        let len_i: i128 = len as i128;
        let start_i: i128 = start as i128;
        let stop_i: i128 = stop as i128;
        if len == 0 || start_i >= len_i {
            proof {
                assert(strings_views(out@) =~= range_spec(l, start as int, stop as int));
            }
            return out;
        }
        let es: i128 = if start_i >= 0 {
            start_i
        } else if start_i + len_i >= 0 {
            start_i + len_i
        } else {
            0
        };
        let eo: i128 = if stop_i >= 0 {
            if stop_i < len_i {
                stop_i
            } else {
                len_i
            }
        } else if stop_i + len_i + 1 >= 0 {
            stop_i + len_i + 1
        } else {
            0
        };
        if !(es <= eo) {
            proof {
                assert(strings_views(out@) =~= range_spec(l, start as int, stop as int));
            }
            return out;
        }
        let from: usize = es as usize;
        let to: usize = eo as usize;
        let mut i: usize = from;
        while i < to
            invariant
                from <= i <= to <= list@.len(),
                l == strings_views(list@),
                out@.len() == i - from,
                forall|j: int| 0 <= j < out@.len() ==> #[trigger] out@[j]@ == l[from + j],
            decreases to - i,
        {
            out.push(list[i].clone());
            i += 1;
        }
        proof {
            assert(strings_views(out@) =~= range_spec(l, start as int, stop as int));
        }
        out
    }
}


/// The list after each element is pushed to the back in turn; with
/// `to_existing` set an absent key stays absent, else the first push creates
/// the list.
pub open spec fn push_back_all(
    base: Option<Seq<Seq<char>>>,
    xs: Seq<Seq<char>>,
    to_existing: bool,
) -> Option<Seq<Seq<char>>>
    decreases xs.len(),
{
    if xs.len() == 0 {
        base
    } else {
        match push_back_all(base, xs.drop_last(), to_existing) {
            Some(l) => Some(l.push(xs.last())),
            None => if to_existing {
                None
            } else {
                Some(seq![xs.last()])
            },
        }
    }
}

/// The list after each element is pushed to the front in turn.
pub open spec fn push_front_all(
    base: Option<Seq<Seq<char>>>,
    xs: Seq<Seq<char>>,
    to_existing: bool,
) -> Option<Seq<Seq<char>>>
    decreases xs.len(),
{
    if xs.len() == 0 {
        base
    } else {
        match push_front_all(base, xs.drop_last(), to_existing) {
            Some(l) => Some(seq![xs.last()] + l),
            None => if to_existing {
                None
            } else {
                Some(seq![xs.last()])
            },
        }
    }
}

/// The length a push command answers with: zero when nothing was pushed or
/// the key stayed absent, else the resulting length.
pub open spec fn push_reply(count: nat, result: Option<Seq<Seq<char>>>) -> int {
    if count == 0 {
        0
    } else {
        match result {
            Some(l) => l.len() as int,
            None => 0,
        }
    }
}

/// What applying a list command answers and changes.
pub open spec fn apply_spec(
    pre: crate::state::StateContext,
    post: crate::state::StateContext,
    command: ListApi,
    message: crate::resp::MessageView,
    now: u64,
    r: Result<crate::state::Outcome, crate::error::Error>,
) -> bool {
    let st = pre.state.state;
    match command {
        ListApi::Length(key) => r matches Ok(o) && post == pre && ({
            let n: int = match st.live_list(key@, now) {
                Some(l) => l.len() as int,
                None => 0,
            };
            o.response@ == crate::resp::MessageView::Integer((n as i64) as int)
        }),
        ListApi::Range(key, start, stop) => r matches Ok(o) && post == pre && ({
            let sel = match st.live_list(key@, now) {
                Some(l) => range_spec(l, start as int, stop as int),
                None => Seq::empty(),
            };
            o.response@ == crate::resp::MessageView::Array(crate::resp::bulk_views(sel))
        }),
        ListApi::Append(key, elements, to_existing) => ({
            let newl = push_back_all(
                list_view(st.data.lists.spec_get(key@)),
                crate::resp::strings_views(elements@),
                to_existing,
            );
            match r {
                Ok(o) => {
                    &&& crate::state::commit_shape(pre, post, message, now, o.log_line)
                    &&& crate::state::ttls_filtered(pre, post, now)
                    &&& crate::state::strings_filtered(pre, post, now)
                    &&& crate::state::zsets_filtered(pre, post, now)
                    &&& crate::state::lists_filtered_except(pre, post, now, key@)
                    &&& list_view(post.state.state.data.lists.spec_get(key@)) == (if st.live(
                        key@,
                        now,
                    ) {
                        newl
                    } else {
                        None
                    })
                    &&& o.snapshot is None
                    &&& o.response@ == crate::resp::MessageView::Integer(
                        (push_reply(elements@.len(), newl) as i64) as int,
                    )
                },
                Err(_) => crate::state::commit_failure(pre, message),
            }
        }),
        ListApi::Prepend(key, elements, to_existing) => ({
            let newl = push_front_all(
                list_view(st.data.lists.spec_get(key@)),
                crate::resp::strings_views(elements@),
                to_existing,
            );
            match r {
                Ok(o) => {
                    &&& crate::state::commit_shape(pre, post, message, now, o.log_line)
                    &&& crate::state::ttls_filtered(pre, post, now)
                    &&& crate::state::strings_filtered(pre, post, now)
                    &&& crate::state::zsets_filtered(pre, post, now)
                    &&& crate::state::lists_filtered_except(pre, post, now, key@)
                    &&& list_view(post.state.state.data.lists.spec_get(key@)) == (if st.live(
                        key@,
                        now,
                    ) {
                        newl
                    } else {
                        None
                    })
                    &&& o.snapshot is None
                    &&& o.response@ == crate::resp::MessageView::Integer(
                        (push_reply(elements@.len(), newl) as i64) as int,
                    )
                },
                Err(_) => crate::state::commit_failure(pre, message),
            }
        }),
        ListApi::SetAt(key, index, element) => ({
            let hit = match list_view(st.data.lists.spec_get(key@)) {
                Some(l) => (index as int) < l.len(),
                None => false,
            };
            let newl = match list_view(st.data.lists.spec_get(key@)) {
                Some(l) => Some(
                    if (index as int) < l.len() {
                        l.update(index as int, element@)
                    } else {
                        l
                    },
                ),
                None => None,
            };
            match r {
                Ok(o) => {
                    &&& crate::state::commit_shape(pre, post, message, now, o.log_line)
                    &&& crate::state::ttls_filtered(pre, post, now)
                    &&& crate::state::strings_filtered(pre, post, now)
                    &&& crate::state::zsets_filtered(pre, post, now)
                    &&& crate::state::lists_filtered_except(pre, post, now, key@)
                    &&& list_view(post.state.state.data.lists.spec_get(key@)) == (if st.live(
                        key@,
                        now,
                    ) {
                        newl
                    } else {
                        None
                    })
                    &&& o.snapshot is None
                    &&& o.response@ == (if hit {
                        crate::resp::MessageView::SimpleString("OK"@)
                    } else {
                        crate::resp::MessageView::Error {
                            prefix: crate::resp::PrefixView::Canonical,
                            message: "Index out of range"@,
                        }
                    })
                },
                Err(_) => crate::state::commit_failure(pre, message),
            }
        }),
    }
}

/// Applies a list command against the state, committing writes; it answers
/// and changes exactly what [`apply_spec`] says.
pub fn apply(
    state: &mut crate::state::StateContext,
    command: &ListApi,
    message: &crate::resp::Message,
    now: u64,
) -> (r: Result<crate::state::Outcome, crate::error::Error>)
    requires
        old(state).wf(),
    ensures
        final(state).wf(),
        apply_spec(*old(state), *final(state), *command, message@, now, r),
{
    match command {
        ListApi::Length(key) => {
            let n = state.state.state.length(key.as_str(), now);
            Ok(crate::state::Outcome::reply(crate::resp::Message::Integer(n as i64)))
        },
        ListApi::Append(key, elements, to_existing) => {
            let ghost pre = *state;
            let ghost base = list_view(pre.state.state.data.lists.spec_get(key@));
            let ghost views = crate::resp::strings_views(elements@);
            let mut n: usize = 0;
            let mut i: usize = 0;
            proof {
                assert(views.take(0) =~= Seq::<Seq<char>>::empty());
            }
            while i < elements.len()
                invariant
                    0 <= i <= elements@.len(),
                    state.wf(),
                    views == crate::resp::strings_views(elements@),
                    base == list_view(pre.state.state.data.lists.spec_get(key@)),
                    state.state.log == pre.state.log,
                    state.state.replaying == pre.state.replaying,
                    state.state.state.ttls == pre.state.state.ttls,
                    state.state.state.expires == pre.state.state.expires,
                    state.state.state.data.rev() == pre.state.state.data.rev(),
                    state.state.state.data.strings == pre.state.state.data.strings,
                    state.state.state.data.sorted_sets == pre.state.state.data.sorted_sets,
                    forall|k2: Seq<char>|
                        k2 != key@ ==> #[trigger] state.state.state.data.lists.spec_get(k2)
                            == pre.state.state.data.lists.spec_get(k2),
                    list_view(state.state.state.data.lists.spec_get(key@)) == push_back_all(
                        base,
                        views.take(i as int),
                        *to_existing,
                    ),
                    n as int == push_reply(i as nat, push_back_all(
                        base,
                        views.take(i as int),
                        *to_existing,
                    )),
                decreases elements@.len() - i,
            {
                proof {
                    assert(views.take(i + 1).drop_last() =~= views.take(i as int));
                    assert(views.take(i + 1).last() == elements@[i as int]@);
                }
                n = state.state.state.append(key.as_str(), elements[i].as_str(), *to_existing);
                i += 1;
            }
            proof {
                assert(views.take(views.len() as int) =~= views);
            }
            let ghost mid = *state;
            match state.apply_transaction(message, now) {
                Ok(line) => {
                    proof {
                        lemma_commit_carries(pre, mid, *state, now);
                    }
                    Ok(crate::state::Outcome::committed(
                        crate::resp::Message::Integer(n as i64),
                        line,
                    ))
                },
                Err(e) => Err(e),
            }
        },
        ListApi::Prepend(key, elements, to_existing) => {
            let ghost pre = *state;
            let ghost base = list_view(pre.state.state.data.lists.spec_get(key@));
            let ghost views = crate::resp::strings_views(elements@);
            let mut n: usize = 0;
            let mut i: usize = 0;
            proof {
                assert(views.take(0) =~= Seq::<Seq<char>>::empty());
            }
            while i < elements.len()
                invariant
                    0 <= i <= elements@.len(),
                    state.wf(),
                    views == crate::resp::strings_views(elements@),
                    base == list_view(pre.state.state.data.lists.spec_get(key@)),
                    state.state.log == pre.state.log,
                    state.state.replaying == pre.state.replaying,
                    state.state.state.ttls == pre.state.state.ttls,
                    state.state.state.expires == pre.state.state.expires,
                    state.state.state.data.rev() == pre.state.state.data.rev(),
                    state.state.state.data.strings == pre.state.state.data.strings,
                    state.state.state.data.sorted_sets == pre.state.state.data.sorted_sets,
                    forall|k2: Seq<char>|
                        k2 != key@ ==> #[trigger] state.state.state.data.lists.spec_get(k2)
                            == pre.state.state.data.lists.spec_get(k2),
                    list_view(state.state.state.data.lists.spec_get(key@)) == push_front_all(
                        base,
                        views.take(i as int),
                        *to_existing,
                    ),
                    n as int == push_reply(i as nat, push_front_all(
                        base,
                        views.take(i as int),
                        *to_existing,
                    )),
                decreases elements@.len() - i,
            {
                proof {
                    assert(views.take(i + 1).drop_last() =~= views.take(i as int));
                    assert(views.take(i + 1).last() == elements@[i as int]@);
                }
                n = state.state.state.prepend(key.as_str(), elements[i].as_str(), *to_existing);
                i += 1;
            }
            proof {
                assert(views.take(views.len() as int) =~= views);
            }
            let ghost mid = *state;
            match state.apply_transaction(message, now) {
                Ok(line) => {
                    proof {
                        lemma_commit_carries(pre, mid, *state, now);
                    }
                    Ok(crate::state::Outcome::committed(
                        crate::resp::Message::Integer(n as i64),
                        line,
                    ))
                },
                Err(e) => Err(e),
            }
        },
        ListApi::SetAt(key, index, element) => {
            let ghost pre = *state;
            let hit = state.state.state.set_element(key.as_str(), *index, element.as_str());
            let response = if hit {
                crate::state::ok_response()
            } else {
                proof {
                    reveal_strlit("Index out of range");
                }
                crate::state::err_response(String::from_str("Index out of range"))
            };
            let ghost mid = *state;
            match state.apply_transaction(message, now) {
                Ok(line) => {
                    proof {
                        lemma_commit_carries(pre, mid, *state, now);
                    }
                    Ok(crate::state::Outcome::committed(response, line))
                },
                Err(e) => Err(e),
            }
        },
        ListApi::Range(key, start, stop) => {
            let items = state.state.state.range(key.as_str(), *start, *stop, now);
            Ok(crate::state::Outcome::reply(crate::resp::Message::make_bulk_array(
                items.as_slice(),
            )))
        },
    }
}

/// A commit on a state that differs from `pre` only in one typed map leaves
/// the other maps and the expirations exactly as the filter of `pre` says.
pub proof fn lemma_commit_carries(
    pre: crate::state::StateContext,
    mid: crate::state::StateContext,
    post: crate::state::StateContext,
    now: u64,
)
    requires
        mid.state.state.ttls == pre.state.state.ttls,
        crate::state::ttls_filtered(mid, post, now),
    ensures
        crate::state::ttls_filtered(pre, post, now),
        forall|k: Seq<char>| #[trigger] mid.state.state.live(k, now) == pre.state.state.live(
            k,
            now,
        ),
{
    assert forall|k: Seq<char>| #[trigger] mid.state.state.live(k, now)
        == pre.state.state.live(k, now) by {
        crate::ttl::lemma_ttl_of_frame(pre.state.state, mid.state.state, k);
    }
    assert forall|k: Seq<char>| #[trigger] post.state.state.ttl_of(k) == (match pre.state.state.ttl_of(
        k,
    ) {
        Some(at) => if at < now {
            None
        } else {
            Some(at)
        },
        None => None,
    }) by {
        crate::ttl::lemma_ttl_of_frame(pre.state.state, mid.state.state, k);
    }
}

} // verus!
