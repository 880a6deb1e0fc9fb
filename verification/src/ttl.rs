//! Per-key expiry: an absolute expiration instant per key, with an ordered
//! inverse view used to expunge due keys.

use vstd::prelude::*;

verus! {

use vstd::string::StringExecFns;
use crate::keyed::AssocList;
use crate::engine::Datasets;
use crate::text::str_eq;

/// The inverse view and the TTL map agree: the map has unique keys, the
/// inverse is ordered by instant, carries each key at its canonical instant,
/// covers every mapped key, and holds no key twice.
pub open spec fn expiry_consistent(ev: Seq<(u64, Seq<char>)>, tm: AssocList<u64>) -> bool {
    &&& tm.wf()
    &&& (forall|i: int, j: int|
        0 <= i < j < ev.len() ==> (#[trigger] ev[i]).0 <= (#[trigger] ev[j]).0)
    &&& (forall|i: int|
        0 <= i < ev.len() ==> tm.spec_get((#[trigger] ev[i]).1) == Some(ev[i].0))
    &&& (forall|i: int, j: int|
        0 <= i < j < ev.len() ==> (#[trigger] ev[i]).1 != (#[trigger] ev[j]).1)
    &&& (forall|k: int|
        0 <= k < tm.model().len() ==> exists|i: int|
            0 <= i < ev.len() && (#[trigger] ev[i]) == ((#[trigger] tm.model()[k]).1,
            tm.model()[k].0))
}

/// The dataset together with its expiry bookkeeping.
pub struct Lifetimes {
    pub expires: Vec<(u64, String)>,
    pub ttls: AssocList<u64>,
    pub data: Datasets,
}

impl Lifetimes {
    /// The inverse view: instants with their keys, in instant order.
    pub closed spec fn expires_view(&self) -> Seq<(u64, Seq<char>)> {
        Seq::new(self.expires@.len(), |i: int| (self.expires@[i].0, self.expires@[i].1@))
    }

    /// The expiration instant of a key, if one is set.
    pub closed spec fn ttl_of(&self, k: Seq<char>) -> Option<u64> {
        self.ttls.spec_get(k)
    }

    /// Whether a key has not expired at the given instant. Keys without a
    /// TTL never expire.
    pub open spec fn live(&self, k: Seq<char>, now: u64) -> bool {
        match self.ttl_of(k) {
            Some(at) => at >= now,
            None => true,
        }
    }

    /// The raw TTL map entries.
    pub closed spec fn ttls_model(&self) -> Seq<(Seq<char>, u64)> {
        self.ttls.model()
    }

    /// The two views are consistent: the map has unique keys, the inverse is
    /// ordered by instant, carries each key at its canonical instant, covers
    /// every mapped key, and holds no key twice.
    pub open spec fn ttl_wf(&self) -> bool {
        expiry_consistent(self.expires_view(), self.ttls)
    }

    /// The whole layered state is well formed.
    pub open spec fn wf(&self) -> bool {
        self.ttl_wf() && self.data.wf()
    }

    /// Wraps a dataset with no expirations set.
    pub fn new(data: Datasets) -> (r: Lifetimes)
        ensures
            r.data == data,
            r.ttl_wf(),
            forall|k: Seq<char>| r.ttl_of(k) is None,
            r.expires_view().len() == 0,
    {
        let r = Lifetimes { expires: Vec::new(), ttls: AssocList::new(), data };
        proof {
            assert(r.expires_view() =~= Seq::<(u64, Seq<char>)>::empty());
            assert forall|k: Seq<char>| r.ttl_of(k) is None by {
                crate::keyed::lemma_assoc_get_none(r.ttls.model(), k);
            }
        }
        r
    }

    /// The position of a key's inverse entry.
    fn find_expire_entry(&self, key: &str) -> (r: usize)
        requires
            self.ttl_wf(),
            self.ttl_of(key@) is Some,
        ensures
            r < self.expires_view().len(),
            self.expires_view()[r as int].1 == key@,
            forall|j: int| 0 <= j < r ==> (#[trigger] self.expires_view()[j]).1 != key@,
    {
        let n = self.expires.len();
        let mut i: usize = 0;
        while i < n
            invariant
                0 <= i <= n,
                n == self.expires@.len(),
                self.ttl_wf(),
                self.ttl_of(key@) is Some,
                forall|j: int| 0 <= j < i ==> (#[trigger] self.expires_view()[j]).1 != key@,
            decreases n - i,
        {
            if str_eq(self.expires[i].1.as_str(), key) {
                proof {
                    assert(self.expires_view()[i as int].1 == key@);
                }
                return i;
            }
            proof {
                assert(self.expires_view()[i as int].1 == self.expires@[i as int].1@);
            }
            i += 1;
        }
        proof {
            crate::keyed::lemma_assoc_get_exists(self.ttls.model(), key@);
            let k = choose|k: int|
                0 <= k < self.ttls_model().len() && #[trigger] self.ttls_model()[k] == (
                    key@,
                    self.ttl_of(key@)->Some_0,
                );
            let w = choose|w: int|
                0 <= w < self.expires_view().len() && (#[trigger] self.expires_view()[w]) == (
                    self.ttls_model()[k].1,
                    self.ttls_model()[k].0,
                );
            assert(false);
        }
        0
    }

    /// Sets a key's expiration to `now` plus the duration, replacing any
    /// previous one; the instant saturates at the greatest representable.
    pub fn register_ttl(&mut self, key: &str, now: u64, ttl: u64)
        requires
            old(self).ttl_wf(),
        ensures
            final(self).ttl_wf(),
            final(self).ttl_of(key@) == Some(
                if ttl > u64::MAX - now {
                    u64::MAX
                } else {
                    (now + ttl) as u64
                },
            ),
            forall|k2: Seq<char>|
                k2 != key@ ==> #[trigger] final(self).ttl_of(k2) == old(self).ttl_of(k2),
            final(self).data == old(self).data,
    {
        let at: u64 = if ttl > u64::MAX - now {
            u64::MAX
        } else {
            now + ttl
        };
        let ghost prior = *self;
        let ghost pe = prior.expires_view();
        // drop the old inverse entry, if the key had one
        let old_at_opt: Option<u64> = match self.ttls.get(key) {
            Some(v) => Some(*v),
            None => None,
        };
        match old_at_opt {
            Some(old_at) => {
                let found = self.find_expire_entry(key);
                let _ = self.expires.remove(found);
                proof {
                    assert(self.expires_view() =~= pe.remove(found as int));
                    lemma_remove_inverse_wf(prior, *self, key@, found as int);
                }
            },
            None => {
                proof {
                    assert forall|j: int| 0 <= j < pe.len() implies (#[trigger] pe[j]).1
                        != key@ by {
                        if pe[j].1 == key@ {
                            assert(self.ttl_of(pe[j].1) == Some(pe[j].0));
                        }
                    }
                }
            },
        }
        // insert the new inverse entry at its ordered position
        let ghost mid = *self;
        let mut p: usize = 0;
        let n2 = self.expires.len();
        while p < n2 && self.expires[p].0 <= at
            invariant
                0 <= p <= n2,
                n2 == mid.expires_view().len(),
                *self == mid,
                forall|j: int| 0 <= j < p ==> (#[trigger] mid.expires_view()[j]).0 <= at,
            decreases n2 - p,
        {
            p += 1;
        }
        self.expires.insert(p, (at, String::from_str(key)));
        self.ttls.set(key, at);
        proof {
            assert(self.expires_view() =~= mid.expires_view().insert(p as int, (at, key@)));
            lemma_insert_inverse_wf(mid, *self, key@, at, p as int);
        }
    }

    /// The seconds left before a key expires; `None` where no expiration is
    /// set or it has already passed.
    pub fn ttl_remaining(&self, key: &str, now: u64) -> (r: Option<u64>)
        ensures
            r == (match self.ttl_of(key@) {
                Some(at) => if at >= now {
                    Some((at - now) as u64)
                } else {
                    None
                },
                None => None,
            }),
    {
        match self.ttls.get(key) {
            Some(at) => {
                if *at >= now {
                    Some(*at - now)
                } else {
                    None
                }
            },
            None => None,
        }
    }

    /// Whether a key is live at the given instant.
    pub fn is_live(&self, key: &str, now: u64) -> (r: bool)
        ensures
            r == self.live(key@, now),
    {
        match self.ttls.get(key) {
            Some(at) => *at >= now,
            None => true,
        }
    }

    /// Removes every key whose expiration lies strictly before `now` from
    /// the TTL views and from every typed map.
    pub fn expunge_expired(&mut self, now: u64)
        requires
            old(self).wf(),
        ensures
            final(self).wf(),
            forall|k: Seq<char>|
                #[trigger] final(self).ttl_of(k) == (match old(self).ttl_of(k) {
                    Some(at) => if at < now {
                        None
                    } else {
                        Some(at)
                    },
                    None => None,
                }),
            forall|k: Seq<char>|
                #[trigger] final(self).data.lists.spec_get(k) == (if old(self).live(k, now) {
                    old(self).data.lists.spec_get(k)
                } else {
                    None
                }),
            forall|k: Seq<char>|
                #[trigger] final(self).data.strings.spec_get(k) == (if old(self).live(k, now) {
                    old(self).data.strings.spec_get(k)
                } else {
                    None
                }),
            forall|k: Seq<char>|
                #[trigger] final(self).data.sorted_sets.spec_get(k) == (if old(self).live(
                    k,
                    now,
                ) {
                    old(self).data.sorted_sets.spec_get(k)
                } else {
                    None
                }),
            final(self).data.rev() == old(self).data.rev(),
    {
        loop
            invariant
                self.wf(),
                self.data.rev() == old(self).data.rev(),
                forall|k: Seq<char>|
                    #[trigger] self.ttl_of(k) is Some ==> self.ttl_of(k) == old(self).ttl_of(k),
                forall|k: Seq<char>|
                    old(self).live(k, now) ==> #[trigger] self.ttl_of(k) == old(self).ttl_of(k),
                forall|k: Seq<char>|
                    #[trigger] self.data.lists.spec_get(k) == (if old(self).live(k, now)
                        || self.ttl_of(k) is Some {
                        old(self).data.lists.spec_get(k)
                    } else {
                        None
                    }),
                forall|k: Seq<char>|
                    #[trigger] self.data.strings.spec_get(k) == (if old(self).live(k, now)
                        || self.ttl_of(k) is Some {
                        old(self).data.strings.spec_get(k)
                    } else {
                        None
                    }),
                forall|k: Seq<char>|
                    #[trigger] self.data.sorted_sets.spec_get(k) == (if old(self).live(k, now)
                        || self.ttl_of(k) is Some {
                        old(self).data.sorted_sets.spec_get(k)
                    } else {
                        None
                    }),
            ensures
                self.wf(),
                self.data.rev() == old(self).data.rev(),
                self.expires_view().len() == 0 || self.expires_view()[0].0 >= now,
                forall|k: Seq<char>|
                    #[trigger] self.ttl_of(k) is Some ==> self.ttl_of(k) == old(self).ttl_of(k),
                forall|k: Seq<char>|
                    old(self).live(k, now) ==> #[trigger] self.ttl_of(k) == old(self).ttl_of(k),
                forall|k: Seq<char>|
                    #[trigger] self.data.lists.spec_get(k) == (if old(self).live(k, now)
                        || self.ttl_of(k) is Some {
                        old(self).data.lists.spec_get(k)
                    } else {
                        None
                    }),
                forall|k: Seq<char>|
                    #[trigger] self.data.strings.spec_get(k) == (if old(self).live(k, now)
                        || self.ttl_of(k) is Some {
                        old(self).data.strings.spec_get(k)
                    } else {
                        None
                    }),
                forall|k: Seq<char>|
                    #[trigger] self.data.sorted_sets.spec_get(k) == (if old(self).live(k, now)
                        || self.ttl_of(k) is Some {
                        old(self).data.sorted_sets.spec_get(k)
                    } else {
                        None
                    }),
            decreases self.expires_view().len(),
        {
            if self.expires.len() == 0 {
                break ;
            }
            if self.expires[0].0 >= now {
                break ;
            }
            let ghost prior = *self;
            let entry = self.expires.remove(0);
            let key = entry.1;
            proof {
                assert(prior.expires_view()[0] == (entry.0, key@));
                assert(prior.ttl_of(key@) == Some(entry.0));
            }
            let _ = self.ttls.take(key.as_str());
            proof {
                assert(self.expires_view() =~= prior.expires_view().remove(0));
                lemma_remove_head_wf(prior, *self, key@);
            }
            let ghost mid2 = *self;
            self.data.expunge(key.as_str());
            proof {
                assert(self.expires == mid2.expires);
                assert(self.ttls == mid2.ttls);
                assert(self.expires_view() =~= mid2.expires_view());
                assert(self.ttls_model() == mid2.ttls_model());
                assert forall|k: Seq<char>| #[trigger] self.ttl_of(k) == mid2.ttl_of(k) by {
                    assert(self.ttls.spec_get(k) == mid2.ttls.spec_get(k));
                }
                assert(mid2.ttl_wf());
                assert(self.ttl_wf());
                assert(self.data.wf());
                assert(!old(self).live(key@, now));
                assert(self.ttl_of(key@) is None);
                assert forall|k: Seq<char>| #[trigger] self.ttl_of(k) is Some implies self.ttl_of(
                    k,
                ) == old(self).ttl_of(k) by {
                    if k != key@ {
                        assert(self.ttl_of(k) == prior.ttl_of(k));
                    }
                }
                assert forall|k: Seq<char>| old(self).live(k, now) implies #[trigger] self.ttl_of(
                    k,
                ) == old(self).ttl_of(k) by {
                    if k != key@ {
                        assert(self.ttl_of(k) == prior.ttl_of(k));
                    }
                }
                assert forall|k: Seq<char>| #[trigger] self.data.lists.spec_get(k) == (if old(
                    self,
                ).live(k, now) || self.ttl_of(k) is Some {
                    old(self).data.lists.spec_get(k)
                } else {
                    None
                }) by {
                    if k != key@ {
                        assert(self.data.lists.spec_get(k) == prior.data.lists.spec_get(k));
                        assert(self.ttl_of(k) == prior.ttl_of(k));
                    }
                }
                assert forall|k: Seq<char>| #[trigger] self.data.strings.spec_get(k) == (if old(
                    self,
                ).live(k, now) || self.ttl_of(k) is Some {
                    old(self).data.strings.spec_get(k)
                } else {
                    None
                }) by {
                    if k != key@ {
                        assert(self.data.strings.spec_get(k) == prior.data.strings.spec_get(k));
                        assert(self.ttl_of(k) == prior.ttl_of(k));
                    }
                }
                assert forall|k: Seq<char>| #[trigger] self.data.sorted_sets.spec_get(k) == (
                if old(self).live(k, now) || self.ttl_of(k) is Some {
                    old(self).data.sorted_sets.spec_get(k)
                } else {
                    None
                }) by {
                    if k != key@ {
                        assert(self.data.sorted_sets.spec_get(k)
                            == prior.data.sorted_sets.spec_get(k));
                        assert(self.ttl_of(k) == prior.ttl_of(k));
                    }
                }
            }
        }
        // once the head is late enough, every remaining instant is, so every
        // surviving binding is live
        proof {
            assert forall|k: Seq<char>| #[trigger] self.ttl_of(k) == (match old(self).ttl_of(k) {
                Some(at) => if at < now {
                    None
                } else {
                    Some(at)
                },
                None => None,
            }) by {
                match self.ttl_of(k) {
                    Some(at2) => {
                        crate::keyed::lemma_assoc_get_exists(self.ttls.model(), k);
                        let e = choose|e: int|
                            0 <= e < self.ttls_model().len() && #[trigger] self.ttls_model()[e]
                                == (k, at2);
                        let w = choose|w: int|
                            0 <= w < self.expires_view().len() && (
                            #[trigger] self.expires_view()[w]) == (at2, k);
                        if w > 0 {
                            assert(self.expires_view()[0].0 <= self.expires_view()[w].0);
                        }
                        assert(at2 >= now);
                    },
                    None => {
                        if old(self).live(k, now) {
                            assert(self.ttl_of(k) == old(self).ttl_of(k));
                        }
                    },
                }
            }
        }
    }
}

/// Two states with the same TTL map give every key the same expiration.
pub proof fn lemma_ttl_of_frame(a: Lifetimes, b: Lifetimes, k: Seq<char>)
    requires
        b.ttls == a.ttls,
    ensures
        b.ttl_of(k) == a.ttl_of(k),
{
}

/// A state whose expiry fields are unchanged keeps its TTL consistency,
/// whatever happened to the data underneath.
pub proof fn lemma_ttl_wf_frame(a: Lifetimes, b: Lifetimes)
    requires
        a.ttl_wf(),
        b.expires == a.expires,
        b.ttls == a.ttls,
    ensures
        b.ttl_wf(),
{
    assert(b.expires_view() =~= a.expires_view());
    assert(expiry_consistent(b.expires_view(), b.ttls) == expiry_consistent(
        a.expires_view(),
        a.ttls,
    ));
}

/// Removing one inverse entry of a key, before the map forgets it, keeps the
/// remaining views consistent once the map entry goes too; here the map is
/// still intact, so consistency holds for all remaining entries.
proof fn lemma_remove_inverse_wf(prior: Lifetimes, cur: Lifetimes, key: Seq<char>, at_idx: int)
    requires
        prior.ttl_wf(),
        0 <= at_idx < prior.expires_view().len(),
        prior.expires_view()[at_idx].1 == key,
        forall|j: int| 0 <= j < at_idx ==> (#[trigger] prior.expires_view()[j]).1 != key,
        cur.expires_view() == prior.expires_view().remove(at_idx),
        cur.ttls == prior.ttls,
    ensures
        cur.ttls.wf(),
        forall|i: int, j: int|
            0 <= i < j < cur.expires_view().len() ==> (#[trigger] cur.expires_view()[i]).0 <= (
            #[trigger] cur.expires_view()[j]).0,
        forall|i: int|
            0 <= i < cur.expires_view().len() ==> cur.ttl_of(
                (#[trigger] cur.expires_view()[i]).1,
            ) == Some(cur.expires_view()[i].0),
        forall|i: int, j: int|
            0 <= i < j < cur.expires_view().len() ==> (#[trigger] cur.expires_view()[i]).1 != (
            #[trigger] cur.expires_view()[j]).1,
        forall|i: int|
            0 <= i < cur.expires_view().len() ==> (#[trigger] cur.expires_view()[i]).1 != key,
        forall|k2: int|
            0 <= k2 < cur.ttls_model().len() && (#[trigger] cur.ttls_model()[k2]).0 != key
                ==> exists|i: int|
                0 <= i < cur.expires_view().len() && (#[trigger] cur.expires_view()[i]) == (
                    cur.ttls_model()[k2].1,
                    cur.ttls_model()[k2].0,
                ),
{
    let pe = prior.expires_view();
    let ne = cur.expires_view();
    assert forall|i: int, j: int|
        0 <= i < j < ne.len() implies (#[trigger] ne[i]).0 <= (#[trigger] ne[j]).0 by {
        let oi = if i < at_idx {
            i
        } else {
            i + 1
        };
        let oj = if j < at_idx {
            j
        } else {
            j + 1
        };
        assert(ne[i] == pe[oi]);
        assert(ne[j] == pe[oj]);
    }
    assert forall|i: int|
        0 <= i < ne.len() implies cur.ttl_of((#[trigger] ne[i]).1) == Some(ne[i].0) by {
        let oi = if i < at_idx {
            i
        } else {
            i + 1
        };
        assert(ne[i] == pe[oi]);
    }
    assert forall|i: int, j: int|
        0 <= i < j < ne.len() implies (#[trigger] ne[i]).1 != (#[trigger] ne[j]).1 by {
        let oi = if i < at_idx {
            i
        } else {
            i + 1
        };
        let oj = if j < at_idx {
            j
        } else {
            j + 1
        };
        assert(ne[i] == pe[oi]);
        assert(ne[j] == pe[oj]);
    }
    assert forall|i: int| 0 <= i < ne.len() implies (#[trigger] ne[i]).1 != key by {
        let oi = if i < at_idx {
            i
        } else {
            i + 1
        };
        assert(ne[i] == pe[oi]);
        if pe[oi].1 == key {
            // two inverse entries with the same key are the same entry
            if oi != at_idx {
                if oi < at_idx {
                    assert(pe[oi].1 != pe[at_idx].1);
                } else {
                    assert(pe[at_idx].1 != pe[oi].1);
                }
            }
        }
    }
    assert forall|k2: int|
        0 <= k2 < cur.ttls_model().len() && (#[trigger] cur.ttls_model()[k2]).0
            != key implies exists|i: int|
        0 <= i < ne.len() && (#[trigger] ne[i]) == (cur.ttls_model()[k2].1, cur.ttls_model()[k2].0) by {
        let w = choose|w: int|
            0 <= w < pe.len() && (#[trigger] pe[w]) == (
                prior.ttls_model()[k2].1,
                prior.ttls_model()[k2].0,
            );
        assert(w != at_idx);
        let nw = if w < at_idx {
            w
        } else {
            w - 1
        };
        assert(ne[nw] == pe[w]);
    }
}

/// Inserting a fresh inverse entry at its ordered place, after the map has
/// taken the binding, restores full consistency.
proof fn lemma_insert_inverse_wf(mid: Lifetimes, cur: Lifetimes, key: Seq<char>, at: u64, p: int)
    requires
        mid.ttls.wf(),
        forall|i: int, j: int|
            0 <= i < j < mid.expires_view().len() ==> (#[trigger] mid.expires_view()[i]).0 <= (
            #[trigger] mid.expires_view()[j]).0,
        forall|i: int|
            0 <= i < mid.expires_view().len() ==> mid.ttl_of(
                (#[trigger] mid.expires_view()[i]).1,
            ) == Some(mid.expires_view()[i].0),
        forall|i: int, j: int|
            0 <= i < j < mid.expires_view().len() ==> (#[trigger] mid.expires_view()[i]).1 != (
            #[trigger] mid.expires_view()[j]).1,
        forall|i: int|
            0 <= i < mid.expires_view().len() ==> (#[trigger] mid.expires_view()[i]).1 != key,
        forall|k2: int|
            0 <= k2 < mid.ttls_model().len() && (#[trigger] mid.ttls_model()[k2]).0 != key
                ==> exists|i: int|
                0 <= i < mid.expires_view().len() && (#[trigger] mid.expires_view()[i]) == (
                    mid.ttls_model()[k2].1,
                    mid.ttls_model()[k2].0,
                ),
        0 <= p <= mid.expires_view().len(),
        forall|j: int| 0 <= j < p ==> (#[trigger] mid.expires_view()[j]).0 <= at,
        p < mid.expires_view().len() ==> mid.expires_view()[p as int].0 > at,
        cur.expires_view() == mid.expires_view().insert(p, (at, key)),
        cur.ttls.wf(),
        cur.ttl_of(key) == Some(at),
        forall|k2: Seq<char>| k2 != key ==> #[trigger] cur.ttl_of(k2) == mid.ttl_of(k2),
        cur.ttls_model() == mid.ttls_model().push((key, at)) || (exists|i: int|
            {
                &&& 0 <= i < mid.ttls_model().len()
                &&& (#[trigger] mid.ttls_model()[i]).0 == key
                &&& cur.ttls_model() == mid.ttls_model().update(i, (key, at))
            }),
    ensures
        cur.ttl_wf(),
{
    let me = mid.expires_view();
    let ne = cur.expires_view();
    assert forall|i: int, j: int|
        0 <= i < j < ne.len() implies (#[trigger] ne[i]).0 <= (#[trigger] ne[j]).0 by {
        let oi = if i < p {
            i
        } else {
            i - 1
        };
        let oj = if j < p {
            j
        } else {
            j - 1
        };
        if i != p && j != p {
            assert(ne[i] == me[oi]);
            assert(ne[j] == me[oj]);
            assert(me[oi].0 <= me[oj].0);
        } else if i == p {
            assert(ne[j] == me[oj]);
            assert(oj >= p);
            if oj == p {
                assert(me[p].0 > at);
            } else {
                assert(me[p].0 <= me[oj].0);
            }
        } else {
            assert(ne[i] == me[oi]);
            assert(oi < p);
        }
    }
    assert forall|i: int|
        0 <= i < ne.len() implies cur.ttl_of((#[trigger] ne[i]).1) == Some(ne[i].0) by {
        if i == p {
        } else {
            let oi = if i < p {
                i
            } else {
                i - 1
            };
            assert(ne[i] == me[oi]);
            assert(me[oi].1 != key);
            assert(cur.ttl_of(me[oi].1) == mid.ttl_of(me[oi].1));
        }
    }
    assert forall|i: int, j: int|
        0 <= i < j < ne.len() implies (#[trigger] ne[i]).1 != (#[trigger] ne[j]).1 by {
        if i == p {
            let oj = j - 1;
            assert(ne[j] == me[oj]);
            assert(me[oj].1 != key);
        } else if j == p {
            let oi = i;
            assert(ne[i] == me[oi]);
            assert(me[oi].1 != key);
        } else {
            let oi = if i < p {
                i
            } else {
                i - 1
            };
            let oj = if j < p {
                j
            } else {
                j - 1
            };
            assert(ne[i] == me[oi]);
            assert(ne[j] == me[oj]);
            assert(me[oi].1 != me[oj].1);
        }
    }
    assert forall|k2: int| 0 <= k2 < cur.ttls_model().len() implies exists|i: int|
        0 <= i < ne.len() && (#[trigger] ne[i]) == ((#[trigger] cur.ttls_model()[k2]).1, cur.ttls_model()[k2].0) by {
        if cur.ttls_model()[k2].0 == key {
            // the map has unique keys, so this entry carries the new instant
            assert(cur.ttl_of(key) == Some(at));
            crate::keyed::lemma_assoc_get_at_unique(cur.ttls.model(), key, k2);
            assert(ne[p] == (at, key));
            assert(ne[p] == (cur.ttls_model()[k2].1, cur.ttls_model()[k2].0));
        } else {
            if cur.ttls_model() == mid.ttls_model().push((key, at)) {
                assert(cur.ttls_model()[k2] == mid.ttls_model()[k2]);
            } else {
                let u = choose|u: int|
                    {
                        &&& 0 <= u < mid.ttls_model().len()
                        &&& (#[trigger] mid.ttls_model()[u]).0 == key
                        &&& cur.ttls_model() == mid.ttls_model().update(u, (key, at))
                    };
                assert(k2 != u);
                assert(cur.ttls_model()[k2] == mid.ttls_model()[k2]);
            }
            let w = choose|w: int|
                0 <= w < me.len() && (#[trigger] me[w]) == (
                    mid.ttls_model()[k2].1,
                    mid.ttls_model()[k2].0,
                );
            let nw = if w < p {
                w
            } else {
                w + 1
            };
            assert(ne[nw] == me[w]);
        }
    }
}

/// Dropping the head inverse entry together with its map binding keeps the
/// views consistent.
proof fn lemma_remove_head_wf(prior: Lifetimes, cur: Lifetimes, key: Seq<char>)
    requires
        prior.ttl_wf(),
        prior.expires_view().len() > 0,
        prior.expires_view()[0].1 == key,
        cur.expires_view() == prior.expires_view().remove(0),
        cur.ttls.wf(),
        cur.ttl_of(key) is None,
        forall|k2: Seq<char>| k2 != key ==> #[trigger] cur.ttl_of(k2) == prior.ttl_of(k2),
        cur.ttls_model() == prior.ttls_model() || (exists|i: int|
            {
                &&& 0 <= i < prior.ttls_model().len()
                &&& (#[trigger] prior.ttls_model()[i]) == (
                    key,
                    prior.ttl_of(key)->Some_0,
                )
                &&& cur.ttls_model() == prior.ttls_model().remove(i)
            }),
    ensures
        cur.ttl_wf(),
{
    let pe = prior.expires_view();
    let ne = cur.expires_view();
    assert(pe[0].1 == key);
    assert(prior.ttl_of(key) == Some(pe[0].0));
    assert forall|i: int| 0 <= i < ne.len() implies (#[trigger] ne[i]).1 != key by {
        assert(ne[i] == pe[i + 1]);
        assert(pe[0].1 != pe[i + 1].1);
    }
    assert forall|i: int, j: int|
        0 <= i < j < ne.len() implies (#[trigger] ne[i]).0 <= (#[trigger] ne[j]).0 by {
        assert(ne[i] == pe[i + 1]);
        assert(ne[j] == pe[j + 1]);
    }
    assert forall|i: int|
        0 <= i < ne.len() implies cur.ttl_of((#[trigger] ne[i]).1) == Some(ne[i].0) by {
        assert(ne[i] == pe[i + 1]);
        assert(ne[i].1 != key);
        assert(cur.ttl_of(pe[i + 1].1) == prior.ttl_of(pe[i + 1].1));
    }
    assert forall|i: int, j: int|
        0 <= i < j < ne.len() implies (#[trigger] ne[i]).1 != (#[trigger] ne[j]).1 by {
        assert(ne[i] == pe[i + 1]);
        assert(ne[j] == pe[j + 1]);
    }
    assert forall|k2: int| 0 <= k2 < cur.ttls_model().len() implies exists|i: int|
        0 <= i < ne.len() && (#[trigger] ne[i]) == ((#[trigger] cur.ttls_model()[k2]).1, cur.ttls_model()[k2].0) by {
        if cur.ttls_model() == prior.ttls_model() {
            // the key had no map entry, so every entry is another key's
            let w = choose|w: int|
                0 <= w < pe.len() && (#[trigger] pe[w]) == (
                    prior.ttls_model()[k2].1,
                    prior.ttls_model()[k2].0,
                );
            assert(cur.ttl_of(prior.ttls_model()[k2].0) is Some) by {
                if prior.ttls_model()[k2].0 == key {
                    crate::keyed::lemma_assoc_get_at_unique(prior.ttls.model(), key, k2);
                    assert(false);
                }
            }
            assert(w != 0) by {
                if w == 0 {
                    assert(prior.ttls_model()[k2].0 == key);
                    crate::keyed::lemma_assoc_get_at_unique(prior.ttls.model(), key, k2);
                }
            }
            assert(ne[w - 1] == pe[w]);
        } else {
            let u = choose|u: int|
                {
                    &&& 0 <= u < prior.ttls_model().len()
                    &&& (#[trigger] prior.ttls_model()[u]) == (key, prior.ttl_of(key)->Some_0)
                    &&& cur.ttls_model() == prior.ttls_model().remove(u)
                };
            let ok2 = if k2 < u {
                k2
            } else {
                k2 + 1
            };
            assert(cur.ttls_model()[k2] == prior.ttls_model()[ok2]);
            assert(prior.ttls_model()[ok2].0 != key) by {
                if ok2 != u {
                    if ok2 < u {
                        assert(prior.ttls_model()[ok2].0 != prior.ttls_model()[u].0);
                    } else {
                        assert(prior.ttls_model()[u].0 != prior.ttls_model()[ok2].0);
                    }
                }
            }
            let w = choose|w: int|
                0 <= w < pe.len() && (#[trigger] pe[w]) == (
                    prior.ttls_model()[ok2].1,
                    prior.ttls_model()[ok2].0,
                );
            assert(w != 0);
            assert(ne[w - 1] == pe[w]);
        }
    }
}

} // verus!
