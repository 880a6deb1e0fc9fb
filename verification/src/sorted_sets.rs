//! Sorted sets: one structure keeps a member-to-score map and a
//! score-ordered bucket list in lockstep.

use vstd::prelude::*;

verus! {

use crate::keyed::AssocList;
use crate::score::Score;
use crate::resp::strings_views;
use crate::text::{lex_lt, str_eq, str_lt};
use vstd::string::StringExecFns;

/// One member with its score and its rank in the set.
pub struct MemberEntry {
    pub rank: usize,
    pub score: Score,
    pub member: String,
}

/// The two-index sorted set: a map from member to score, and buckets of
/// members per score, ordered by score and lexicographically within.
pub struct OrderedScores {
    member_to_score: AssocList<Score>,
    score_to_members: Vec<(Score, Vec<String>)>,
}

impl OrderedScores {
    /// The buckets: each score with its members, in storage order.
    pub closed spec fn buckets(&self) -> Seq<(int, Seq<Seq<char>>)> {
        Seq::new(
            self.score_to_members@.len(),
            |i: int|
                (
                    self.score_to_members@[i].0.units as int,
                    strings_views(self.score_to_members@[i].1@),
                ),
        )
    }

    /// The score bound to a member.
    pub closed spec fn member_score(&self, m: Seq<char>) -> Option<Score> {
        self.member_to_score.spec_get(m)
    }

    /// How many members the set holds.
    pub closed spec fn member_count(&self) -> int {
        self.member_to_score.model().len() as int
    }

    /// Both indices are consistent: buckets are strictly ordered by score and
    /// lexicographically within, none is empty, every bucket member carries
    /// that bucket's score in the map, and every mapped member sits in some
    /// bucket under its score.
    pub open spec fn wf(&self) -> bool {
        &&& self.member_to_score_wf()
        &&& (forall|i: int, j: int|
            0 <= i < j < self.buckets().len() ==> (#[trigger] self.buckets()[i]).0 < (
            #[trigger] self.buckets()[j]).0)
        &&& (forall|i: int|
            0 <= i < self.buckets().len() ==> (#[trigger] self.buckets()[i]).1.len() >= 1)
        &&& (forall|i: int, a: int, b: int|
            #![trigger self.buckets()[i].1[a], self.buckets()[i].1[b]]
            0 <= i < self.buckets().len() && 0 <= a < b < self.buckets()[i].1.len() ==> lex_lt(
                self.buckets()[i].1[a],
                self.buckets()[i].1[b],
            ))
        &&& (forall|i: int, a: int|
            #![trigger self.buckets()[i].1[a]]
            0 <= i < self.buckets().len() && 0 <= a < self.buckets()[i].1.len()
                ==> match self.member_score(self.buckets()[i].1[a]) {
                Some(sc) => sc.units as int == self.buckets()[i].0,
                None => false,
            })
        &&& (forall|k: int|
            0 <= k < self.members_model().len() ==> exists|i: int, a: int|
                #![trigger self.buckets()[i].1[a]]
                0 <= i < self.buckets().len() && 0 <= a < self.buckets()[i].1.len()
                    && self.buckets()[i].1[a] == (#[trigger] self.members_model()[k]).0
                    && self.buckets()[i].0 == self.members_model()[k].1.units as int)
        &&& (forall|k: int|
            0 <= k < self.members_model().len() ==> (#[trigger] self.members_model()[k]).1.wf())
    }

    /// The raw member map entries.
    pub closed spec fn members_model(&self) -> Seq<(Seq<char>, Score)> {
        self.member_to_score.model()
    }

    /// The member map has unique keys.
    pub closed spec fn member_to_score_wf(&self) -> bool {
        self.member_to_score.wf()
    }

    /// An empty sorted set.
    pub fn new() -> (r: OrderedScores)
        ensures
            r.wf(),
            r.member_count() == 0,
            forall|m: Seq<char>| r.member_score(m) is None,
            r.buckets() == Seq::<(int, Seq<Seq<char>>)>::empty(),
    {
        let r = OrderedScores {
            member_to_score: AssocList::new(),
            score_to_members: Vec::new(),
        };
        proof {
            assert(r.buckets() =~= Seq::<(int, Seq<Seq<char>>)>::empty());
            assert forall|m: Seq<char>| r.member_score(m) is None by {
                crate::keyed::lemma_assoc_get_none(r.member_to_score.model(), m);
            }
        }
        r
    }

    /// The position of the bucket holding `units`, or where one would go.
    fn find_bucket(&self, units: i128) -> (r: Result<usize, usize>)
        requires
            self.wf(),
        ensures
            match r {
                Ok(i) => i < self.buckets().len() && self.buckets()[i as int].0 == units as int,
                Err(i) => {
                    &&& i <= self.buckets().len()
                    &&& forall|j: int|
                        0 <= j < i ==> (#[trigger] self.buckets()[j]).0 < units as int
                    &&& forall|j: int|
                        i <= j < self.buckets().len() ==> (#[trigger] self.buckets()[j]).0
                            > units as int
                },
            },
    {
        let n = self.score_to_members.len();
        let mut i: usize = 0;
        while i < n
            invariant
                0 <= i <= n,
                n == self.buckets().len(),
                n == self.score_to_members@.len(),
                self.wf(),
                forall|j: int| 0 <= j < i ==> (#[trigger] self.buckets()[j]).0 < units as int,
            decreases n - i,
        {
            let sc = self.score_to_members[i].0;
            if sc.units == units {
                return Ok(i);
            }
            if sc.units > units {
                proof {
                    assert forall|j: int|
                        i <= j < self.buckets().len() implies (#[trigger] self.buckets()[j]).0
                        > units as int by {
                        if j > i {
                            assert(self.buckets()[i as int].0 < self.buckets()[j].0);
                        }
                    }
                }
                return Err(i);
            }
            i += 1;
        }
        Err(n)
    }

    /// The position of a member in a sorted bucket, or where it would go.
    fn member_position(members: &Vec<String>, member: &str) -> (r: Result<usize, usize>)
        requires
            forall|a: int, b: int|
                0 <= a < b < members@.len() ==> lex_lt(
                    strings_views(members@)[a],
                    strings_views(members@)[b],
                ),
        ensures
            match r {
                Ok(i) => i < members@.len() && strings_views(members@)[i as int] == member@,
                Err(i) => {
                    &&& i <= members@.len()
                    &&& forall|a: int|
                        0 <= a < i ==> lex_lt(#[trigger] strings_views(members@)[a], member@)
                    &&& forall|a: int|
                        i <= a < members@.len() ==> lex_lt(
                            member@,
                            #[trigger] strings_views(members@)[a],
                        )
                },
            },
    {
        let n = members.len();
        let mut i: usize = 0;
        while i < n
            invariant
                0 <= i <= n,
                n == members@.len(),
                forall|a: int, b: int|
                    0 <= a < b < members@.len() ==> lex_lt(
                        strings_views(members@)[a],
                        strings_views(members@)[b],
                    ),
                forall|a: int| 0 <= a < i ==> lex_lt(#[trigger] strings_views(members@)[a], member@),
            decreases n - i,
        {
            if str_eq(members[i].as_str(), member) {
                proof {
                    assert(strings_views(members@)[i as int] == members@[i as int]@);
                }
                return Ok(i);
            }
            if !str_lt(members[i].as_str(), member) {
                proof {
                    lemma_lex_connex(members@[i as int]@, member@);
                    assert(strings_views(members@)[i as int] == members@[i as int]@);
                    assert(lex_lt(member@, strings_views(members@)[i as int]));
                    assert forall|a: int|
                        i <= a < members@.len() implies lex_lt(
                        member@,
                        #[trigger] strings_views(members@)[a],
                    ) by {
                        if a > i {
                            lemma_lex_trans(
                                member@,
                                strings_views(members@)[i as int],
                                strings_views(members@)[a],
                            );
                        }
                    }
                }
                return Err(i);
            }
            proof {
                assert(strings_views(members@)[i as int] == members@[i as int]@);
            }
            i += 1;
        }
        Err(n)
    }
}

/// Two unequal strings compare one way or the other.
#[verifier::spinoff_prover]
pub proof fn lemma_lex_connex(a: Seq<char>, b: Seq<char>)
    ensures
        lex_lt(a, b) || lex_lt(b, a) || a == b,
    decreases a.len(),
{
    if b.len() != 0 && a.len() != 0 {
        if a[0] == b[0] {
            lemma_lex_connex(a.drop_first(), b.drop_first());
            if a.drop_first() == b.drop_first() {
                assert forall|i: int| 0 <= i < a.len() implies a[i] == b[i] by {
                    if i > 0 {
                        assert(a.drop_first()[i - 1] == a[i]);
                        assert(b.drop_first()[i - 1] == b[i]);
                        assert(a.drop_first()[i - 1] == b.drop_first()[i - 1]);
                    }
                }
                assert(a.drop_first().len() == b.drop_first().len());
                assert(a.len() == a.drop_first().len() + 1);
                assert(b.len() == b.drop_first().len() + 1);
                assert(a.len() == b.len());
                assert(a =~= b);
            }
        }
    } else if a.len() == 0 && b.len() == 0 {
        assert(a =~= b);
    }
}

/// Lexicographic order is transitive.
pub proof fn lemma_lex_trans(a: Seq<char>, b: Seq<char>, c: Seq<char>)
    requires
        lex_lt(a, b),
        lex_lt(b, c),
    ensures
        lex_lt(a, c),
    decreases a.len(),
{
    if a.len() != 0 {
        // b and c are nonempty as well
        if a[0] == b[0] && b[0] == c[0] {
            lemma_lex_trans(a.drop_first(), b.drop_first(), c.drop_first());
        }
    }
}

/// Order excludes equality.
pub proof fn lemma_lex_irrefl(a: Seq<char>)
    ensures
        !lex_lt(a, a),
    decreases a.len(),
{
    if a.len() > 0 {
        lemma_lex_irrefl(a.drop_first());
    }
}


impl OrderedScores {
    /// Takes a member out of both indices; a no-op when it is absent.
    pub fn detach(&mut self, member: &str) -> (removed: bool)
        requires
            old(self).wf(),
        ensures
            final(self).wf(),
            final(self).member_score(member@) is None,
            forall|m2: Seq<char>|
                m2 != member@ ==> #[trigger] final(self).member_score(m2) == old(
                    self,
                ).member_score(m2),
            removed == (old(self).member_score(member@) is Some),
            final(self).member_count() == old(self).member_count() - (if removed {
                1int
            } else {
                0int
            }),
    {
        let sc_opt: Option<Score> = match self.member_to_score.get(member) {
            Some(s) => Some(*s),
            None => None,
        };
        match sc_opt {
            None => false,
            Some(sc) => {
                let ghost prior = *self;
                let ghost pb = prior.buckets();
                proof {
                    crate::keyed::lemma_assoc_get_exists(prior.members_model(), member@);
                }
                let ghost k0 = choose|k: int|
                    0 <= k < prior.members_model().len() && #[trigger] prior.members_model()[k]
                        == (member@, sc);
                // the map entry has a bucket occurrence
                let ghost (wi, wa) = choose|i: int, a: int|
                    #![trigger pb[i].1[a]]
                    0 <= i < pb.len() && 0 <= a < pb[i].1.len() && pb[i].1[a]
                        == prior.members_model()[k0].0 && pb[i].0 == prior.members_model()[k0].1.units as int;
                let bi = match self.find_bucket(sc.units) {
                    Ok(i) => i,
                    Err(e) => {
                        proof {
                            assert(pb[wi].0 == sc.units as int);
                            assert(false);
                        }
                        e
                    },
                };
                proof {
                    // buckets carry distinct scores, so the bucket found is the witness
                    if wi != bi {
                        if wi < bi {
                            assert(pb[wi].0 < pb[bi as int].0);
                        } else {
                            assert(pb[bi as int].0 < pb[wi].0);
                        }
                        assert(false);
                    }
                    assert forall|a: int, b: int|
                        0 <= a < b < strings_views(
                            self.score_to_members@[bi as int].1@,
                        ).len() implies lex_lt(
                        strings_views(self.score_to_members@[bi as int].1@)[a],
                        strings_views(self.score_to_members@[bi as int].1@)[b],
                    ) by {
                        assert(lex_lt(pb[bi as int].1[a], pb[bi as int].1[b]));
                    }
                }
                let mi = match Self::member_position(&self.score_to_members[bi].1, member) {
                    Ok(i) => i,
                    Err(e) => {
                        proof {
                            if wa < e {
                                assert(lex_lt(pb[bi as int].1[wa], member@));
                            } else {
                                assert(lex_lt(member@, pb[bi as int].1[wa]));
                            }
                            lemma_lex_irrefl(member@);
                            assert(false);
                        }
                        e
                    },
                };
                let mut pair = self.score_to_members.remove(bi);
                let _ = pair.1.remove(mi);
                let kept = pair.1.len() > 0;
                if kept {
                    self.score_to_members.insert(bi, pair);
                }
                let _ = self.member_to_score.take(member);
                proof {
                    let nb = self.buckets();
                    let oldbucket = pb[bi as int].1;
                    if kept {
                        assert(nb =~= pb.update(
                            bi as int,
                            (pb[bi as int].0, oldbucket.remove(mi as int)),
                        )) by {
                            assert forall|x: int| 0 <= x < nb.len() implies nb[x] == pb.update(
                                bi as int,
                                (pb[bi as int].0, oldbucket.remove(mi as int)),
                            )[x] by {
                                if x == bi {
                                    assert(strings_views(self.score_to_members@[x].1@)
                                        =~= oldbucket.remove(mi as int));
                                }
                            }
                        }
                    } else {
                        assert(nb =~= pb.remove(bi as int));
                        assert(oldbucket.len() == 1);
                    }
                    lemma_detach_wf(prior, *self, member@, sc, bi as int, mi as int, k0);
                }
                true
            },
        }
    }
}

/// After a member leaves its bucket and the map, the structure is again
/// consistent.
proof fn lemma_detach_wf(
    prior: OrderedScores,
    cur: OrderedScores,
    member: Seq<char>,
    sc: Score,
    bi: int,
    mi: int,
    k0: int,
)
    requires
        prior.wf(),
        0 <= k0 < prior.members_model().len(),
        prior.members_model()[k0] == (member, sc),
        0 <= bi < prior.buckets().len(),
        0 <= mi < prior.buckets()[bi].1.len(),
        prior.buckets()[bi].1[mi] == member,
        prior.buckets()[bi].0 == sc.units as int,
        cur.members_model() == prior.members_model().remove(k0),
        cur.member_to_score_wf(),
        (if prior.buckets()[bi].1.len() > 1 {
            cur.buckets() == prior.buckets().update(
                bi,
                (prior.buckets()[bi].0, prior.buckets()[bi].1.remove(mi)),
            )
        } else {
            cur.buckets() == prior.buckets().remove(bi)
        }),
        forall|m2: Seq<char>|
            m2 != member ==> #[trigger] cur.member_score(m2) == prior.member_score(m2),
        cur.member_score(member) is None,
    ensures
        cur.wf(),
{
    let pb = prior.buckets();
    let nb = cur.buckets();
    let kept = pb[bi].1.len() > 1;
    // map keys are unique, so no other map entry names this member
    assert forall|k: int|
        0 <= k < prior.members_model().len() && k != k0 implies (
    #[trigger] prior.members_model()[k]).0 != member by {
        if k < k0 {
            assert(prior.members_model()[k].0 != prior.members_model()[k0].0);
        } else {
            assert(prior.members_model()[k0].0 != prior.members_model()[k].0);
        }
    }
    // the member occurs in no bucket position other than (bi, mi)
    assert forall|i: int, a: int|
        #![trigger pb[i].1[a]]
        0 <= i < pb.len() && 0 <= a < pb[i].1.len() && !(i == bi && a == mi) implies pb[i].1[a]
        != member by {
        if pb[i].1[a] == member {
            assert(prior.member_score(member) == Some(sc));
            assert(pb[i].0 == sc.units as int);
            if i != bi {
                if i < bi {
                    assert(pb[i].0 < pb[bi].0);
                } else {
                    assert(pb[bi].0 < pb[i].0);
                }
            } else {
                if a < mi {
                    assert(lex_lt(pb[i].1[a], pb[i].1[mi]));
                } else {
                    assert(lex_lt(pb[i].1[mi], pb[i].1[a]));
                }
                lemma_lex_irrefl(member);
            }
        }
    }
    if kept {
        // scores are unchanged positionwise
        assert forall|i: int, j: int| 0 <= i < j < nb.len() implies (#[trigger] nb[i]).0 < (
        #[trigger] nb[j]).0 by {
            assert(nb[i].0 == pb[i].0);
            assert(nb[j].0 == pb[j].0);
        }
        assert forall|i: int| 0 <= i < nb.len() implies (#[trigger] nb[i]).1.len() >= 1 by {
            if i == bi {
                assert(pb[i].1.len() > 1);
            }
        }
        assert forall|i: int, a: int, b: int|
            #![trigger nb[i].1[a], nb[i].1[b]]
            0 <= i < nb.len() && 0 <= a < b < nb[i].1.len() implies lex_lt(
            nb[i].1[a],
            nb[i].1[b],
        ) by {
            if i == bi {
                let oa = if a < mi {
                    a
                } else {
                    a + 1
                };
                let ob = if b < mi {
                    b
                } else {
                    b + 1
                };
                assert(nb[i].1[a] == pb[bi].1[oa]);
                assert(nb[i].1[b] == pb[bi].1[ob]);
                assert(lex_lt(pb[bi].1[oa], pb[bi].1[ob]));
            } else {
                assert(lex_lt(pb[i].1[a], pb[i].1[b]));
            }
        }
        assert forall|i: int, a: int|
            #![trigger nb[i].1[a]]
            0 <= i < nb.len() && 0 <= a < nb[i].1.len() implies match cur.member_score(
            nb[i].1[a],
        ) {
            Some(s2) => s2.units as int == nb[i].0,
            None => false,
        } by {
            let (oi, oa) = if i == bi {
                (
                    i,
                    if a < mi {
                        a
                    } else {
                        a + 1
                    },
                )
            } else {
                (i, a)
            };
            assert(nb[i].1[a] == pb[oi].1[oa]);
            assert(pb[oi].1[oa] != member);
            assert(cur.member_score(pb[oi].1[oa]) == prior.member_score(pb[oi].1[oa]));
            assert(match prior.member_score(pb[oi].1[oa]) {
                Some(s2) => s2.units as int == pb[oi].0,
                None => false,
            });
            assert(nb[i].0 == pb[oi].0);
        }
        assert forall|k: int| 0 <= k < cur.members_model().len() implies exists|i: int, a: int|
            #![trigger nb[i].1[a]]
            0 <= i < nb.len() && 0 <= a < nb[i].1.len() && nb[i].1[a] == (
            #[trigger] cur.members_model()[k]).0 && nb[i].0 == cur.members_model()[k].1.units as int by {
            let ok = if k < k0 {
                k
            } else {
                k + 1
            };
            assert(cur.members_model()[k] == prior.members_model()[ok]);
            let m2 = prior.members_model()[ok].0;
            let (i0, a0) = choose|i: int, a: int|
                #![trigger pb[i].1[a]]
                0 <= i < pb.len() && 0 <= a < pb[i].1.len() && pb[i].1[a] == (
                #[trigger] prior.members_model()[ok]).0 && pb[i].0 == prior.members_model()[ok].1.units as int;
            assert(m2 != member);
            assert(!(i0 == bi && a0 == mi));
            if i0 == bi {
                let na = if a0 < mi {
                    a0
                } else {
                    a0 - 1
                };
                assert(nb[i0].1[na] == pb[i0].1[a0]);
                assert(nb[i0].0 == pb[i0].0);
                assert(nb[i0].1[na] == cur.members_model()[k].0 && nb[i0].0
                    == cur.members_model()[k].1.units as int);
            } else {
                assert(nb[i0].1[a0] == pb[i0].1[a0]);
                assert(nb[i0].0 == pb[i0].0);
                assert(nb[i0].1[a0] == cur.members_model()[k].0 && nb[i0].0
                    == cur.members_model()[k].1.units as int);
            }
        }
        assert forall|k: int| 0 <= k < cur.members_model().len() implies (
        #[trigger] cur.members_model()[k]).1.wf() by {
            let ok = if k < k0 {
                k
            } else {
                k + 1
            };
            assert(cur.members_model()[k] == prior.members_model()[ok]);
            assert(prior.members_model()[ok].1.wf());
        }
    } else {
        // the bucket went away entirely
        assert(pb[bi].1.len() == 1);
        assert(mi == 0);
        assert forall|i: int, j: int| 0 <= i < j < nb.len() implies (#[trigger] nb[i]).0 < (
        #[trigger] nb[j]).0 by {
            let oi = if i < bi {
                i
            } else {
                i + 1
            };
            let oj = if j < bi {
                j
            } else {
                j + 1
            };
            assert(nb[i].0 == pb[oi].0);
            assert(nb[j].0 == pb[oj].0);
            assert(pb[oi].0 < pb[oj].0);
        }
        assert forall|i: int| 0 <= i < nb.len() implies (#[trigger] nb[i]).1.len() >= 1 by {
            let oi = if i < bi {
                i
            } else {
                i + 1
            };
            assert(nb[i] == pb[oi]);
        }
        assert forall|i: int, a: int, b: int|
            #![trigger nb[i].1[a], nb[i].1[b]]
            0 <= i < nb.len() && 0 <= a < b < nb[i].1.len() implies lex_lt(
            nb[i].1[a],
            nb[i].1[b],
        ) by {
            let oi = if i < bi {
                i
            } else {
                i + 1
            };
            assert(nb[i] == pb[oi]);
            assert(lex_lt(pb[oi].1[a], pb[oi].1[b]));
        }
        assert forall|i: int, a: int|
            #![trigger nb[i].1[a]]
            0 <= i < nb.len() && 0 <= a < nb[i].1.len() implies match cur.member_score(
            nb[i].1[a],
        ) {
            Some(s2) => s2.units as int == nb[i].0,
            None => false,
        } by {
            let oi = if i < bi {
                i
            } else {
                i + 1
            };
            assert(nb[i] == pb[oi]);
            assert(pb[oi].1[a] != member);
            assert(cur.member_score(pb[oi].1[a]) == prior.member_score(pb[oi].1[a]));
            assert(match prior.member_score(pb[oi].1[a]) {
                Some(s2) => s2.units as int == pb[oi].0,
                None => false,
            });
        }
        assert forall|k: int| 0 <= k < cur.members_model().len() implies exists|i: int, a: int|
            #![trigger nb[i].1[a]]
            0 <= i < nb.len() && 0 <= a < nb[i].1.len() && nb[i].1[a] == (
            #[trigger] cur.members_model()[k]).0 && nb[i].0 == cur.members_model()[k].1.units as int by {
            let ok = if k < k0 {
                k
            } else {
                k + 1
            };
            assert(cur.members_model()[k] == prior.members_model()[ok]);
            let (i0, a0) = choose|i: int, a: int|
                #![trigger pb[i].1[a]]
                0 <= i < pb.len() && 0 <= a < pb[i].1.len() && pb[i].1[a] == (
                #[trigger] prior.members_model()[ok]).0 && pb[i].0 == prior.members_model()[ok].1.units as int;
            assert(prior.members_model()[ok].0 != member);
            assert(!(i0 == bi && a0 == mi));
            assert(i0 != bi);
            let ni = if i0 < bi {
                i0
            } else {
                i0 - 1
            };
            assert(nb[ni] == pb[i0]);
            assert(nb[ni].1[a0] == cur.members_model()[k].0 && nb[ni].0 == cur.members_model()[k].1.units as int);
        }
        assert forall|k: int| 0 <= k < cur.members_model().len() implies (
        #[trigger] cur.members_model()[k]).1.wf() by {
            let ok = if k < k0 {
                k
            } else {
                k + 1
            };
            assert(cur.members_model()[k] == prior.members_model()[ok]);
            assert(prior.members_model()[ok].1.wf());
        }
    }
}


impl OrderedScores {
    /// Binds an absent member to a score, in both indices.
    pub fn attach(&mut self, new_score: Score, member: &str)
        requires
            old(self).wf(),
            old(self).member_score(member@) is None,
            new_score.wf(),
        ensures
            final(self).wf(),
            final(self).member_score(member@) == Some(new_score),
            forall|m2: Seq<char>|
                m2 != member@ ==> #[trigger] final(self).member_score(m2) == old(
                    self,
                ).member_score(m2),
            final(self).member_count() == old(self).member_count() + 1,
    {
        let ghost prior = *self;
        let ghost pb = prior.buckets();
        // the member is in no bucket, else the map would know it
        proof {
            assert forall|i: int, a: int|
                #![trigger pb[i].1[a]]
                0 <= i < pb.len() && 0 <= a < pb[i].1.len() implies pb[i].1[a] != member@ by {
                if pb[i].1[a] == member@ {
                    assert(prior.member_score(member@) is Some);
                }
            }
        }
        match self.find_bucket(new_score.units) {
            Ok(bi) => {
                proof {
                    assert forall|a: int, b: int|
                        0 <= a < b < strings_views(
                            self.score_to_members@[bi as int].1@,
                        ).len() implies lex_lt(
                        strings_views(self.score_to_members@[bi as int].1@)[a],
                        strings_views(self.score_to_members@[bi as int].1@)[b],
                    ) by {
                        assert(lex_lt(pb[bi as int].1[a], pb[bi as int].1[b]));
                    }
                }
                let mi = match Self::member_position(&self.score_to_members[bi].1, member) {
                    Err(p) => p,
                    Ok(a) => {
                        proof {
                            assert(pb[bi as int].1[a as int] == member@);
                            assert(false);
                        }
                        a
                    },
                };
                let mut pair = self.score_to_members.remove(bi);
                pair.1.insert(mi, String::from_str(member));
                self.score_to_members.insert(bi, pair);
                self.member_to_score.set(member, new_score);
                proof {
                    let nb = self.buckets();
                    assert(nb =~= pb.update(
                        bi as int,
                        (pb[bi as int].0, pb[bi as int].1.insert(mi as int, member@)),
                    )) by {
                        assert forall|x: int| 0 <= x < nb.len() implies nb[x] == pb.update(
                            bi as int,
                            (pb[bi as int].0, pb[bi as int].1.insert(mi as int, member@)),
                        )[x] by {
                            if x == bi {
                                assert(strings_views(self.score_to_members@[x].1@)
                                    =~= pb[bi as int].1.insert(mi as int, member@));
                            }
                        }
                    }
                    lemma_attach_wf(prior, *self, member@, new_score, bi as int, mi as int);
                }
            },
            Err(p) => {
                let mut fresh: Vec<String> = Vec::new();
                fresh.push(String::from_str(member));
                self.score_to_members.insert(p, (new_score, fresh));
                self.member_to_score.set(member, new_score);
                proof {
                    let nb = self.buckets();
                    assert(nb =~= pb.insert(
                        p as int,
                        (new_score.units as int, seq![member@]),
                    )) by {
                        assert forall|x: int| 0 <= x < nb.len() implies nb[x] == pb.insert(
                            p as int,
                            (new_score.units as int, seq![member@]),
                        )[x] by {
                            if x == p {
                                assert(strings_views(self.score_to_members@[x].1@)
                                    =~= seq![member@]);
                            }
                        }
                    }
                    lemma_attach_new_bucket_wf(prior, *self, member@, new_score, p as int);
                }
            },
        }
    }
}

/// Inserting an absent member into the bucket of its score keeps the
/// structure consistent.
proof fn lemma_attach_wf(
    prior: OrderedScores,
    cur: OrderedScores,
    member: Seq<char>,
    sc: Score,
    bi: int,
    mi: int,
)
    requires
        prior.wf(),
        sc.wf(),
        prior.member_score(member) is None,
        forall|i: int, a: int|
            #![trigger prior.buckets()[i].1[a]]
            0 <= i < prior.buckets().len() && 0 <= a < prior.buckets()[i].1.len()
                ==> prior.buckets()[i].1[a] != member,
        0 <= bi < prior.buckets().len(),
        prior.buckets()[bi].0 == sc.units as int,
        0 <= mi <= prior.buckets()[bi].1.len(),
        forall|a: int|
            0 <= a < mi ==> lex_lt(#[trigger] prior.buckets()[bi].1[a], member),
        forall|a: int|
            mi <= a < prior.buckets()[bi].1.len() ==> lex_lt(
                member,
                #[trigger] prior.buckets()[bi].1[a],
            ),
        cur.buckets() == prior.buckets().update(
            bi,
            (prior.buckets()[bi].0, prior.buckets()[bi].1.insert(mi, member)),
        ),
        cur.member_to_score_wf(),
        cur.members_model() == prior.members_model().push((member, sc)),
        cur.member_score(member) == Some(sc),
        forall|m2: Seq<char>|
            m2 != member ==> #[trigger] cur.member_score(m2) == prior.member_score(m2),
    ensures
        cur.wf(),
{
    let pb = prior.buckets();
    let nb = cur.buckets();
    assert forall|i: int, j: int| 0 <= i < j < nb.len() implies (#[trigger] nb[i]).0 < (
    #[trigger] nb[j]).0 by {
        assert(nb[i].0 == pb[i].0);
        assert(nb[j].0 == pb[j].0);
    }
    assert forall|i: int| 0 <= i < nb.len() implies (#[trigger] nb[i]).1.len() >= 1 by {
        if i != bi {
            assert(nb[i] == pb[i]);
        }
    }
    assert forall|i: int, a: int, b: int|
        #![trigger nb[i].1[a], nb[i].1[b]]
        0 <= i < nb.len() && 0 <= a < b < nb[i].1.len() implies lex_lt(nb[i].1[a], nb[i].1[b]) by {
        if i == bi {
            let nbkt = pb[bi].1.insert(mi, member);
            assert(nb[i].1 == nbkt);
            if a == mi {
                assert(nbkt[a] == member);
                assert(nbkt[b] == pb[bi].1[b - 1]);
                assert(lex_lt(member, pb[bi].1[b - 1]));
            } else if b == mi {
                assert(nbkt[b] == member);
                assert(nbkt[a] == pb[bi].1[a]);
                assert(lex_lt(pb[bi].1[a], member));
            } else {
                let oa = if a < mi {
                    a
                } else {
                    a - 1
                };
                let ob = if b < mi {
                    b
                } else {
                    b - 1
                };
                assert(nbkt[a] == pb[bi].1[oa]);
                assert(nbkt[b] == pb[bi].1[ob]);
                if oa < ob {
                    assert(lex_lt(pb[bi].1[oa], pb[bi].1[ob]));
                } else {
                    // a < mi <= b with ob == b - 1 == oa is impossible:
                    // then pb[bi].1[oa] is both below and above `member`
                    assert(oa == ob);
                    assert(a < mi && b > mi);
                    assert(lex_lt(pb[bi].1[oa], member));
                    assert(lex_lt(member, pb[bi].1[ob]));
                    lemma_lex_trans(pb[bi].1[oa], member, pb[bi].1[ob]);
                    lemma_lex_irrefl(pb[bi].1[oa]);
                }
            }
        } else {
            assert(nb[i] == pb[i]);
            assert(lex_lt(pb[i].1[a], pb[i].1[b]));
        }
    }
    assert forall|i: int, a: int|
        #![trigger nb[i].1[a]]
        0 <= i < nb.len() && 0 <= a < nb[i].1.len() implies match cur.member_score(nb[i].1[a]) {
        Some(s2) => s2.units as int == nb[i].0,
        None => false,
    } by {
        if i == bi {
            let nbkt = pb[bi].1.insert(mi, member);
            assert(nb[i].1 == nbkt);
            if a == mi {
                assert(nbkt[a] == member);
            } else {
                let oa = if a < mi {
                    a
                } else {
                    a - 1
                };
                assert(nbkt[a] == pb[bi].1[oa]);
                assert(pb[bi].1[oa] != member);
                assert(cur.member_score(pb[bi].1[oa]) == prior.member_score(pb[bi].1[oa]));
            }
        } else {
            assert(nb[i] == pb[i]);
            assert(pb[i].1[a] != member);
            assert(cur.member_score(pb[i].1[a]) == prior.member_score(pb[i].1[a]));
        }
    }
    assert forall|k: int| 0 <= k < cur.members_model().len() implies exists|i: int, a: int|
        #![trigger nb[i].1[a]]
        0 <= i < nb.len() && 0 <= a < nb[i].1.len() && nb[i].1[a] == (
        #[trigger] cur.members_model()[k]).0 && nb[i].0 == cur.members_model()[k].1.units as int by {
        let nbkt = pb[bi].1.insert(mi, member);
        if k == cur.members_model().len() - 1 {
            assert(cur.members_model()[k] == (member, sc));
            assert(nb[bi].1[mi] == member);
            assert(nb[bi].1[mi] == cur.members_model()[k].0 && nb[bi].0 == cur.members_model()[k].1.units as int);
        } else {
            assert(cur.members_model()[k] == prior.members_model()[k]);
            let (i0, a0) = choose|i: int, a: int|
                #![trigger pb[i].1[a]]
                0 <= i < pb.len() && 0 <= a < pb[i].1.len() && pb[i].1[a] == (
                #[trigger] prior.members_model()[k]).0 && pb[i].0 == prior.members_model()[k].1.units as int;
            if i0 == bi {
                let na = if a0 < mi {
                    a0
                } else {
                    a0 + 1
                };
                assert(nb[i0].1[na] == pb[i0].1[a0]);
                assert(nb[i0].0 == pb[i0].0);
                assert(nb[i0].1[na] == cur.members_model()[k].0 && nb[i0].0
                    == cur.members_model()[k].1.units as int);
            } else {
                assert(nb[i0] == pb[i0]);
                assert(nb[i0].1[a0] == cur.members_model()[k].0 && nb[i0].0
                    == cur.members_model()[k].1.units as int);
            }
        }
    }
    assert forall|k: int| 0 <= k < cur.members_model().len() implies (
    #[trigger] cur.members_model()[k]).1.wf() by {
        if k < cur.members_model().len() - 1 {
            assert(cur.members_model()[k] == prior.members_model()[k]);
            assert(prior.members_model()[k].1.wf());
        } else {
            assert(cur.members_model()[k].1 == sc);
        }
    }
}

/// Opening a new bucket for an absent member keeps the structure consistent.
proof fn lemma_attach_new_bucket_wf(
    prior: OrderedScores,
    cur: OrderedScores,
    member: Seq<char>,
    sc: Score,
    p: int,
)
    requires
        prior.wf(),
        sc.wf(),
        prior.member_score(member) is None,
        forall|i: int, a: int|
            #![trigger prior.buckets()[i].1[a]]
            0 <= i < prior.buckets().len() && 0 <= a < prior.buckets()[i].1.len()
                ==> prior.buckets()[i].1[a] != member,
        0 <= p <= prior.buckets().len(),
        forall|j: int| 0 <= j < p ==> (#[trigger] prior.buckets()[j]).0 < sc.units as int,
        forall|j: int|
            p <= j < prior.buckets().len() ==> (#[trigger] prior.buckets()[j]).0
                > sc.units as int,
        cur.buckets() == prior.buckets().insert(p, (sc.units as int, seq![member])),
        cur.member_to_score_wf(),
        cur.members_model() == prior.members_model().push((member, sc)),
        cur.member_score(member) == Some(sc),
        forall|m2: Seq<char>|
            m2 != member ==> #[trigger] cur.member_score(m2) == prior.member_score(m2),
    ensures
        cur.wf(),
{
    let pb = prior.buckets();
    let nb = cur.buckets();
    assert forall|i: int, j: int| 0 <= i < j < nb.len() implies (#[trigger] nb[i]).0 < (
    #[trigger] nb[j]).0 by {
        let oi = if i < p {
            i
        } else {
            i - 1
        };
        let oj = if j < p {
            j
        } else {
            j - 1
        };
        if i != p && j != p {
            assert(nb[i] == pb[oi]);
            assert(nb[j] == pb[oj]);
        } else if i == p {
            assert(nb[j] == pb[oj]);
            assert(oj >= p);
        } else {
            assert(nb[i] == pb[oi]);
            assert(oi < p);
        }
    }
    assert forall|i: int| 0 <= i < nb.len() implies (#[trigger] nb[i]).1.len() >= 1 by {
        if i != p {
            let oi = if i < p {
                i
            } else {
                i - 1
            };
            assert(nb[i] == pb[oi]);
        }
    }
    assert forall|i: int, a: int, b: int|
        #![trigger nb[i].1[a], nb[i].1[b]]
        0 <= i < nb.len() && 0 <= a < b < nb[i].1.len() implies lex_lt(nb[i].1[a], nb[i].1[b]) by {
        if i != p {
            let oi = if i < p {
                i
            } else {
                i - 1
            };
            assert(nb[i] == pb[oi]);
            assert(lex_lt(pb[oi].1[a], pb[oi].1[b]));
        }
    }
    assert forall|i: int, a: int|
        #![trigger nb[i].1[a]]
        0 <= i < nb.len() && 0 <= a < nb[i].1.len() implies match cur.member_score(nb[i].1[a]) {
        Some(s2) => s2.units as int == nb[i].0,
        None => false,
    } by {
        if i == p {
            assert(nb[i].1[a] == member);
        } else {
            let oi = if i < p {
                i
            } else {
                i - 1
            };
            assert(nb[i] == pb[oi]);
            assert(pb[oi].1[a] != member);
            assert(cur.member_score(pb[oi].1[a]) == prior.member_score(pb[oi].1[a]));
        }
    }
    assert forall|k: int| 0 <= k < cur.members_model().len() implies exists|i: int, a: int|
        #![trigger nb[i].1[a]]
        0 <= i < nb.len() && 0 <= a < nb[i].1.len() && nb[i].1[a] == (
        #[trigger] cur.members_model()[k]).0 && nb[i].0 == cur.members_model()[k].1.units as int by {
        if k == cur.members_model().len() - 1 {
            assert(cur.members_model()[k] == (member, sc));
            assert(nb[p].1[0] == member);
            assert(nb[p].1[0] == cur.members_model()[k].0 && nb[p].0 == cur.members_model()[k].1.units as int);
        } else {
            assert(cur.members_model()[k] == prior.members_model()[k]);
            let (i0, a0) = choose|i: int, a: int|
                #![trigger pb[i].1[a]]
                0 <= i < pb.len() && 0 <= a < pb[i].1.len() && pb[i].1[a] == (
                #[trigger] prior.members_model()[k]).0 && pb[i].0 == prior.members_model()[k].1.units as int;
            let ni = if i0 < p {
                i0
            } else {
                i0 + 1
            };
            assert(nb[ni] == pb[i0]);
            assert(nb[ni].1[a0] == cur.members_model()[k].0 && nb[ni].0 == cur.members_model()[k].1.units as int);
        }
    }
    assert forall|k: int| 0 <= k < cur.members_model().len() implies (
    #[trigger] cur.members_model()[k]).1.wf() by {
        if k < cur.members_model().len() - 1 {
            assert(cur.members_model()[k] == prior.members_model()[k]);
            assert(prior.members_model()[k].1.wf());
        } else {
            assert(cur.members_model()[k].1 == sc);
        }
    }
}



/// Each element of the next bucket sits after all entries of the buckets
/// before it: prefix lengths grow bucket by bucket.
proof fn lemma_flatten_prefix_step(bs: Seq<(int, Seq<Seq<char>>)>, i: int)
    requires
        0 <= i < bs.len(),
    ensures
        flatten_buckets(bs.take(i + 1)).len() == flatten_buckets(bs.take(i)).len()
            + bs[i].1.len(),
{
    assert(bs.take(i + 1).drop_last() =~= bs.take(i));
    assert(bs.take(i + 1).last() == bs[i]);
}

/// Prefix lengths are monotone in the number of buckets.
proof fn lemma_flatten_prefix_mono(bs: Seq<(int, Seq<Seq<char>>)>, i: int, j: int)
    requires
        0 <= i <= j <= bs.len(),
    ensures
        flatten_buckets(bs.take(i)).len() <= flatten_buckets(bs.take(j)).len(),
    decreases j - i,
{
    if i < j {
        lemma_flatten_prefix_step(bs, j - 1);
        lemma_flatten_prefix_mono(bs, i, j - 1);
    }
}

/// Every flattened index comes from exactly one bucket position, at the
/// offset the prefix lengths dictate.
proof fn lemma_flatten_position(bs: Seq<(int, Seq<Seq<char>>)>, idx: int)
    requires
        0 <= idx < flatten_buckets(bs).len(),
    ensures
        exists|i: int, a: int|
            #![trigger bs[i].1[a]]
            {
                &&& 0 <= i < bs.len()
                &&& 0 <= a < bs[i].1.len()
                &&& flatten_buckets(bs)[idx] == (bs[i].0, bs[i].1[a])
                &&& idx == flatten_buckets(bs.take(i)).len() + a
            },
    decreases bs.len(),
{
    let left = flatten_buckets(bs.drop_last());
    if idx < left.len() {
        lemma_flatten_position(bs.drop_last(), idx);
        let (i, a) = choose|i: int, a: int|
            #![trigger bs.drop_last()[i].1[a]]
            {
                &&& 0 <= i < bs.drop_last().len()
                &&& 0 <= a < bs.drop_last()[i].1.len()
                &&& left[idx] == (bs.drop_last()[i].0, bs.drop_last()[i].1[a])
                &&& idx == flatten_buckets(bs.drop_last().take(i)).len() + a
            };
        assert(bs.drop_last().take(i) =~= bs.take(i));
        assert(bs[i].1[a] == bs.drop_last()[i].1[a]);
        assert(flatten_buckets(bs)[idx] == (bs[i].0, bs[i].1[a]));
    } else {
        let i = bs.len() - 1;
        let a = idx - left.len();
        assert(bs.take(i) =~= bs.drop_last());
        assert(bucket_entries(bs.last())[a] == (bs[i].0, bs[i].1[a]));
        assert(flatten_buckets(bs)[idx] == (bs[i].0, bs[i].1[a]));
    }
}

impl OrderedScores {
    /// The ordered entries render the member map exactly: they are strictly
    /// sorted by score and then member, each member appears exactly once
    /// with its mapped score, and every mapped member appears.
    pub proof fn lemma_entries_render_map(&self)
        requires
            self.wf(),
        ensures
            forall|i: int, j: int|
                0 <= i < j < self.entries().len() ==> ((#[trigger] self.entries()[i]).0 < (
                #[trigger] self.entries()[j]).0 || (self.entries()[i].0 == self.entries()[j].0
                    && lex_lt(self.entries()[i].1, self.entries()[j].1))),
            forall|i: int|
                0 <= i < self.entries().len() ==> self.member_map().dom().contains(
                    (#[trigger] self.entries()[i]).1,
                ) && self.member_map()[self.entries()[i].1].units as int == self.entries()[i].0,
            forall|i: int, j: int|
                0 <= i < j < self.entries().len() ==> (#[trigger] self.entries()[i]).1 != (
                #[trigger] self.entries()[j]).1,
            forall|m: Seq<char>|
                #[trigger] self.member_map().dom().contains(m) ==> exists|i: int|
                    0 <= i < self.entries().len() && #[trigger] self.entries()[i] == (
                        self.member_map()[m].units as int,
                        m,
                    ),
    {
        let bs = self.buckets();
        let es = self.entries();
        assert forall|i: int|
            0 <= i < es.len() implies self.member_map().dom().contains(
            (#[trigger] es[i]).1,
        ) && self.member_map()[es[i].1].units as int == es[i].0 by {
            lemma_flatten_position(bs, i);
        }
        assert forall|i: int, j: int|
            0 <= i < j < es.len() implies ((#[trigger] es[i]).0 < (#[trigger] es[j]).0 || (
        es[i].0 == es[j].0 && lex_lt(es[i].1, es[j].1))) by {
            lemma_flatten_position(bs, i);
            lemma_flatten_position(bs, j);
            let (bi, ai) = choose|bi: int, ai: int|
                #![trigger bs[bi].1[ai]]
                {
                    &&& 0 <= bi < bs.len()
                    &&& 0 <= ai < bs[bi].1.len()
                    &&& es[i] == (bs[bi].0, bs[bi].1[ai])
                    &&& i == flatten_buckets(bs.take(bi)).len() + ai
                };
            let (bj, aj) = choose|bj: int, aj: int|
                #![trigger bs[bj].1[aj]]
                {
                    &&& 0 <= bj < bs.len()
                    &&& 0 <= aj < bs[bj].1.len()
                    &&& es[j] == (bs[bj].0, bs[bj].1[aj])
                    &&& j == flatten_buckets(bs.take(bj)).len() + aj
                };
            if bi > bj {
                lemma_flatten_prefix_step(bs, bj);
                lemma_flatten_prefix_mono(bs, bj + 1, bi);
                assert(false);
            } else if bi == bj {
                assert(ai < aj);
                assert(lex_lt(bs[bi].1[ai], bs[bj].1[aj]));
            } else {
                assert(bs[bi].0 < bs[bj].0);
            }
        }
        assert forall|i: int, j: int|
            0 <= i < j < es.len() implies (#[trigger] es[i]).1 != (#[trigger] es[j]).1 by {
            if es[i].1 == es[j].1 {
                assert(es[i].0 < es[j].0 || (es[i].0 == es[j].0 && lex_lt(es[i].1, es[j].1)));
                lemma_lex_irrefl(es[i].1);
                assert(self.member_map().dom().contains(es[i].1));
                assert(self.member_map()[es[i].1].units as int == es[i].0);
                assert(self.member_map()[es[j].1].units as int == es[j].0);
            }
        }
        assert forall|m: Seq<char>| #[trigger] self.member_map().dom().contains(m) implies exists|
            i: int,
        |
            0 <= i < es.len() && #[trigger] es[i] == (self.member_map()[m].units as int, m) by {
            crate::keyed::lemma_assoc_get_exists(self.members_model(), m);
            let k = choose|k: int|
                0 <= k < self.members_model().len() && #[trigger] self.members_model()[k] == (
                    m,
                    self.member_score(m)->Some_0,
                );
            let (wi, wa) = choose|wi: int, wa: int|
                #![trigger bs[wi].1[wa]]
                {
                    &&& 0 <= wi < bs.len()
                    &&& 0 <= wa < bs[wi].1.len()
                    &&& bs[wi].1[wa] == self.members_model()[k].0
                    &&& bs[wi].0 == self.members_model()[k].1.units as int
                };
            lemma_flatten_contains(bs, wi, wa);
            let idx = choose|idx: int|
                0 <= idx < flatten_buckets(bs).len() && #[trigger] flatten_buckets(bs)[idx] == (
                    bs[wi].0,
                    bs[wi].1[wa],
                );
            assert(es[idx] == (self.member_map()[m].units as int, m));
        }
    }
}

// ---------------------------------------------------------------------------
// Add options
// ---------------------------------------------------------------------------

/// Restricts an add to existing or to absent members.
#[derive(Clone, Debug)]
pub enum Only {
    UpdateExisting,
    AddNew,
}

/// Restricts an update to score increases or decreases.
#[derive(Clone, Copy, Debug, PartialEq, Eq, Structural)]
pub enum When {
    LessThan,
    GreaterThan,
}

/// How adds and updates are admitted.
#[derive(Clone, Debug)]
pub enum MergePolicy {
    Require(Only),
    UpdateExisting(When),
    AddOrUpdate(When),
    Default,
    Diverged(String),
}

/// What the add reports: members added, or members added or changed.
#[derive(Clone, Debug)]
pub enum Return {
    Added,
    Changed,
}

/// The parsed options of an add command.
#[derive(Clone, Debug)]
pub struct AddOptions {
    pub merge: MergePolicy,
    pub and_return: Return,
}

impl AddOptions {
    /// The merge policy chosen.
    pub fn merge_policy(&self) -> (r: &MergePolicy)
        ensures
            r == &self.merge,
    {
        &self.merge
    }

    /// Options that admit everything and count only additions.
    pub fn plain() -> (r: AddOptions)
        ensures
            r.merge is Default,
            r.and_return is Added,
    {
        AddOptions { merge: MergePolicy::Default, and_return: Return::Added }
    }
}

/// The score a member ends up with when one entry is applied under a policy;
/// `None` means the member stays absent.
pub open spec fn zadd_outcome(
    old_score: Option<Score>,
    new_score: Score,
    policy: MergePolicy,
) -> Option<Score> {
    match old_score {
        None => match policy {
            MergePolicy::Require(Only::UpdateExisting) => None,
            MergePolicy::UpdateExisting(_) => None,
            MergePolicy::Diverged(_) => None,
            _ => Some(new_score),
        },
        Some(o) => match policy {
            MergePolicy::Require(Only::AddNew) => Some(o),
            MergePolicy::Require(Only::UpdateExisting) => Some(new_score),
            MergePolicy::Default => Some(new_score),
            MergePolicy::UpdateExisting(When::GreaterThan) => if new_score.units > o.units {
                Some(new_score)
            } else {
                Some(o)
            },
            MergePolicy::UpdateExisting(When::LessThan) => if new_score.units < o.units {
                Some(new_score)
            } else {
                Some(o)
            },
            MergePolicy::AddOrUpdate(When::GreaterThan) => if new_score.units > o.units {
                Some(new_score)
            } else {
                Some(o)
            },
            MergePolicy::AddOrUpdate(When::LessThan) => if new_score.units < o.units {
                Some(new_score)
            } else {
                Some(o)
            },
            MergePolicy::Diverged(_) => Some(o),
        },
    }
}

/// The member-to-score map as a mathematical map.
impl OrderedScores {
    pub open spec fn member_map(&self) -> Map<Seq<char>, Score> {
        Map::new(
            |m: Seq<char>| self.member_score(m) is Some,
            |m: Seq<char>| self.member_score(m)->Some_0,
        )
    }

    /// Applies one entry under a policy.
    pub fn merge_one(&mut self, new_score: Score, member: &str, policy: &MergePolicy) -> (r: (
        bool,
        bool,
    ))
        requires
            old(self).wf(),
            new_score.wf(),
        ensures
            final(self).wf(),
            final(self).member_score(member@) == zadd_outcome(
                old(self).member_score(member@),
                new_score,
                *policy,
            ),
            forall|m2: Seq<char>|
                m2 != member@ ==> #[trigger] final(self).member_score(m2) == old(
                    self,
                ).member_score(m2),
            r.0 == (old(self).member_score(member@) is None && final(self).member_score(
                member@,
            ) is Some),
            r.1 == (final(self).member_score(member@) is Some && final(self).member_score(
                member@,
            ) != old(self).member_score(member@)),
            final(self).member_count() == old(self).member_count() + (if r.0 {
                1int
            } else {
                0int
            }),
    {
        let old_opt: Option<Score> = match self.member_to_score.get(member) {
            Some(s) => Some(*s),
            None => None,
        };
        match old_opt {
            None => {
                let insert = match policy {
                    MergePolicy::Require(Only::UpdateExisting) => false,
                    MergePolicy::UpdateExisting(_) => false,
                    MergePolicy::Diverged(_) => false,
                    _ => true,
                };
                if insert {
                    self.attach(new_score, member);
                    (true, true)
                } else {
                    (false, false)
                }
            },
            Some(o) => {
                // the score wf bound follows from the bucket consistency
                proof {
                    crate::keyed::lemma_assoc_get_exists(self.members_model(), member@);
                }
                let update = match policy {
                    MergePolicy::Require(Only::AddNew) => false,
                    MergePolicy::Require(Only::UpdateExisting) => true,
                    MergePolicy::Default => true,
                    MergePolicy::UpdateExisting(w) => match w {
                        When::GreaterThan => new_score.units > o.units,
                        When::LessThan => new_score.units < o.units,
                    },
                    MergePolicy::AddOrUpdate(w) => match w {
                        When::GreaterThan => new_score.units > o.units,
                        When::LessThan => new_score.units < o.units,
                    },
                    MergePolicy::Diverged(_) => false,
                };
                if update {
                    let was = self.detach(member);
                    self.attach(new_score, member);
                    (false, new_score.units != o.units)
                } else {
                    (false, false)
                }
            },
        }
    }
}


/// The views of a list of score-member pairs.
pub open spec fn entry_views(es: Seq<(Score, String)>) -> Seq<(Score, Seq<char>)> {
    Seq::new(es.len(), |i: int| (es[i].0, es[i].1@))
}

/// The member map after a list of entries is applied in order.
pub open spec fn zadd_run(
    m: Map<Seq<char>, Score>,
    es: Seq<(Score, Seq<char>)>,
    policy: MergePolicy,
) -> Map<Seq<char>, Score>
    decreases es.len(),
{
    if es.len() == 0 {
        m
    } else {
        let prev = zadd_run(m, es.drop_last(), policy);
        let e = es.last();
        let old_score = if prev.dom().contains(e.1) {
            Some(prev[e.1])
        } else {
            None
        };
        match zadd_outcome(old_score, e.0, policy) {
            Some(ns) => prev.insert(e.1, ns),
            None => prev,
        }
    }
}

/// How many of the applied entries added a member, and how many added or
/// changed one.
pub open spec fn zadd_counts(
    m: Map<Seq<char>, Score>,
    es: Seq<(Score, Seq<char>)>,
    policy: MergePolicy,
) -> (int, int)
    decreases es.len(),
{
    if es.len() == 0 {
        (0, 0)
    } else {
        let prev = zadd_run(m, es.drop_last(), policy);
        let pc = zadd_counts(m, es.drop_last(), policy);
        let e = es.last();
        let old_score = if prev.dom().contains(e.1) {
            Some(prev[e.1])
        } else {
            None
        };
        let new_score = zadd_outcome(old_score, e.0, policy);
        let added: int = if old_score is None && new_score is Some {
            1
        } else {
            0
        };
        let changed: int = if new_score is Some && new_score != old_score {
            1
        } else {
            0
        };
        (pc.0 + added, pc.1 + changed)
    }
}

impl OrderedScores {
    /// Binds a member to a score unconditionally.
    pub fn merge(&mut self, new_score: Score, member: &str)
        requires
            old(self).wf(),
            new_score.wf(),
        ensures
            final(self).wf(),
            final(self).member_score(member@) == Some(new_score),
            forall|m2: Seq<char>|
                m2 != member@ ==> #[trigger] final(self).member_score(m2) == old(
                    self,
                ).member_score(m2),
            final(self).member_count() == old(self).member_count() + (if old(
                self,
            ).member_score(member@) is Some {
                0int
            } else {
                1int
            }),
    {
        let _ = self.detach(member);
        self.attach(new_score, member);
    }

    /// Applies a whole add command: each entry in order, under the options'
    /// policy; returns the count the options ask for.
    pub fn add_entries(&mut self, entries: &Vec<(Score, String)>, options: &AddOptions) -> (count:
        usize)
        requires
            old(self).wf(),
            forall|i: int| 0 <= i < entries@.len() ==> (#[trigger] entries@[i]).0.wf(),
        ensures
            final(self).wf(),
            final(self).member_map() == zadd_run(
                old(self).member_map(),
                entry_views(entries@),
                options.merge,
            ),
            count == (match options.and_return {
                Return::Added => zadd_counts(
                    old(self).member_map(),
                    entry_views(entries@),
                    options.merge,
                ).0,
                Return::Changed => zadd_counts(
                    old(self).member_map(),
                    entry_views(entries@),
                    options.merge,
                ).1,
            }),
    {
        let ghost base = old(self).member_map();
        let ghost views = entry_views(entries@);
        let ghost policy = options.merge;
        let mut added: usize = 0;
        let mut changed: usize = 0;
        let mut i: usize = 0;
        proof {
            assert(views.take(0) =~= Seq::<(Score, Seq<char>)>::empty());
        }
        while i < entries.len()
            invariant
                0 <= i <= entries@.len(),
                views == entry_views(entries@),
                policy == options.merge,
                forall|k: int| 0 <= k < entries@.len() ==> (#[trigger] entries@[k]).0.wf(),
                self.wf(),
                self.member_map() == zadd_run(base, views.take(i as int), policy),
                added as int == zadd_counts(base, views.take(i as int), policy).0,
                changed as int == zadd_counts(base, views.take(i as int), policy).1,
                added <= i,
                changed <= i,
            decreases entries@.len() - i,
        {
            let sc = entries[i].0;
            let ghost before = *self;
            let (a, c) = self.merge_one(sc, entries[i].1.as_str(), &options.merge);
            if a {
                added += 1;
            }
            if c {
                changed += 1;
            }
            proof {
                let e = views[i as int];
                let prev = zadd_run(base, views.take(i as int), policy);
                assert(before.member_map() == prev);
                let old_score = if prev.dom().contains(e.1) {
                    Some(prev[e.1])
                } else {
                    None
                };
                assert(old_score == before.member_score(e.1));
                let new_score = zadd_outcome(old_score, e.0, policy);
                assert(self.member_score(e.1) == new_score);
                assert(views.take(i + 1).drop_last() =~= views.take(i as int));
                assert(views.take(i + 1).last() == e);
                match new_score {
                    Some(ns) => {
                        assert(self.member_map() =~= prev.insert(e.1, ns));
                    },
                    None => {
                        assert(self.member_map() =~= prev);
                    },
                }
                assert(self.member_map() == zadd_run(base, views.take(i + 1), policy));
            }
            i += 1;
        }
        proof {
            assert(views.take(entries@.len() as int) =~= views);
        }
        match options.and_return {
            Return::Added => added,
            Return::Changed => changed,
        }
    }
}


// ---------------------------------------------------------------------------
// The score-ordered view
// ---------------------------------------------------------------------------

/// The entries of one bucket: its score with each member.
pub open spec fn bucket_entries(b: (int, Seq<Seq<char>>)) -> Seq<(int, Seq<char>)> {
    b.1.map_values(|m: Seq<char>| (b.0, m))
}

/// All entries of the bucket list, in order.
pub open spec fn flatten_buckets(bs: Seq<(int, Seq<Seq<char>>)>) -> Seq<(int, Seq<char>)>
    decreases bs.len(),
{
    if bs.len() == 0 {
        Seq::empty()
    } else {
        flatten_buckets(bs.drop_last()) + bucket_entries(bs.last())
    }
}

/// The entries within a closed score range, keeping their order.
pub open spec fn filter_score_range(es: Seq<(int, Seq<char>)>, lo: int, hi: int) -> Seq<
    (int, Seq<char>),
>
    decreases es.len(),
{
    if es.len() == 0 {
        Seq::empty()
    } else {
        filter_score_range(es.drop_last(), lo, hi) + (if lo <= es.last().0 && es.last().0 <= hi {
            seq![es.last()]
        } else {
            Seq::empty()
        })
    }
}

/// Every bucket position appears in the flattened entries.
proof fn lemma_flatten_contains(bs: Seq<(int, Seq<Seq<char>>)>, i: int, a: int)
    requires
        0 <= i < bs.len(),
        0 <= a < bs[i].1.len(),
    ensures
        exists|idx: int|
            0 <= idx < flatten_buckets(bs).len() && #[trigger] flatten_buckets(bs)[idx] == (
                bs[i].0,
                bs[i].1[a],
            ),
    decreases bs.len(),
{
    if i == bs.len() - 1 {
        let idx = flatten_buckets(bs.drop_last()).len() + a;
        assert(bucket_entries(bs.last())[a] == (bs[i].0, bs[i].1[a]));
        assert(flatten_buckets(bs)[idx as int] == (bs[i].0, bs[i].1[a]));
    } else {
        lemma_flatten_contains(bs.drop_last(), i, a);
        let idx = choose|idx: int|
            0 <= idx < flatten_buckets(bs.drop_last()).len() && #[trigger] flatten_buckets(
                bs.drop_last(),
            )[idx] == (bs.drop_last()[i].0, bs.drop_last()[i].1[a]);
        assert(flatten_buckets(bs)[idx] == (bs[i].0, bs[i].1[a]));
    }
}

/// Every flattened entry comes from some bucket position.
proof fn lemma_flatten_index(bs: Seq<(int, Seq<Seq<char>>)>, idx: int)
    requires
        0 <= idx < flatten_buckets(bs).len(),
    ensures
        exists|i: int, a: int|
            #![trigger bs[i].1[a]]
            0 <= i < bs.len() && 0 <= a < bs[i].1.len() && flatten_buckets(bs)[idx] == (
                bs[i].0,
                bs[i].1[a],
            ),
    decreases bs.len(),
{
    let left = flatten_buckets(bs.drop_last());
    if idx < left.len() {
        lemma_flatten_index(bs.drop_last(), idx);
        let (i, a) = choose|i: int, a: int|
            #![trigger bs.drop_last()[i].1[a]]
            0 <= i < bs.drop_last().len() && 0 <= a < bs.drop_last()[i].1.len() && left[idx] == (
                bs.drop_last()[i].0,
                bs.drop_last()[i].1[a],
            );
        assert(bs[i].1[a] == bs.drop_last()[i].1[a]);
        assert(flatten_buckets(bs)[idx] == (bs[i].0, bs[i].1[a]));
    } else {
        let a = idx - left.len();
        let i = bs.len() - 1;
        assert(bucket_entries(bs.last())[a] == (bs[i].0, bs[i].1[a]));
        assert(flatten_buckets(bs)[idx] == (bs[i].0, bs[i].1[a]));
    }
}

impl OrderedScores {
    /// All entries, ordered by score and member.
    pub open spec fn entries(&self) -> Seq<(int, Seq<char>)> {
        flatten_buckets(self.buckets())
    }

    /// Collects the ordered entries as score-member pairs.
    pub fn collect_entries(&self) -> (r: Vec<(Score, String)>)
        requires
            self.wf(),
        ensures
            r@.len() == self.entries().len(),
            forall|i: int|
                0 <= i < r@.len() ==> ((#[trigger] r@[i]).0.units as int, r@[i].1@)
                    == self.entries()[i],
            forall|i: int| 0 <= i < r@.len() ==> (#[trigger] r@[i]).0.wf(),
    {
        let ghost bs = self.buckets();
        let mut out: Vec<(Score, String)> = Vec::new();
        let mut bi: usize = 0;
        proof {
            assert(bs.take(0) =~= Seq::<(int, Seq<Seq<char>>)>::empty());
        }
        while bi < self.score_to_members.len()
            invariant
                0 <= bi <= self.score_to_members@.len(),
                bs == self.buckets(),
                self.wf(),
                bs.len() == self.score_to_members@.len(),
                out@.len() == flatten_buckets(bs.take(bi as int)).len(),
                forall|i: int|
                    0 <= i < out@.len() ==> ((#[trigger] out@[i]).0.units as int, out@[i].1@)
                        == flatten_buckets(bs.take(bi as int))[i],
                forall|i: int| 0 <= i < out@.len() ==> (#[trigger] out@[i]).0.wf(),
            decreases self.score_to_members@.len() - bi,
        {
            let sc = self.score_to_members[bi].0;
            let ghost b = bs[bi as int];
            proof {
                // the bucket's stored score is within range: its first member
                // maps to a well-formed score with the same units
                assert(bs[bi as int].1[0] == strings_views(self.score_to_members@[bi as int].1@)[0]);
                let m0 = bs[bi as int].1[0];
                assert(self.member_score(m0) is Some);
                crate::keyed::lemma_assoc_get_exists(self.members_model(), m0);
                let k = choose|k: int|
                    0 <= k < self.members_model().len() && #[trigger] self.members_model()[k] == (
                        m0,
                        self.member_score(m0)->Some_0,
                    );
                assert(self.members_model()[k].1.wf());
                assert(sc.units as int == bs[bi as int].0);
            }
            let ghost leftlen = flatten_buckets(bs.take(bi as int)).len() as int;
            let mut a: usize = 0;
            let n = self.score_to_members[bi].1.len();
            while a < n
                invariant
                    0 <= a <= n,
                    0 <= bi < self.score_to_members@.len(),
                    bs == self.buckets(),
                    self.wf(),
                    bs.len() == self.score_to_members@.len(),
                    n == self.score_to_members@[bi as int].1@.len(),
                    b == bs[bi as int],
                    sc == self.score_to_members@[bi as int].0,
                    sc.wf(),
                    sc.units as int == b.0,
                    b.1.len() == n,
                    leftlen == flatten_buckets(bs.take(bi as int)).len(),
                    out@.len() == leftlen + a,
                    forall|i: int|
                        0 <= i < leftlen ==> ((#[trigger] out@[i]).0.units as int, out@[i].1@)
                            == flatten_buckets(bs.take(bi as int))[i],
                    forall|i: int|
                        leftlen <= i < out@.len() ==> ((#[trigger] out@[i]).0.units as int,
                        out@[i].1@) == (b.0, b.1[i - leftlen]),
                    forall|i: int| 0 <= i < out@.len() ==> (#[trigger] out@[i]).0.wf(),
                decreases n - a,
            {
                let member = self.score_to_members[bi].1[a].clone();
                proof {
                    assert(member@ == strings_views(self.score_to_members@[bi as int].1@)[a as int]);
                }
                out.push((sc, member));
                a += 1;
            }
            proof {
                assert(bs.take(bi + 1).drop_last() =~= bs.take(bi as int));
                assert(bs.take(bi + 1).last() == b);
                assert(flatten_buckets(bs.take(bi + 1)) == flatten_buckets(bs.take(bi as int))
                    + bucket_entries(b));
                assert forall|i: int| 0 <= i < out@.len() implies ((
                #[trigger] out@[i]).0.units as int, out@[i].1@) == flatten_buckets(
                    bs.take(bi + 1),
                )[i] by {
                    if i >= leftlen {
                        assert(bucket_entries(b)[i - leftlen] == (b.0, b.1[i - leftlen]));
                        assert(((out@[i]).0.units as int, out@[i].1@) == (b.0, b.1[i - leftlen]));
                    }
                }
            }
            bi += 1;
        }
        proof {
            assert(bs.take(bs.len() as int) =~= bs);
        }
        out
    }

    /// The entries with global ranks from `start` up to but not including
    /// `stop`, clamped to the set's size.
    pub fn range_by_rank(&self, start: usize, stop: usize) -> (r: Vec<MemberEntry>)
        requires
            self.wf(),
        ensures
            ({
                let es = self.entries();
                let hi = if (stop as int) <= es.len() {
                    stop as int
                } else {
                    es.len() as int
                };
                if (start as int) < hi {
                    &&& r@.len() == hi - start
                    &&& forall|i: int|
                        0 <= i < r@.len() ==> {
                            &&& (#[trigger] r@[i]).rank as int == start + i
                            &&& r@[i].score.units as int == es[start + i].0
                            &&& r@[i].member@ == es[start + i].1
                        }
                } else {
                    r@.len() == 0
                }
            }),
    {
        let all = self.collect_entries();
        let mut out: Vec<MemberEntry> = Vec::new();
        let total = all.len();
        let hi = if stop <= total {
            stop
        } else {
            total
        };
        if start >= hi {
            return out;
        }
        let mut i: usize = start;
        while i < hi
            invariant
                start < hi <= total,
                total == self.entries().len(),
                start <= i <= hi,
                out@.len() == i - start,
                all@.len() == total,
                forall|k: int|
                    0 <= k < all@.len() ==> ((#[trigger] all@[k]).0.units as int, all@[k].1@)
                        == self.entries()[k],
                forall|k: int| 0 <= k < all@.len() ==> (#[trigger] all@[k]).0.wf(),
                forall|k: int|
                    0 <= k < out@.len() ==> {
                        &&& (#[trigger] out@[k]).rank as int == start + k
                        &&& out@[k].score.units as int == self.entries()[start + k].0
                        &&& out@[k].member@ == self.entries()[start + k].1
                    },
            decreases hi - i,
        {
            let entry = MemberEntry {
                rank: i,
                score: all[i].0,
                member: all[i].1.clone(),
            };
            out.push(entry);
            i += 1;
        }
        out
    }

    /// The entries whose score lies in the closed range, ranked within the
    /// selection.
    pub fn range_by_score(&self, lo: Score, hi: Score) -> (r: Vec<MemberEntry>)
        requires
            self.wf(),
        ensures
            ({
                let sel = filter_score_range(self.entries(), lo.units as int, hi.units as int);
                &&& r@.len() == sel.len()
                &&& forall|i: int|
                    0 <= i < r@.len() ==> {
                        &&& (#[trigger] r@[i]).rank as int == i
                        &&& r@[i].score.units as int == sel[i].0
                        &&& r@[i].member@ == sel[i].1
                    }
            }),
    {
        let all = self.collect_entries();
        let mut out: Vec<MemberEntry> = Vec::new();
        let mut i: usize = 0;
        let ghost es = self.entries();
        proof {
            assert(es.take(0) =~= Seq::<(int, Seq<char>)>::empty());
        }
        while i < all.len()
            invariant
                0 <= i <= all@.len(),
                es == self.entries(),
                all@.len() == es.len(),
                forall|k: int|
                    0 <= k < all@.len() ==> ((#[trigger] all@[k]).0.units as int, all@[k].1@)
                        == es[k],
                forall|k: int| 0 <= k < all@.len() ==> (#[trigger] all@[k]).0.wf(),
                out@.len() == filter_score_range(es.take(i as int), lo.units as int, hi.units as int).len(),
                forall|k: int|
                    0 <= k < out@.len() ==> {
                        &&& (#[trigger] out@[k]).rank as int == k
                        &&& out@[k].score.units as int == filter_score_range(
                            es.take(i as int),
                            lo.units as int,
                            hi.units as int,
                        )[k].0
                        &&& out@[k].member@ == filter_score_range(
                            es.take(i as int),
                            lo.units as int,
                            hi.units as int,
                        )[k].1
                    },
                out@.len() <= i,
            decreases all@.len() - i,
        {
            proof {
                assert(es.take(i + 1).drop_last() =~= es.take(i as int));
                assert(es.take(i + 1).last() == es[i as int]);
            }
            let sc = all[i].0;
            if lo.units <= sc.units && sc.units <= hi.units {
                let entry = MemberEntry {
                    rank: out.len(),
                    score: sc,
                    member: all[i].1.clone(),
                };
                out.push(entry);
            }
            i += 1;
        }
        proof {
            assert(es.take(es.len() as int) =~= es);
        }
        out
    }

    /// The rank and score of a member, if it is in the set.
    pub fn member_stats(&self, member: &str) -> (r: Option<MemberEntry>)
        requires
            self.wf(),
        ensures
            match r {
                Some(e) => {
                    &&& self.member_score(member@) == Some(e.score)
                    &&& e.member@ == member@
                    &&& e.score.wf()
                    &&& (e.rank as int) < self.entries().len()
                    &&& self.entries()[e.rank as int] == (e.score.units as int, member@)
                },
                None => self.member_score(member@) is None,
            },
    {
        let sc: Score = match self.member_to_score.get(member) {
            Some(s) => *s,
            None => {
                return None;
            },
        };
        // the member occurs somewhere in the flattened entries
        proof {
            crate::keyed::lemma_assoc_get_exists(self.members_model(), member@);
            let kw = choose|kw: int|
                0 <= kw < self.members_model().len() && #[trigger] self.members_model()[kw] == (
                    member@,
                    sc,
                );
            assert(self.members_model()[kw].1.wf());
            let k = choose|k: int|
                0 <= k < self.members_model().len() && #[trigger] self.members_model()[k] == (
                    member@,
                    sc,
                );
            let (wi, wa) = choose|i: int, a: int|
                #![trigger self.buckets()[i].1[a]]
                0 <= i < self.buckets().len() && 0 <= a < self.buckets()[i].1.len()
                    && self.buckets()[i].1[a] == (#[trigger] self.members_model()[k]).0
                    && self.buckets()[i].0 == self.members_model()[k].1.units as int;
            lemma_flatten_contains(self.buckets(), wi, wa);
        }
        let all = self.collect_entries();
        let mut i: usize = 0;
        while i < all.len()
            invariant
                0 <= i <= all@.len(),
                all@.len() == self.entries().len(),
                forall|k: int|
                    0 <= k < all@.len() ==> ((#[trigger] all@[k]).0.units as int, all@[k].1@)
                        == self.entries()[k],
                forall|k: int| 0 <= k < i ==> (#[trigger] self.entries()[k]).1 != member@,
                self.wf(),
                self.member_score(member@) == Some(sc),
                sc.wf(),
                exists|idx: int|
                    0 <= idx < self.entries().len() && (#[trigger] self.entries()[idx]).1
                        == member@,
            decreases all@.len() - i,
        {
            if str_eq(all[i].1.as_str(), member) {
                proof {
                    // any entry naming the member carries the member's score
                    lemma_flatten_index(self.buckets(), i as int);
                    let (bi2, a2) = choose|bi2: int, a2: int|
                        #![trigger self.buckets()[bi2].1[a2]]
                        0 <= bi2 < self.buckets().len() && 0 <= a2 < self.buckets()[bi2].1.len()
                            && self.entries()[i as int] == (
                            self.buckets()[bi2].0,
                            self.buckets()[bi2].1[a2],
                        );
                    assert(self.member_score(self.buckets()[bi2].1[a2]) == Some(sc));
                }
                return Some(
                    MemberEntry { rank: i, score: sc, member: String::from_str(member) },
                );
            }
            i += 1;
        }
        proof {
            let idx = choose|idx: int|
                0 <= idx < self.entries().len() && (#[trigger] self.entries()[idx]).1 == member@;
            assert(false);
        }
        None
    }
}


// ---------------------------------------------------------------------------
// Reading add options from argument words
// ---------------------------------------------------------------------------

/// A sequence folded to upper case.
pub open spec fn upper_seq(s: Seq<char>) -> Seq<char> {
    s.map_values(|c: char| crate::text::upper_char(c))
}

/// Whether a word is one of the recognized option tokens, up to case.
pub open spec fn is_opt_word(w: Seq<char>) -> bool {
    ||| upper_seq(w) == seq!['X', 'X']
    ||| upper_seq(w) == seq!['N', 'X']
    ||| upper_seq(w) == seq!['G', 'T']
    ||| upper_seq(w) == seq!['L', 'T']
    ||| upper_seq(w) == seq!['C', 'H']
}

/// How many leading words are option tokens.
pub open spec fn opts_end(ws: Seq<Seq<char>>) -> int
    decreases ws.len(),
{
    if ws.len() == 0 {
        0
    } else if !is_opt_word(ws[0]) {
        0
    } else {
        1 + opts_end(ws.drop_first())
    }
}

pub proof fn lemma_opts_end(ws: Seq<Seq<char>>)
    ensures
        0 <= opts_end(ws) <= ws.len(),
        forall|j: int| 0 <= j < opts_end(ws) ==> is_opt_word(#[trigger] ws[j]),
        opts_end(ws) < ws.len() ==> !is_opt_word(ws[opts_end(ws)]),
    decreases ws.len(),
{
    if ws.len() > 0 && is_opt_word(ws[0]) {
        lemma_opts_end(ws.drop_first());
        assert forall|j: int| 0 <= j < opts_end(ws) implies is_opt_word(#[trigger] ws[j]) by {
            if j > 0 {
                assert(is_opt_word(ws.drop_first()[j - 1]));
                assert(ws.drop_first()[j - 1] == ws[j]);
            }
        }
        if opts_end(ws) < ws.len() {
            assert(ws.drop_first()[opts_end(ws) - 1] == ws[opts_end(ws)]);
        }
    }
}

/// Whether one of the first `n` words is the given token, up to case.
pub open spec fn prefix_has(ws: Seq<Seq<char>>, n: int, target: Seq<char>) -> bool {
    exists|j: int| 0 <= j < n && upper_seq(#[trigger] ws[j]) == target
}

/// The merge policy the option words call for. A policy payload carried by
/// the diverged case is left open.
pub open spec fn policy_matches(p: MergePolicy, ws: Seq<Seq<char>>) -> bool {
    let n = opts_end(ws);
    let nx = prefix_has(ws, n, seq!['N', 'X']);
    let xx = prefix_has(ws, n, seq!['X', 'X']);
    let gt = prefix_has(ws, n, seq!['G', 'T']);
    let lt = prefix_has(ws, n, seq!['L', 'T']);
    if nx && (xx || gt || lt) {
        p is Diverged
    } else if gt && lt {
        p is Diverged
    } else if nx {
        p matches MergePolicy::Require(Only::AddNew)
    } else if xx && gt {
        p == MergePolicy::UpdateExisting(When::GreaterThan)
    } else if xx && lt {
        p == MergePolicy::UpdateExisting(When::LessThan)
    } else if gt {
        p == MergePolicy::AddOrUpdate(When::GreaterThan)
    } else if lt {
        p == MergePolicy::AddOrUpdate(When::LessThan)
    } else if xx {
        p matches MergePolicy::Require(Only::UpdateExisting)
    } else {
        p is Default
    }
}

/// Whether the option words ask for the changed count.
pub open spec fn wants_changed(ws: Seq<Seq<char>>) -> bool {
    prefix_has(ws, opts_end(ws), seq!['C', 'H'])
}

/// Case-insensitive equality against an already-uppercase word is the same
/// as comparing the folded word.
proof fn lemma_ci_eq_upper(a: Seq<char>, b: Seq<char>)
    requires
        forall|i: int| 0 <= i < b.len() ==> crate::text::upper_char(#[trigger] b[i]) == b[i],
    ensures
        crate::text::ci_eq(a, b) <==> upper_seq(a) == b,
{
    if crate::text::ci_eq(a, b) {
        assert(upper_seq(a) =~= b) by {
            assert(forall|i: int|
                0 <= i < a.len() ==> #[trigger] upper_seq(a)[i] == crate::text::upper_char(a[i]));
        }
    }
    if upper_seq(a) == b {
        assert(upper_seq(a).len() == a.len());
        assert forall|i: int| 0 <= i < a.len() implies crate::text::upper_char(#[trigger] a[i])
            == crate::text::upper_char(b[i]) by {
            assert(upper_seq(a)[i] == crate::text::upper_char(a[i]));
            assert(b[i] == upper_seq(a)[i]);
        }
    }
}

/// The option token a word denotes, if any.
fn classify_opt(w: &str) -> (r: Option<u8>)
    ensures
        match r {
            Some(t) => {
                &&& t == 0 ==> upper_seq(w@) == seq!['X', 'X']
                &&& t == 1 ==> upper_seq(w@) == seq!['N', 'X']
                &&& t == 2 ==> upper_seq(w@) == seq!['G', 'T']
                &&& t == 3 ==> upper_seq(w@) == seq!['L', 'T']
                &&& t == 4 ==> upper_seq(w@) == seq!['C', 'H']
                &&& t <= 4
            },
            None => !is_opt_word(w@),
        },
{
    proof {
        reveal_strlit("XX");
        reveal_strlit("NX");
        reveal_strlit("GT");
        reveal_strlit("LT");
        reveal_strlit("CH");
        assert("XX"@ =~= seq!['X', 'X']);
        assert("NX"@ =~= seq!['N', 'X']);
        assert("GT"@ =~= seq!['G', 'T']);
        assert("LT"@ =~= seq!['L', 'T']);
        assert("CH"@ =~= seq!['C', 'H']);
        lemma_ci_eq_upper(w@, seq!['X', 'X']);
        lemma_ci_eq_upper(w@, seq!['N', 'X']);
        lemma_ci_eq_upper(w@, seq!['G', 'T']);
        lemma_ci_eq_upper(w@, seq!['L', 'T']);
        lemma_ci_eq_upper(w@, seq!['C', 'H']);
    }
    if crate::text::eq_ignore_case(w, "XX") {
        Some(0)
    } else if crate::text::eq_ignore_case(w, "NX") {
        Some(1)
    } else if crate::text::eq_ignore_case(w, "GT") {
        Some(2)
    } else if crate::text::eq_ignore_case(w, "LT") {
        Some(3)
    } else if crate::text::eq_ignore_case(w, "CH") {
        Some(4)
    } else {
        None
    }
}

impl AddOptions {
    /// Reads the leading option tokens of an add command; options stop at
    /// the first word that is not one. Returns the options and the words
    /// left over.
    pub fn parse(phrase: &[&str]) -> (r: (AddOptions, Vec<String>))
        ensures
            ({
                let ws = crate::resp::strs_views(phrase@);
                &&& policy_matches(r.0.merge, ws)
                &&& (r.0.and_return is Changed) == wants_changed(ws)
                &&& crate::resp::strings_views(r.1@) == ws.skip(opts_end(ws))
            }),
    {
        proof {
            reveal_strlit("bad options");
        }
        let ghost ws = crate::resp::strs_views(phrase@);
        let mut xx = false;
        let mut nx = false;
        let mut gt = false;
        let mut lt = false;
        let mut ch = false;
        let mut j: usize = 0;
        let total = phrase.len();
        loop
            invariant
                0 <= j <= total,
                total == ws.len(),
                ws == crate::resp::strs_views(phrase@),
                total == phrase@.len(),
                forall|k: int| 0 <= k < j ==> is_opt_word(#[trigger] ws[k]),
                xx == prefix_has(ws, j as int, seq!['X', 'X']),
                nx == prefix_has(ws, j as int, seq!['N', 'X']),
                gt == prefix_has(ws, j as int, seq!['G', 'T']),
                lt == prefix_has(ws, j as int, seq!['L', 'T']),
                ch == prefix_has(ws, j as int, seq!['C', 'H']),
            ensures
                0 <= j <= total,
                forall|k: int| 0 <= k < j ==> is_opt_word(#[trigger] ws[k]),
                j == total || !is_opt_word(ws[j as int]),
                xx == prefix_has(ws, j as int, seq!['X', 'X']),
                nx == prefix_has(ws, j as int, seq!['N', 'X']),
                gt == prefix_has(ws, j as int, seq!['G', 'T']),
                lt == prefix_has(ws, j as int, seq!['L', 'T']),
                ch == prefix_has(ws, j as int, seq!['C', 'H']),
            decreases total - j,
        {
            if j >= total {
                break ;
            }
            let w = phrase[j];
            proof {
                assert(ws[j as int] == w@);
            }
            match classify_opt(w) {
                Some(t) => {
                    proof {
                        assert(upper_seq(ws[j as int]) == upper_seq(w@));
                    }
                    if t == 0 {
                        xx = true;
                    } else if t == 1 {
                        nx = true;
                    } else if t == 2 {
                        gt = true;
                    } else if t == 3 {
                        lt = true;
                    } else {
                        ch = true;
                    }
                    proof {
                        lemma_prefix_has_extend(ws, j as int, upper_seq(w@));
                    }
                },
                None => {
                    break ;
                },
            }
            j += 1;
        }
        proof {
            lemma_opts_end(ws);
            // the scan stopped exactly at the option boundary
            if (j as int) < opts_end(ws) {
                assert(is_opt_word(ws[j as int]));
                assert(false);
            }
            if (j as int) > opts_end(ws) {
                assert(is_opt_word(ws[opts_end(ws)]));
                assert(false);
            }
        }
        let merge: MergePolicy = if nx && (xx || gt || lt) {
            MergePolicy::Diverged(String::from_str("bad options"))
        } else if gt && lt {
            MergePolicy::Diverged(String::from_str("bad options"))
        } else if nx {
            MergePolicy::Require(Only::AddNew)
        } else if xx && gt {
            MergePolicy::UpdateExisting(When::GreaterThan)
        } else if xx && lt {
            MergePolicy::UpdateExisting(When::LessThan)
        } else if gt {
            MergePolicy::AddOrUpdate(When::GreaterThan)
        } else if lt {
            MergePolicy::AddOrUpdate(When::LessThan)
        } else if xx {
            MergePolicy::Require(Only::UpdateExisting)
        } else {
            MergePolicy::Default
        };
        let and_return = if ch {
            Return::Changed
        } else {
            Return::Added
        };
        let mut rest: Vec<String> = Vec::new();
        let mut k: usize = j;
        while k < total
            invariant
                j <= k <= total,
                total == phrase@.len(),
                ws == crate::resp::strs_views(phrase@),
                total == ws.len(),
                rest@.len() == k - j,
                forall|i: int| 0 <= i < rest@.len() ==> #[trigger] rest@[i]@ == ws[j + i],
            decreases total - k,
        {
            rest.push(String::from_str(phrase[k]));
            k += 1;
        }
        proof {
            assert(crate::resp::strings_views(rest@) =~= ws.skip(j as int));
        }
        (AddOptions { merge, and_return }, rest)
    }
}

/// Marking one more word extends the prefix search by that word alone.
proof fn lemma_prefix_has_extend(ws: Seq<Seq<char>>, j: int, seen: Seq<char>)
    requires
        0 <= j < ws.len(),
        upper_seq(ws[j]) == seen,
    ensures
        forall|t: Seq<char>|
            #[trigger] prefix_has(ws, j + 1, t) == (prefix_has(ws, j, t) || t == seen),
{
    assert forall|t: Seq<char>| #[trigger] prefix_has(ws, j + 1, t) == (prefix_has(ws, j, t) || t
        == seen) by {
        if prefix_has(ws, j, t) || t == seen {
            if t == seen {
                assert(0 <= j < j + 1 && upper_seq(ws[j]) == t);
            } else {
                let w = choose|w: int| 0 <= w < j && upper_seq(#[trigger] ws[w]) == t;
                assert(0 <= w < j + 1 && upper_seq(ws[w]) == t);
            }
        }
        if prefix_has(ws, j + 1, t) && !prefix_has(ws, j, t) {
            let w = choose|w: int| 0 <= w < j + 1 && upper_seq(#[trigger] ws[w]) == t;
            assert(w == j);
        }
    }
}


// ---------------------------------------------------------------------------
// The sorted-set commands over the layered state
// ---------------------------------------------------------------------------

/// The sorted-set commands.
#[derive(Debug)]
pub enum SortedSetApi {
    Add { key: String, entries: Vec<(Score, String)>, options: AddOptions },
    RangeByRank(String, i64, i64),
    RangeByScore(String, Score, Score),
    Rank(String, String),
    Score(String, String),
}

impl crate::ttl::Lifetimes {
    /// The member map of the sorted set under a key; an absent key holds the
    /// empty set.
    pub open spec fn zset_map(&self, k: Seq<char>) -> Map<Seq<char>, Score> {
        match self.data.sorted_sets.spec_get(k) {
            Some(z) => z.member_map(),
            None => Map::empty(),
        }
    }

    /// The ordered entries of the sorted set under a live key.
    pub open spec fn zset_entries(&self, k: Seq<char>, now: u64) -> Seq<(int, Seq<char>)> {
        if self.live(k, now) {
            match self.data.sorted_sets.spec_get(k) {
                Some(z) => z.entries(),
                None => Seq::empty(),
            }
        } else {
            Seq::empty()
        }
    }

    /// Applies an add command to the set under a key, creating the set where
    /// the key is absent; returns the count the options ask for.
    pub fn zadd(&mut self, key: &str, entries: &Vec<(Score, String)>, options: &AddOptions) -> (r:
        usize)
        requires
            old(self).wf(),
            forall|i: int| 0 <= i < entries@.len() ==> (#[trigger] entries@[i]).0.wf(),
        ensures
            final(self).wf(),
            final(self).zset_map(key@) == zadd_run(
                old(self).zset_map(key@),
                entry_views(entries@),
                options.merge,
            ),
            r == (match options.and_return {
                Return::Added => zadd_counts(
                    old(self).zset_map(key@),
                    entry_views(entries@),
                    options.merge,
                ).0,
                Return::Changed => zadd_counts(
                    old(self).zset_map(key@),
                    entry_views(entries@),
                    options.merge,
                ).1,
            }),
            forall|k2: Seq<char>|
                k2 != key@ ==> #[trigger] final(self).data.sorted_sets.spec_get(k2) == old(
                    self,
                ).data.sorted_sets.spec_get(k2),
            final(self).data.strings == old(self).data.strings,
            final(self).data.lists == old(self).data.lists,
            final(self).ttls == old(self).ttls,
            final(self).expires == old(self).expires,
            final(self).data.rev() == old(self).data.rev(),
    {
        let mut z: OrderedScores = match self.data.sorted_sets.take(key) {
            Some(z) => z,
            None => {
                let fresh = OrderedScores::new();
                proof {
                    assert(fresh.member_map() =~= Map::<Seq<char>, Score>::empty());
                }
                fresh
            },
        };
        let count = z.add_entries(entries, options);
        self.data.sorted_sets.set(key, z);
        proof {
            crate::ttl::lemma_ttl_wf_frame(*old(self), *self);
            let m = old(self).data.sorted_sets.model();
            match old(self).data.sorted_sets.spec_get(key@) {
                Some(oz) => {
                    crate::keyed::lemma_assoc_get_exists(m, key@);
                },
                None => {},
            }
            assert forall|k: int|
                0 <= k < self.data.sorted_sets.model().len() implies (
            #[trigger] self.data.sorted_sets.model()[k]).1.wf() by {
                let newm = self.data.sorted_sets.model();
                if newm[k].0 == key@ {
                    crate::keyed::lemma_assoc_get_at_unique(newm, key@, k);
                } else {
                    crate::keyed::lemma_assoc_get_at_unique(newm, newm[k].0, k);
                    assert(self.data.sorted_sets.spec_get(newm[k].0) == old(
                        self,
                    ).data.sorted_sets.spec_get(newm[k].0));
                    crate::keyed::lemma_assoc_get_exists(m, newm[k].0);
                }
            }
        }
        count
    }

    /// The entries a rank range selects from the set under a live key, with
    /// list-style negative positions.
    pub fn zrange_by_rank(&self, key: &str, start: i64, stop: i64, now: u64) -> (r: Vec<
        MemberEntry>)
        requires
            self.wf(),
        ensures
            ({
                let es = self.zset_entries(key@, now);
                match crate::lists::resolve_range(es.len() as int, start as int, stop as int) {
                    Some(b) => {
                        &&& r@.len() == b.1 - b.0
                        &&& forall|i: int|
                            0 <= i < r@.len() ==> {
                                &&& (#[trigger] r@[i]).rank as int == b.0 + i
                                &&& r@[i].score.units as int == es[b.0 + i].0
                                &&& r@[i].member@ == es[b.0 + i].1
                            }
                    },
                    None => r@.len() == 0,
                }
            }),
    {
        let empty: Vec<MemberEntry> = Vec::new();
        if !self.is_live(key, now) {
            return empty;
        }
        let z = match self.data.sorted_sets.get(key) {
            Some(z) => z,
            None => {
                return empty;
            },
        };
        proof {
            crate::keyed::lemma_assoc_get_exists(self.data.sorted_sets.model(), key@);
        }
        let total = z.collect_entries().len();
        let len_i: i128 = total as i128;
        let start_i: i128 = start as i128;
        let stop_i: i128 = stop as i128;
        if total == 0 || start_i >= len_i {
            return empty;
        }
        let es: i128 = if start_i >= 0 {
            start_i
        } else if start_i + len_i >= 0 {
            start_i + len_i
        } else {
            0
        };
        let eo: i128 = if stop_i >= 0 {
            if stop_i < len_i {
                stop_i
            } else {
                len_i
            }
        } else if stop_i + len_i + 1 >= 0 {
            stop_i + len_i + 1
        } else {
            0
        };
        if !(es <= eo) {
            return empty;
        }
        z.range_by_rank(es as usize, eo as usize)
    }

    /// The entries within a closed score range under a live key, ranked
    /// within the selection.
    pub fn zrange_by_score(&self, key: &str, lo: Score, hi: Score, now: u64) -> (r: Vec<
        MemberEntry>)
        requires
            self.wf(),
        ensures
            ({
                let sel = filter_score_range(
                    self.zset_entries(key@, now),
                    lo.units as int,
                    hi.units as int,
                );
                &&& r@.len() == sel.len()
                &&& forall|i: int|
                    0 <= i < r@.len() ==> {
                        &&& (#[trigger] r@[i]).rank as int == i
                        &&& r@[i].score.units as int == sel[i].0
                        &&& r@[i].member@ == sel[i].1
                    }
            }),
    {
        let empty: Vec<MemberEntry> = Vec::new();
        if !self.is_live(key, now) {
            return empty;
        }
        match self.data.sorted_sets.get(key) {
            Some(z) => {
                proof {
                    crate::keyed::lemma_assoc_get_exists(self.data.sorted_sets.model(), key@);
                }
                z.range_by_score(lo, hi)
            },
            None => empty,
        }
    }

    /// The rank and score of a member of the set under a live key.
    pub fn zmember_stats(&self, key: &str, member: &str, now: u64) -> (r: Option<MemberEntry>)
        requires
            self.wf(),
        ensures
            match r {
                Some(e) => {
                    &&& self.live(key@, now)
                    &&& self.zset_map(key@).dom().contains(member@)
                    &&& self.zset_map(key@)[member@] == e.score
                    &&& e.score.wf()
                    &&& e.member@ == member@
                    &&& (e.rank as int) < self.zset_entries(key@, now).len()
                    &&& self.zset_entries(key@, now)[e.rank as int] == (
                        e.score.units as int,
                        member@,
                    )
                },
                None => !self.live(key@, now) || !self.zset_map(key@).dom().contains(member@),
            },
    {
        if !self.is_live(key, now) {
            return None;
        }
        match self.data.sorted_sets.get(key) {
            Some(z) => {
                proof {
                    crate::keyed::lemma_assoc_get_exists(self.data.sorted_sets.model(), key@);
                }
                z.member_stats(member)
            },
            None => None,
        }
    }
}


/// The member names of ranked entries, in order.
fn entry_members(entries: &Vec<MemberEntry>) -> (r: Vec<String>)
    ensures
        r@.len() == entries@.len(),
        forall|i: int| 0 <= i < r@.len() ==> #[trigger] r@[i]@ == entries@[i].member@,
{
    let mut out: Vec<String> = Vec::new();
    let mut i: usize = 0;
    while i < entries.len()
        invariant
            0 <= i <= entries@.len(),
            out@.len() == i,
            forall|j: int| 0 <= j < i ==> #[trigger] out@[j]@ == entries@[j].member@,
        decreases entries@.len() - i,
    {
        out.push(entries[i].member.clone());
        i += 1;
    }
    out
}

/// What applying a sorted-set command answers and changes.
pub open spec fn apply_spec(
    pre: crate::state::StateContext,
    post: crate::state::StateContext,
    command: SortedSetApi,
    message: crate::resp::MessageView,
    now: u64,
    r: Result<crate::state::Outcome, crate::error::Error>,
) -> bool {
    let st = pre.state.state;
    match command {
        SortedSetApi::Add { key, entries, options } => ({
            if options.merge is Diverged || !(forall|i: int|
                0 <= i < entries@.len() ==> (#[trigger] entries@[i]).0.wf()) {
                r matches Ok(o) && post == pre && o.response@ is Error && o.log_line is None
                    && o.snapshot is None
            } else {
                match r {
                    Ok(o) => {
                        &&& crate::state::commit_shape(pre, post, message, now, o.log_line)
                        &&& crate::state::ttls_filtered(pre, post, now)
                        &&& crate::state::lists_filtered(pre, post, now)
                        &&& crate::state::strings_filtered(pre, post, now)
                        &&& crate::state::zsets_filtered_except(pre, post, now, key@)
                        &&& post.state.state.zset_map(key@) == (if st.live(key@, now) {
                            zadd_run(st.zset_map(key@), entry_views(entries@), options.merge)
                        } else {
                            Map::<Seq<char>, Score>::empty()
                        })
                        &&& o.snapshot is None
                        &&& o.response@ == crate::resp::MessageView::Integer(
                            ((match options.and_return {
                                Return::Added => zadd_counts(
                                    st.zset_map(key@),
                                    entry_views(entries@),
                                    options.merge,
                                ).0,
                                Return::Changed => zadd_counts(
                                    st.zset_map(key@),
                                    entry_views(entries@),
                                    options.merge,
                                ).1,
                            }) as usize as i64) as int,
                        )
                    },
                    Err(_) => crate::state::commit_failure(pre, message),
                }
            }
        }),
        SortedSetApi::RangeByRank(key, start, stop) => r matches Ok(o) && post == pre && ({
            let es = st.zset_entries(key@, now);
            let sel = match crate::lists::resolve_range(es.len() as int, start as int, stop as int) {
                Some(b) => Seq::new((b.1 - b.0) as nat, |i: int| es[b.0 + i].1),
                None => Seq::empty(),
            };
            o.response@ == crate::resp::MessageView::Array(crate::resp::bulk_views(sel))
        }),
        SortedSetApi::RangeByScore(key, lo, hi) => r matches Ok(o) && post == pre && ({
            let sel = filter_score_range(st.zset_entries(key@, now), lo.units as int, hi.units as int);
            o.response@ == crate::resp::MessageView::Array(
                crate::resp::bulk_views(Seq::new(sel.len(), |i: int| sel[i].1)),
            )
        }),
        SortedSetApi::Rank(key, member) => r matches Ok(o) && post == pre && ({
            let es = st.zset_entries(key@, now);
            if st.live(key@, now) && st.zset_map(key@).dom().contains(member@) {
                exists|rk: int|
                    0 <= rk < es.len() && (#[trigger] es[rk]).1 == member@ && o.response@
                        == crate::resp::MessageView::Integer(((rk as i64) as int))
            } else {
                o.response@ is Nil
            }
        }),
        SortedSetApi::Score(key, member) => r matches Ok(o) && post == pre && ({
            if st.live(key@, now) && st.zset_map(key@).dom().contains(member@) {
                o.response@ == crate::resp::MessageView::BulkString(
                    crate::score::score_text(st.zset_map(key@)[member@].units as int),
                )
            } else {
                o.response@ is Nil
            }
        }),
    }
}

/// Applies a sorted-set command against the state, committing writes; it
/// answers and changes exactly what [`apply_spec`] says.
pub fn apply(
    state: &mut crate::state::StateContext,
    command: &SortedSetApi,
    message: &crate::resp::Message,
    now: u64,
) -> (r: Result<crate::state::Outcome, crate::error::Error>)
    requires
        old(state).wf(),
    ensures
        final(state).wf(),
        apply_spec(*old(state), *final(state), *command, message@, now, r),
{
    match command {
        SortedSetApi::Add { key, entries, options } => {
            match &options.merge {
                MergePolicy::Diverged(_) => {
                    proof {
                        reveal_strlit("bad option combination");
                    }
                    return Ok(crate::state::Outcome::reply(crate::state::err_response(
                        String::from_str("bad option combination"),
                    )));
                },
                _ => {},
            }
            let mut good = true;
            let mut i: usize = 0;
            while i < entries.len()
                invariant
                    0 <= i <= entries@.len(),
                    good == (forall|j: int| 0 <= j < i ==> (#[trigger] entries@[j]).0.wf()),
                decreases entries@.len() - i,
            {
                let u = entries[i].0.units;
                if u <= -1000000000000000000000000000i128 || u
                    >= 1000000000000000000000000000i128 {
                    proof {
                        assert(!entries@[i as int].0.wf());
                    }
                    good = false;
                }
                i += 1;
            }
            if !good {
                proof {
                    reveal_strlit("score out of range");
                }
                return Ok(crate::state::Outcome::reply(crate::state::err_response(
                    String::from_str("score out of range"),
                )));
            }
            let ghost pre = *state;
            let count = state.state.state.zadd(key.as_str(), entries, options);
            let ghost mid = *state;
            match state.apply_transaction(message, now) {
                Ok(line) => {
                    proof {
                        crate::lists::lemma_commit_carries(pre, mid, *state, now);
                        if pre.state.state.live(key@, now) {
                            assert(state.state.state.data.sorted_sets.spec_get(key@)
                                == mid.state.state.data.sorted_sets.spec_get(key@));
                        } else {
                            assert(state.state.state.data.sorted_sets.spec_get(key@) is None);
                        }
                    }
                    Ok(crate::state::Outcome::committed(
                        crate::resp::Message::Integer(count as i64),
                        line,
                    ))
                },
                Err(e) => Err(e),
            }
        },
        SortedSetApi::RangeByRank(key, start, stop) => {
            let found = state.state.state.zrange_by_rank(key.as_str(), *start, *stop, now);
            let members = entry_members(&found);
            let reply = crate::resp::Message::make_bulk_array(members.as_slice());
            proof {
                let es = state.state.state.zset_entries(key@, now);
                match crate::lists::resolve_range(es.len() as int, *start as int, *stop as int) {
                    Some(b) => {
                        assert(crate::resp::strings_views(members@) =~= Seq::new(
                            (b.1 - b.0) as nat,
                            |i: int| es[b.0 + i].1,
                        ));
                    },
                    None => {
                        assert(crate::resp::strings_views(members@) =~= Seq::<Seq<char>>::empty());
                    },
                }
            }
            Ok(crate::state::Outcome::reply(reply))
        },
        SortedSetApi::RangeByScore(key, lo, hi) => {
            let found = state.state.state.zrange_by_score(key.as_str(), *lo, *hi, now);
            let members = entry_members(&found);
            let reply = crate::resp::Message::make_bulk_array(members.as_slice());
            proof {
                let sel = filter_score_range(
                    state.state.state.zset_entries(key@, now),
                    lo.units as int,
                    hi.units as int,
                );
                assert(crate::resp::strings_views(members@) =~= Seq::new(
                    sel.len(),
                    |i: int| sel[i].1,
                ));
            }
            Ok(crate::state::Outcome::reply(reply))
        },
        SortedSetApi::Rank(key, member) => {
            match state.state.state.zmember_stats(key.as_str(), member.as_str(), now) {
                Some(e) => Ok(crate::state::Outcome::reply(crate::resp::Message::Integer(
                    e.rank as i64,
                ))),
                None => Ok(crate::state::Outcome::reply(crate::resp::Message::Nil)),
            }
        },
        SortedSetApi::Score(key, member) => {
            match state.state.state.zmember_stats(key.as_str(), member.as_str(), now) {
                Some(e) => Ok(crate::state::Outcome::reply(crate::resp::Message::BulkString(
                    e.score.render(),
                ))),
                None => Ok(crate::state::Outcome::reply(crate::resp::Message::Nil)),
            }
        },
    }
}

} // verus!
