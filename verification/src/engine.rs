//! The typed dataset: three keyed containers over one key namespace, and the
//! revision counter of committed writes.

use vstd::prelude::*;

verus! {

use crate::keyed::AssocList;
use crate::sorted_sets::OrderedScores;
use crate::tx_log::Revision;

/// The three typed maps and the revision they stand at.
pub struct Datasets {
    pub lists: AssocList<Vec<String>>,
    pub strings: AssocList<String>,
    pub sorted_sets: AssocList<OrderedScores>,
    pub revision: Revision,
}

impl Datasets {
    /// All keyed containers have unique keys and consistent sorted sets.
    pub open spec fn wf(&self) -> bool {
        &&& self.lists.wf()
        &&& self.strings.wf()
        &&& self.sorted_sets.wf()
        &&& forall|k: int|
            0 <= k < self.sorted_sets.model().len() ==> (
            #[trigger] self.sorted_sets.model()[k]).1.wf()
    }

    /// The revision as a number.
    pub open spec fn rev(&self) -> int {
        self.revision.0 as int
    }

    /// An empty dataset at revision zero.
    pub fn new() -> (r: Datasets)
        ensures
            r.wf(),
            r.rev() == 0,
            r.lists.model().len() == 0,
            r.strings.model().len() == 0,
            r.sorted_sets.model().len() == 0,
            forall|k: Seq<char>| r.lists.spec_get(k) is None,
            forall|k: Seq<char>| r.strings.spec_get(k) is None,
            forall|k: Seq<char>| r.sorted_sets.spec_get(k) is None,
    {
        let r = Datasets {
            lists: AssocList::new(),
            strings: AssocList::new(),
            sorted_sets: AssocList::new(),
            revision: Revision(0),
        };
        proof {
            assert forall|k: Seq<char>| r.lists.spec_get(k) is None by {
                crate::keyed::lemma_assoc_get_none(r.lists.model(), k);
            }
            assert forall|k: Seq<char>| r.strings.spec_get(k) is None by {
                crate::keyed::lemma_assoc_get_none(r.strings.model(), k);
            }
            assert forall|k: Seq<char>| r.sorted_sets.spec_get(k) is None by {
                crate::keyed::lemma_assoc_get_none(r.sorted_sets.model(), k);
            }
        }
        r
    }

    /// The current revision.
    pub fn revision(&self) -> (r: Revision)
        ensures
            r.0 as int == self.rev(),
    {
        self.revision
    }

    /// Advances the revision by one.
    pub fn bump_revision(&mut self)
        requires
            old(self).rev() < u64::MAX,
        ensures
            final(self).rev() == old(self).rev() + 1,
            final(self).lists == old(self).lists,
            final(self).strings == old(self).strings,
            final(self).sorted_sets == old(self).sorted_sets,
            final(self).wf() == old(self).wf(),
    {
        self.revision = self.revision.succeeding();
    }

    /// Overwrites the revision, as snapshot restoration does.
    pub fn set_revision(&mut self, revision: Revision)
        ensures
            final(self).rev() == revision.0 as int,
            final(self).lists == old(self).lists,
            final(self).strings == old(self).strings,
            final(self).sorted_sets == old(self).sorted_sets,
            final(self).wf() == old(self).wf(),
    {
        self.revision = revision;
    }

    /// All bound keys: list keys, then string keys, then sorted-set keys.
    pub fn keys(&self) -> (r: Vec<String>)
        ensures
            crate::resp::strings_views(r@) == self.lists.key_seq() + self.strings.key_seq()
                + self.sorted_sets.key_seq(),
    {
        let mut out: Vec<String> = Vec::new();
        let mut i: usize = 0;
        let n1 = self.lists.len();
        while i < n1
            invariant
                0 <= i <= n1,
                n1 == self.lists.model().len(),
                out@.len() == i,
                forall|j: int| 0 <= j < i ==> #[trigger] out@[j]@ == self.lists.key_seq()[j],
            decreases n1 - i,
        {
            out.push(self.lists.key_at(i).clone());
            i += 1;
        }
        let mut i2: usize = 0;
        let n2 = self.strings.len();
        while i2 < n2
            invariant
                0 <= i2 <= n2,
                n1 == self.lists.model().len(),
                n2 == self.strings.model().len(),
                out@.len() == n1 + i2,
                forall|j: int| 0 <= j < n1 ==> #[trigger] out@[j]@ == self.lists.key_seq()[j],
                forall|j: int|
                    0 <= j < i2 ==> #[trigger] out@[n1 + j]@ == self.strings.key_seq()[j],
            decreases n2 - i2,
        {
            out.push(self.strings.key_at(i2).clone());
            i2 += 1;
        }
        let mut i3: usize = 0;
        let n3 = self.sorted_sets.len();
        while i3 < n3
            invariant
                0 <= i3 <= n3,
                n1 == self.lists.model().len(),
                n2 == self.strings.model().len(),
                n3 == self.sorted_sets.model().len(),
                out@.len() == n1 + n2 + i3,
                forall|j: int| 0 <= j < n1 ==> #[trigger] out@[j]@ == self.lists.key_seq()[j],
                forall|j: int|
                    0 <= j < n2 ==> #[trigger] out@[n1 + j]@ == self.strings.key_seq()[j],
                forall|j: int|
                    0 <= j < i3 ==> #[trigger] out@[n1 + n2 + j]@ == self.sorted_sets.key_seq()[j],
            decreases n3 - i3,
        {
            out.push(self.sorted_sets.key_at(i3).clone());
            i3 += 1;
        }
        proof {
            let all = self.lists.key_seq() + self.strings.key_seq() + self.sorted_sets.key_seq();
            assert forall|x: int|
                0 <= x < out@.len() implies crate::resp::strings_views(out@)[x] == all[x] by {
                if x < n1 {
                } else if x < n1 + n2 {
                    assert(out@[n1 + (x - n1)]@ == self.strings.key_seq()[x - n1]);
                } else {
                    assert(out@[n1 + n2 + (x - n1 - n2)]@ == self.sorted_sets.key_seq()[x - n1
                        - n2]);
                }
            }
            assert(crate::resp::strings_views(out@) =~= all);
        }
        out
    }

    /// Removes a key from every typed map.
    pub fn expunge(&mut self, id: &str)
        requires
            old(self).wf(),
        ensures
            final(self).wf(),
            final(self).lists.spec_get(id@) is None,
            final(self).strings.spec_get(id@) is None,
            final(self).sorted_sets.spec_get(id@) is None,
            forall|k2: Seq<char>|
                k2 != id@ ==> #[trigger] final(self).lists.spec_get(k2) == old(
                    self,
                ).lists.spec_get(k2),
            forall|k2: Seq<char>|
                k2 != id@ ==> #[trigger] final(self).strings.spec_get(k2) == old(
                    self,
                ).strings.spec_get(k2),
            forall|k2: Seq<char>|
                k2 != id@ ==> #[trigger] final(self).sorted_sets.spec_get(k2) == old(
                    self,
                ).sorted_sets.spec_get(k2),
            final(self).rev() == old(self).rev(),
    {
        let _ = self.lists.take(id);
        let _ = self.strings.take(id);
        let ghost before = self.sorted_sets.model();
        let took = self.sorted_sets.take(id);
        proof {
            match took {
                Some(_) => {
                    let i = choose|i: int|
                        0 <= i < before.len() && (#[trigger] before[i]) == (
                            id@,
                            crate::keyed::assoc_get(before, id@)->Some_0,
                        ) && self.sorted_sets.model() == before.remove(i);
                    assert forall|k: int|
                        0 <= k < self.sorted_sets.model().len() implies (
                    #[trigger] self.sorted_sets.model()[k]).1.wf() by {
                        if k < i {
                            assert(self.sorted_sets.model()[k] == before[k]);
                        } else {
                            assert(self.sorted_sets.model()[k] == before[k + 1]);
                        }
                    }
                },
                None => {},
            }
        }
    }
}

} // verus!
