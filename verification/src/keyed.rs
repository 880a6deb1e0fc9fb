//! A keyed container: an association list over string keys, in insertion
//! order, with unique keys. It backs each of the typed maps of the dataset.

use vstd::prelude::*;

verus! {

use vstd::string::StringExecFns;
use crate::text::str_eq;

/// The value bound to a key, reading the entries front to back.
pub open spec fn assoc_get<V>(s: Seq<(Seq<char>, V)>, k: Seq<char>) -> Option<V>
    decreases s.len(),
{
    if s.len() == 0 {
        None
    } else if s[0].0 == k {
        Some(s[0].1)
    } else {
        assoc_get(s.drop_first(), k)
    }
}

/// Skipping entries whose key differs does not change the lookup.
pub proof fn lemma_assoc_get_skip<V>(s: Seq<(Seq<char>, V)>, k: Seq<char>, i: int)
    requires
        0 <= i <= s.len(),
        forall|j: int| 0 <= j < i ==> (#[trigger] s[j]).0 != k,
    ensures
        assoc_get(s, k) == assoc_get(s.skip(i), k),
    decreases i,
{
    if i > 0 {
        assert(s[0].0 != k);
        assert forall|j: int| 0 <= j < i - 1 implies (#[trigger] s.drop_first()[j]).0 != k by {
            assert(s.drop_first()[j] == s[j + 1]);
        }
        lemma_assoc_get_skip(s.drop_first(), k, i - 1);
        assert(s.drop_first().skip(i - 1) =~= s.skip(i));
    } else {
        assert(s.skip(0) =~= s);
    }
}

/// A lookup lands on the first entry with the key, if there is one.
pub proof fn lemma_assoc_get_at<V>(s: Seq<(Seq<char>, V)>, k: Seq<char>, i: int)
    requires
        0 <= i < s.len(),
        s[i].0 == k,
        forall|j: int| 0 <= j < i ==> (#[trigger] s[j]).0 != k,
    ensures
        assoc_get(s, k) == Some(s[i].1),
{
    lemma_assoc_get_skip(s, k, i);
    assert(s.skip(i)[0] == s[i]);
}

/// A successful lookup names an entry that is present.
pub proof fn lemma_assoc_get_exists<V>(s: Seq<(Seq<char>, V)>, k: Seq<char>)
    requires
        assoc_get(s, k) is Some,
    ensures
        exists|i: int|
            0 <= i < s.len() && #[trigger] s[i] == (k, assoc_get(s, k)->Some_0),
    decreases s.len(),
{
    if s.len() > 0 {
        if s[0].0 == k {
            assert(s[0] == (k, assoc_get(s, k)->Some_0));
        } else {
            lemma_assoc_get_exists(s.drop_first(), k);
            let i = choose|i: int|
                0 <= i < s.drop_first().len() && #[trigger] s.drop_first()[i] == (
                    k,
                    assoc_get(s.drop_first(), k)->Some_0,
                );
            assert(s[i + 1] == (k, assoc_get(s, k)->Some_0));
        }
    }
}

/// With unique keys, any entry bearing the key is what the lookup returns.
pub proof fn lemma_assoc_get_at_unique<V>(s: Seq<(Seq<char>, V)>, k: Seq<char>, i: int)
    requires
        forall|a: int, b: int|
            0 <= a < b < s.len() ==> (#[trigger] s[a]).0 != (#[trigger] s[b]).0,
        0 <= i < s.len(),
        s[i].0 == k,
    ensures
        assoc_get(s, k) == Some(s[i].1),
{
    assert forall|j: int| 0 <= j < i implies (#[trigger] s[j]).0 != k by {
        assert(s[j].0 != s[i].0);
    }
    lemma_assoc_get_at(s, k, i);
}

/// Where no entry has the key, the lookup is empty.
pub proof fn lemma_assoc_get_none<V>(s: Seq<(Seq<char>, V)>, k: Seq<char>)
    requires
        forall|j: int| 0 <= j < s.len() ==> (#[trigger] s[j]).0 != k,
    ensures
        assoc_get(s, k) is None,
{
    lemma_assoc_get_skip(s, k, s.len() as int);
    assert(s.skip(s.len() as int).len() == 0);
}

/// A keyed container with unique keys, kept in insertion order.
pub struct AssocList<V> {
    entries: Vec<(String, V)>,
}

impl<V> AssocList<V> {
    /// The entries, with keys as character sequences.
    pub closed spec fn model(&self) -> Seq<(Seq<char>, V)> {
        Seq::new(self.entries@.len(), |i: int| (self.entries@[i].0@, self.entries@[i].1))
    }

    /// The keys, in order.
    pub open spec fn key_seq(&self) -> Seq<Seq<char>> {
        self.model().map_values(|e: (Seq<char>, V)| e.0)
    }

    /// The value bound to a key.
    pub open spec fn spec_get(&self, k: Seq<char>) -> Option<V> {
        assoc_get(self.model(), k)
    }

    /// Whether a key is bound.
    pub open spec fn has_key(&self, k: Seq<char>) -> bool {
        self.spec_get(k) is Some
    }

    /// Every key occurs at most once.
    pub open spec fn wf(&self) -> bool {
        forall|i: int, j: int|
            0 <= i < j < self.model().len() ==> (#[trigger] self.model()[i]).0 != (
            #[trigger] self.model()[j]).0
    }

    /// An empty container.
    pub fn new() -> (r: AssocList<V>)
        ensures
            r.wf(),
            r.model() == Seq::<(Seq<char>, V)>::empty(),
    {
        let r = AssocList { entries: Vec::new() };
        proof {
            assert(r.model() =~= Seq::<(Seq<char>, V)>::empty());
        }
        r
    }

    /// How many keys are bound.
    pub fn len(&self) -> (n: usize)
        ensures
            n == self.model().len(),
    {
        self.entries.len()
    }

    /// The position of a key, if it is bound.
    pub fn index_of(&self, key: &str) -> (r: Option<usize>)
        ensures
            match r {
                Some(i) => {
                    &&& i < self.model().len()
                    &&& self.model()[i as int].0 == key@
                    &&& forall|j: int| 0 <= j < i ==> (#[trigger] self.model()[j]).0 != key@
                },
                None => forall|j: int|
                    0 <= j < self.model().len() ==> (#[trigger] self.model()[j]).0 != key@,
            },
    {
        let mut i: usize = 0;
        let n = self.entries.len();
        while i < n
            invariant
                0 <= i <= n,
                n == self.model().len(),
                n == self.entries@.len(),
                forall|j: int| 0 <= j < i ==> (#[trigger] self.model()[j]).0 != key@,
            decreases n - i,
        {
            if str_eq(self.entries[i].0.as_str(), key) {
                return Some(i);
            }
            i += 1;
        }
        None
    }

    /// The value bound to a key, if any.
    pub fn get(&self, key: &str) -> (r: Option<&V>)
        ensures
            match r {
                Some(v) => self.spec_get(key@) == Some(*v),
                None => self.spec_get(key@) is None,
            },
    {
        match self.index_of(key) {
            Some(i) => {
                proof {
                    lemma_assoc_get_at(self.model(), key@, i as int);
                }
                Some(&self.entries[i].1)
            },
            None => {
                proof {
                    lemma_assoc_get_none(self.model(), key@);
                }
                None
            },
        }
    }

    /// Whether a key is bound.
    pub fn contains(&self, key: &str) -> (r: bool)
        ensures
            r == self.has_key(key@),
    {
        match self.get(key) {
            Some(_) => true,
            None => false,
        }
    }

    /// The key at a position.
    pub fn key_at(&self, i: usize) -> (r: &String)
        requires
            i < self.model().len(),
        ensures
            r@ == self.key_seq()[i as int],
    {
        &self.entries[i].0
    }

    /// The value at a position.
    pub fn value_at(&self, i: usize) -> (r: &V)
        requires
            i < self.model().len(),
        ensures
            *r == self.model()[i as int].1,
    {
        &self.entries[i].1
    }

    /// Binds a key, overwriting any previous binding in place.
    pub fn set(&mut self, key: &str, value: V)
        requires
            old(self).wf(),
        ensures
            final(self).wf(),
            final(self).spec_get(key@) == Some(value),
            forall|k2: Seq<char>|
                k2 != key@ ==> #[trigger] final(self).spec_get(k2) == old(self).spec_get(k2),
            final(self).key_seq() == (if old(self).has_key(key@) {
                old(self).key_seq()
            } else {
                old(self).key_seq().push(key@)
            }),
            final(self).model().len() == old(self).model().len() + (
            if old(self).has_key(key@) {
                0int
            } else {
                1int
            }),
            if old(self).has_key(key@) {
                exists|i: int|
                    {
                        &&& 0 <= i < old(self).model().len()
                        &&& (#[trigger] old(self).model()[i]).0 == key@
                        &&& final(self).model() == old(self).model().update(i, (key@, value))
                    }
            } else {
                final(self).model() == old(self).model().push((key@, value))
            },
    {
        match self.index_of(key) {
            Some(i) => {
                proof {
                    lemma_assoc_get_at(self.model(), key@, i as int);
                }
                let _ = self.entries.remove(i);
                self.entries.insert(i, (String::from_str(key), value));
                proof {
                    let oldm = old(self).model();
                    let newm = self.model();
                    assert(newm =~= oldm.update(i as int, (key@, value)));
                    assert forall|k2: Seq<char>| k2 != key@ implies #[trigger] self.spec_get(k2)
                        == old(self).spec_get(k2) by {
                        lemma_assoc_get_update_other(oldm, i as int, (key@, value), k2);
                    }
                    lemma_assoc_get_at(newm, key@, i as int);
                    assert(self.key_seq() =~= old(self).key_seq());
                }
            },
            None => {
                proof {
                    lemma_assoc_get_none(self.model(), key@);
                }
                self.entries.push((String::from_str(key), value));
                proof {
                    let oldm = old(self).model();
                    let newm = self.model();
                    assert(newm =~= oldm.push((key@, value)));
                    assert forall|k2: Seq<char>| k2 != key@ implies #[trigger] self.spec_get(k2)
                        == old(self).spec_get(k2) by {
                        lemma_assoc_get_push_other(oldm, (key@, value), k2);
                    }
                    lemma_assoc_get_at(newm, key@, oldm.len() as int);
                    assert(self.key_seq() =~= old(self).key_seq().push(key@));
                }
            },
        }
    }

    /// Unbinds a key, handing back its value.
    pub fn take(&mut self, key: &str) -> (r: Option<V>)
        requires
            old(self).wf(),
        ensures
            final(self).wf(),
            final(self).spec_get(key@) is None,
            forall|k2: Seq<char>|
                k2 != key@ ==> #[trigger] final(self).spec_get(k2) == old(self).spec_get(k2),
            match r {
                Some(v) => {
                    &&& old(self).spec_get(key@) == Some(v)
                    &&& final(self).model().len() + 1 == old(self).model().len()
                    &&& exists|i: int|
                        {
                            &&& 0 <= i < old(self).model().len()
                            &&& (#[trigger] old(self).model()[i]) == (key@, v)
                            &&& final(self).model() == old(self).model().remove(i)
                        }
                },
                None => {
                    &&& old(self).spec_get(key@) is None
                    &&& *final(self) == *old(self)
                },
            },
    {
        match self.index_of(key) {
            Some(i) => {
                proof {
                    lemma_assoc_get_at(self.model(), key@, i as int);
                }
                let entry = self.entries.remove(i);
                proof {
                    let oldm = old(self).model();
                    let newm = self.model();
                    assert(newm =~= oldm.remove(i as int));
                    assert forall|k2: Seq<char>| k2 != key@ implies #[trigger] self.spec_get(k2)
                        == old(self).spec_get(k2) by {
                        lemma_assoc_get_remove_other(oldm, i as int, k2);
                    }
                    assert forall|j: int| 0 <= j < newm.len() implies (#[trigger] newm[j]).0
                        != key@ by {
                        if j < i {
                            assert(newm[j] == oldm[j]);
                        } else {
                            assert(newm[j] == oldm[j + 1]);
                        }
                    }
                    lemma_assoc_get_none(newm, key@);
                }
                Some(entry.1)
            },
            None => {
                proof {
                    lemma_assoc_get_none(self.model(), key@);
                }
                None
            },
        }
    }
}

/// Updating an entry in place leaves every other key's lookup alone.
proof fn lemma_assoc_get_update_other<V>(
    s: Seq<(Seq<char>, V)>,
    i: int,
    e: (Seq<char>, V),
    k2: Seq<char>,
)
    requires
        0 <= i < s.len(),
        s[i].0 == e.0,
        k2 != e.0,
    ensures
        assoc_get(s.update(i, e), k2) == assoc_get(s, k2),
    decreases s.len(),
{
    if s.len() > 0 {
        if i == 0 {
            assert(s.update(i, e).drop_first() =~= s.drop_first());
        } else {
            assert(s.update(i, e)[0] == s[0]);
            if s[0].0 != k2 {
                assert(s.update(i, e).drop_first() =~= s.drop_first().update(i - 1, e));
                lemma_assoc_get_update_other(s.drop_first(), i - 1, e, k2);
            }
        }
    }
}

/// Appending an entry leaves every other key's lookup alone.
proof fn lemma_assoc_get_push_other<V>(s: Seq<(Seq<char>, V)>, e: (Seq<char>, V), k2: Seq<char>)
    requires
        k2 != e.0,
    ensures
        assoc_get(s.push(e), k2) == assoc_get(s, k2),
    decreases s.len(),
{
    if s.len() == 0 {
        assert(s.push(e)[0] == e);
        assert(s.push(e).drop_first() =~= Seq::<(Seq<char>, V)>::empty());
    } else {
        assert(s.push(e)[0] == s[0]);
        if s[0].0 != k2 {
            assert(s.push(e).drop_first() =~= s.drop_first().push(e));
            lemma_assoc_get_push_other(s.drop_first(), e, k2);
        }
    }
}

/// Removing an entry leaves every other key's lookup alone, provided the keys
/// are unique.
proof fn lemma_assoc_get_remove_other<V>(s: Seq<(Seq<char>, V)>, i: int, k2: Seq<char>)
    requires
        0 <= i < s.len(),
        k2 != s[i].0,
    ensures
        assoc_get(s.remove(i), k2) == assoc_get(s, k2),
    decreases s.len(),
{
    if i == 0 {
        assert(s.remove(0) =~= s.drop_first());
        assert(s[0].0 != k2);
    } else {
        assert(s.remove(i)[0] == s[0]);
        if s[0].0 != k2 {
            assert(s.remove(i).drop_first() =~= s.drop_first().remove(i - 1));
            lemma_assoc_get_remove_other(s.drop_first(), i - 1, k2);
        }
    }
}

} // verus!
