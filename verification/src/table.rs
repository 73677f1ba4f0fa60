//! An insertion-ordered association table keyed by strings.
//!
//! The server keeps its client records and its entity registry in such
//! tables: keys are unique, lookups match on string content, and iteration
//! yields entries in the order they were inserted.

use crate::utils::str_eq;
use vstd::prelude::*;

verus! {

/// A mapping from string keys to values with unique keys and stable
/// insertion order.
pub struct Table<V> {
    pairs: Vec<(String, V)>,
}

impl<V> Table<V> {
    /// The keys, in insertion order.
    pub closed spec fn key_seq(self) -> Seq<Seq<char>> {
        Seq::new(self.pairs@.len() as nat, |i: int| self.pairs@[i].0@)
    }

    /// The value stored at position `i`.
    pub closed spec fn val_at(self, i: int) -> V
        recommends
            0 <= i < self.key_seq().len(),
    {
        self.pairs@[i].1
    }

    /// Keys are unique.
    pub open spec fn wf(self) -> bool {
        self.key_seq().no_duplicates()
    }

    /// Whether some entry has key `k`.
    pub open spec fn has_key(self, k: Seq<char>) -> bool {
        exists|i: int| 0 <= i < self.key_seq().len() && self.key_seq()[i] == k
    }

    /// The position of the entry with key `k`.
    pub open spec fn idx_of(self, k: Seq<char>) -> int
        recommends
            self.has_key(k),
    {
        choose|i: int| 0 <= i < self.key_seq().len() && self.key_seq()[i] == k
    }

    /// The value mapped to `k`, if any.
    pub open spec fn spec_get(self, k: Seq<char>) -> Option<V> {
        if self.has_key(k) {
            Some(self.val_at(self.idx_of(k)))
        } else {
            None
        }
    }

    /// An empty table.
    pub fn new() -> (r: Self)
        ensures
            r.wf(),
            r.key_seq() == Seq::<Seq<char>>::empty(),
            forall|k: Seq<char>| !r.has_key(k),
    {
        let r = Table { pairs: Vec::new() };
        proof {
            assert(r.key_seq() =~= Seq::<Seq<char>>::empty());
        }
        r
    }

    /// Number of entries.
    pub fn len(&self) -> (n: usize)
        ensures
            n == self.key_seq().len(),
    {
        self.pairs.len()
    }

    /// The entry at position `i`, in insertion order.
    pub fn entry_at(&self, i: usize) -> (p: (&String, &V))
        requires
            i < self.key_seq().len(),
        ensures
            p.0@ == self.key_seq()[i as int],
            *p.1 == self.val_at(i as int),
    {
        let pr = &self.pairs[i];
        (&pr.0, &pr.1)
    }

    /// The position of the entry whose key equals `k`, if any.
    fn find(&self, k: &str) -> (r: Option<usize>)
        ensures
            match r {
                Some(i) => i < self.key_seq().len() && self.key_seq()[i as int] == k@,
                None => !self.has_key(k@),
            },
    {
        let n = self.pairs.len();
        let mut i: usize = 0;
        while i < n
            invariant
                n == self.key_seq().len(),
                i <= n,
                forall|j: int| 0 <= j < i ==> self.key_seq()[j] != k@,
            decreases n - i,
        {
            if str_eq(self.pairs[i].0.as_str(), k) {
                return Some(i);
            }
            i += 1;
        }
        None
    }

    /// The value mapped to `k`, or `None` for an unknown key.
    pub fn get(&self, k: &str) -> (r: Option<&V>)
        requires
            self.wf(),
        ensures
            match r {
                Some(v) => self.spec_get(k@) == Some(*v),
                None => self.spec_get(k@) is None,
            },
    {
        match self.find(k) {
            Some(i) => {
                proof {
                    let j = self.idx_of(k@);
                    assert(self.key_seq()[j] == k@);
                    assert(j == i);
                }
                Some(&self.pairs[i].1)
            },
            None => None,
        }
    }

    /// Whether the table has an entry for `k`.
    pub fn contains_key(&self, k: &str) -> (r: bool)
        ensures
            r == self.has_key(k@),
    {
        self.find(k).is_some()
    }

    /// Registers `v` under the new key `k`, appending it to the iteration
    /// order.  Fails, changing nothing, when the key is already present.
    pub fn insert(&mut self, k: String, v: V) -> (ok: bool)
        requires
            old(self).wf(),
        ensures
            final(self).wf(),
            ok == !old(self).has_key(k@),
            ok ==> final(self).key_seq() == old(self).key_seq().push(k@),
            ok ==> forall|i: int|
                0 <= i < old(self).key_seq().len() ==> final(self).val_at(i) == old(self).val_at(
                    i,
                ),
            ok ==> final(self).val_at(old(self).key_seq().len() as int) == v,
            ok ==> final(self).spec_get(k@) == Some(v),
            ok ==> forall|k2: Seq<char>|
                k2 != k@ ==> #[trigger] final(self).spec_get(k2) == old(self).spec_get(k2),
            !ok ==> *final(self) == *old(self),
    {
        if self.contains_key(k.as_str()) {
            return false;
        }
        let ghost pre = *self;
        let ghost kview = k@;
        self.pairs.push((k, v));
        proof {
            assert(self.key_seq() =~= pre.key_seq().push(kview));
            let n = pre.key_seq().len() as int;
            assert(self.key_seq()[n] == kview);
            assert(self.has_key(kview));
            assert(self.wf());
            let j = self.idx_of(kview);
            assert(self.key_seq()[j] == kview);
            if j != n {
                assert(pre.key_seq()[j] == kview);
                assert(pre.has_key(kview));
            }
            assert(self.spec_get(kview) == Some(v));
            assert forall|k2: Seq<char>| k2 != kview implies #[trigger] self.spec_get(k2)
                == pre.spec_get(k2) by {
                if self.has_key(k2) {
                    let i = self.idx_of(k2);
                    assert(self.key_seq()[i] == k2);
                    assert(i != n);
                    assert(pre.key_seq()[i] == k2);
                    assert(pre.has_key(k2));
                    let ip = pre.idx_of(k2);
                    assert(pre.key_seq()[ip] == k2);
                    assert(self.key_seq()[ip] == k2);
                    assert(ip == i);
                }
                if pre.has_key(k2) {
                    let i = pre.idx_of(k2);
                    assert(pre.key_seq()[i] == k2);
                    assert(self.key_seq()[i] == k2);
                    assert(self.has_key(k2));
                }
            }
        }
        true
    }

    /// Replaces the value stored under the existing key `k`, keeping its
    /// position in the iteration order.  Fails, changing nothing, for an
    /// unknown key.
    pub fn update(&mut self, k: &str, v: V) -> (ok: bool)
        requires
            old(self).wf(),
        ensures
            final(self).wf(),
            ok == old(self).has_key(k@),
            final(self).key_seq() == old(self).key_seq(),
            ok ==> final(self).spec_get(k@) == Some(v),
            ok ==> forall|i: int|
                0 <= i < old(self).key_seq().len() && old(self).key_seq()[i] != k@
                    ==> final(self).val_at(i) == old(self).val_at(i),
            ok ==> forall|k2: Seq<char>|
                k2 != k@ ==> #[trigger] final(self).spec_get(k2) == old(self).spec_get(k2),
            !ok ==> *final(self) == *old(self),
    {
        let ghost pre = *self;
        match self.find(k) {
            Some(i) => {
                let p = &mut self.pairs[i];
                let ghost kept = p.0;
                p.1 = v;
                proof {
                    assert(self.key_seq() =~= pre.key_seq());
                    let j = pre.idx_of(k@);
                    assert(pre.key_seq()[j] == k@);
                    assert(j == i);
                    assert(self.idx_of(k@) == pre.idx_of(k@));
                    assert(self.spec_get(k@) == Some(v));
                    assert forall|k2: Seq<char>| k2 != k@ implies #[trigger] self.spec_get(k2)
                        == pre.spec_get(k2) by {
                        if self.has_key(k2) {
                            let a = self.idx_of(k2);
                            assert(self.key_seq()[a] == k2);
                            assert(a != i);
                            assert(pre.idx_of(k2) == a);
                        }
                    }
                }
                true
            },
            None => false,
        }
    }

    /// Removes the entry for `k`, closing the gap in the iteration order; an
    /// unknown key is a silent no-op.
    pub fn remove(&mut self, k: &str) -> (ok: bool)
        requires
            old(self).wf(),
        ensures
            final(self).wf(),
            ok == old(self).has_key(k@),
            !final(self).has_key(k@),
            ok ==> final(self).key_seq() == old(self).key_seq().remove(old(self).idx_of(k@)),
            forall|k2: Seq<char>|
                k2 != k@ ==> #[trigger] final(self).spec_get(k2) == old(self).spec_get(k2),
            !ok ==> *final(self) == *old(self),
    {
        let ghost pre = *self;
        match self.find(k) {
            Some(i) => {
                self.pairs.remove(i);
                proof {
                    let j = pre.idx_of(k@);
                    assert(pre.key_seq()[j] == k@);
                    assert(j == i);
                    assert(self.key_seq() =~= pre.key_seq().remove(i as int));
                    assert forall|a: int| 0 <= a < self.key_seq().len() implies self.key_seq()[a]
                        == (if a < i {
                        pre.key_seq()[a]
                    } else {
                        pre.key_seq()[a + 1]
                    }) by {}
                    assert(self.key_seq().no_duplicates());
                    if self.has_key(k@) {
                        let a = self.idx_of(k@);
                        assert(self.key_seq()[a] == k@);
                        if a < i {
                            assert(pre.key_seq()[a] == k@);
                        } else {
                            assert(pre.key_seq()[a + 1] == k@);
                        }
                    }
                    assert forall|k2: Seq<char>| k2 != k@ implies #[trigger] self.spec_get(k2)
                        == pre.spec_get(k2) by {
                        if self.has_key(k2) {
                            let a = self.idx_of(k2);
                            assert(self.key_seq()[a] == k2);
                            let ap = if a < i {
                                a
                            } else {
                                a + 1
                            };
                            assert(pre.key_seq()[ap] == k2);
                            assert(pre.idx_of(k2) == ap);
                            assert(self.val_at(a) == pre.val_at(ap));
                        }
                        if pre.has_key(k2) {
                            let ap = pre.idx_of(k2);
                            assert(pre.key_seq()[ap] == k2);
                            assert(ap != i);
                            let a = if ap < i {
                                ap
                            } else {
                                ap - 1
                            };
                            assert(self.key_seq()[a] == k2);
                            assert(self.has_key(k2));
                        }
                    }
                }
                true
            },
            None => false,
        }
    }

    /// The keys, cloned, in insertion order.
    pub fn keys(&self) -> (r: Vec<String>)
        ensures
            crate::utils::views_of(r@) == self.key_seq(),
    {
        let mut out: Vec<String> = Vec::new();
        let n = self.pairs.len();
        let mut i: usize = 0;
        proof {
            assert(crate::utils::views_of(out@) =~= self.key_seq().take(0));
        }
        while i < n
            invariant
                n == self.key_seq().len(),
                i <= n,
                crate::utils::views_of(out@) == self.key_seq().take(i as int),
            decreases n - i,
        {
            let ghost prev = out@;
            out.push(self.pairs[i].0.clone());
            proof {
                assert(crate::utils::views_of(out@) =~= crate::utils::views_of(prev).push(
                    self.key_seq()[i as int],
                ));
                assert(self.key_seq().take(i + 1) =~= self.key_seq().take(i as int).push(
                    self.key_seq()[i as int],
                ));
            }
            i += 1;
        }
        proof {
            assert(self.key_seq().take(n as int) =~= self.key_seq());
        }
        out
    }
}

} // verus!
