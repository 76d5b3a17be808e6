//! Shared maintenance of "key -> list of remaining components" indices.
//!
//! A [`PostingsMap`] holds, for each projection key, the list of remaining
//! components across all tuples sharing that projection. Keys with an empty
//! list are never kept: removal evicts the key together with its last value,
//! and signals the caller so that a coarser parent index can be updated too.

use vstd::prelude::*;
use vstd::seq_lib::*;
use vstd::std_specs::cmp::PartialEqSpec;

verus! {

/// Holds when `==` on `T` decides exactly mathematical equality of the
/// values. Every key and value type used by this crate's indices (small
/// unsigned integers and pairs of them) satisfies it.
pub open spec fn eq_is_value_eq<T: PartialEq>() -> bool {
    &&& T::obeys_eq_spec()
    &&& forall|a: T, b: T| #[trigger] a.eq_spec(&b) <==> a == b
}

/// On indices and pairs of indices, `==` decides exactly mathematical
/// equality.
pub proof fn lemma_index_eq_is_value_eq()
    ensures
        eq_is_value_eq::<u32>(),
        eq_is_value_eq::<(u32, u32)>(),
{
}

/// Whether `lst` contains the value `w`.
pub fn contains_value<V: Copy + PartialEq>(lst: &Vec<V>, w: V) -> (r: bool)
    requires
        eq_is_value_eq::<V>(),
    ensures
        r == lst@.contains(w),
{
    let n = lst.len();
    let mut i: usize = 0;
    while i < n
        invariant
            eq_is_value_eq::<V>(),
            n == lst@.len(),
            i <= n,
            forall|j: int| 0 <= j < i ==> lst@[j] != w,
        decreases n - i,
    {
        let cand: V = lst[i];
        if cand == w {
            return true;
        }
        i += 1;
    }
    proof {
        if lst@.contains(w) {
            let p = choose|p: int| 0 <= p < lst@.len() && lst@[p] == w;
            assert(false);
        }
    }
    false
}

/// A mapping from projection keys to lists of values, stored as a vector of
/// entries with pairwise-distinct keys.
pub struct PostingsMap<K, V> {
    entries: Vec<(K, Vec<V>)>,
}

/// Shrinks a vector's backing storage to fit its contents.
///
/// Relies on `Vec::shrink_to_fit`: it only reduces capacity and leaves the
/// elements unchanged.
#[verifier::external_body]
pub(crate) fn shrink_vec<T>(v: &mut Vec<T>)
    ensures
        final(v)@ == old(v)@,
{
    v.shrink_to_fit()
}

impl<K: Copy + PartialEq, V: Copy + PartialEq> PostingsMap<K, V> {
    /// The sequence of keys, in storage order.
    pub closed spec fn key_seq(self) -> Seq<K> {
        self.entries@.map_values(|e: (K, Vec<V>)| e.0)
    }

    /// Well-formed: no key occurs twice.
    pub closed spec fn wf(self) -> bool {
        self.key_seq().no_duplicates()
    }

    /// Whether `k` currently has a postings list.
    pub closed spec fn has_key(self, k: K) -> bool {
        self.key_seq().contains(k)
    }

    spec fn key_index(self, k: K) -> int {
        self.key_seq().index_of(k)
    }

    /// The postings list under `k`; empty if `k` is absent.
    pub closed spec fn list_of(self, k: K) -> Seq<V> {
        if self.has_key(k) {
            self.entries@[self.key_index(k)].1@
        } else {
            Seq::empty()
        }
    }

    /// The whole mapping, as a map from keys to their lists.
    pub open spec fn contents(self) -> Map<K, Seq<V>> {
        Map::new(|k: K| self.has_key(k), |k: K| self.list_of(k))
    }

    proof fn lemma_entry_is_key_index(self, i: int, k: K)
        requires
            self.wf(),
            0 <= i < self.entries@.len(),
            self.entries@[i].0 == k,
        ensures
            self.has_key(k),
            self.key_index(k) == i,
            self.list_of(k) == self.entries@[i].1@,
    {
        assert(self.key_seq()[i] == k);
        assert(self.has_key(k));
        let j = self.key_index(k);
        assert(self.key_seq()[j] == k);
        assert(j == i);
    }

    /// An empty mapping.
    pub fn new() -> (r: Self)
        ensures
            r.wf(),
            forall|k: K| !r.has_key(k),
    {
        let r = PostingsMap { entries: Vec::new() };
        proof {
            assert(forall|k: K| !r.has_key(k));
        }
        r
    }

    fn find(&self, k: K) -> (r: Option<usize>)
        requires
            eq_is_value_eq::<K>(),
            self.wf(),
        ensures
            match r {
                Some(i) => {
                    &&& i < self.entries@.len()
                    &&& self.entries@[i as int].0 == k
                    &&& self.has_key(k)
                    &&& self.key_index(k) == i
                },
                None => !self.has_key(k),
            },
    {
        let n = self.entries.len();
        let mut i: usize = 0;
        while i < n
            invariant
                eq_is_value_eq::<K>(),
                self.wf(),
                n == self.entries@.len(),
                i <= n,
                forall|j: int| 0 <= j < i ==> self.entries@[j].0 != k,
            decreases n - i,
        {
            let cand: K = self.entries[i].0;
            if cand == k {
                proof {
                    self.lemma_entry_is_key_index(i as int, k);
                }
                return Some(i);
            }
            i += 1;
        }
        proof {
            assert(!self.has_key(k)) by {
                if self.has_key(k) {
                    let j = choose|j: int|
                        0 <= j < self.key_seq().len() && self.key_seq()[j] == k;
                    assert(self.entries@[j].0 == k);
                }
            }
        }
        None
    }

    /// The postings list under `k`, if `k` is present.
    pub fn get(&self, k: K) -> (r: Option<&Vec<V>>)
        requires
            eq_is_value_eq::<K>(),
            self.wf(),
        ensures
            match r {
                Some(lst) => self.has_key(k) && lst@ == self.list_of(k),
                None => !self.has_key(k),
            },
    {
        match self.find(k) {
            Some(i) => Some(&self.entries[i].1),
            None => None,
        }
    }

    /// How many keys are present.
    pub fn entry_count(&self) -> (n: usize)
        ensures
            n == self.key_seq().len(),
    {
        self.entries.len()
    }

    /// The key stored at position `i`.
    pub fn key_at(&self, i: usize) -> (k: K)
        requires
            i < self.key_seq().len(),
        ensures
            k == self.key_seq()[i as int],
            self.has_key(k),
    {
        proof {
            assert(self.key_seq()[i as int] == self.entries@[i as int].0);
        }
        self.entries[i].0
    }

    /// The postings list stored at position `i`.
    pub fn list_at(&self, i: usize) -> (lst: &Vec<V>)
        requires
            self.wf(),
            i < self.key_seq().len(),
        ensures
            lst@ == self.list_of(self.key_seq()[i as int]),
    {
        proof {
            self.lemma_entry_is_key_index(i as int, self.entries@[i as int].0);
        }
        &self.entries[i].1
    }

    /// A key has a postings list exactly when it occurs in the key
    /// sequence, and a well-formed map lists each key once.
    pub proof fn lemma_key_seq_facts(self)
        ensures
            forall|k: K| #[trigger] self.has_key(k) <==> self.key_seq().contains(k),
            self.wf() ==> self.key_seq().no_duplicates(),
            forall|k: K| !self.has_key(k) ==> #[trigger] self.list_of(k) == Seq::<V>::empty(),
    {
    }

    /// Pre-sizes the backing storage for `additional` more keys; no key or
    /// list changes.
    pub fn reserve(&mut self, additional: usize)
        ensures
            final(self).key_seq() == old(self).key_seq(),
            final(self).wf() == old(self).wf(),
            forall|k: K| final(self).has_key(k) == old(self).has_key(k),
            forall|k: K| final(self).list_of(k) == old(self).list_of(k),
    {
        self.entries.reserve(additional);
    }

    /// Shrinks the backing storage to fit the current contents; no key or
    /// list changes.
    pub fn compact(&mut self)
        ensures
            final(self).key_seq() == old(self).key_seq(),
            final(self).wf() == old(self).wf(),
            forall|k: K| final(self).has_key(k) == old(self).has_key(k),
            forall|k: K| final(self).list_of(k) == old(self).list_of(k),
    {
        shrink_vec(&mut self.entries);
    }
}

/// Appends `w` to the postings list under `k`, creating the list first if
/// `k` is new.
///
/// Returns `true` exactly when `k` was newly created, so that a caller
/// maintaining a coarser parent index knows to insert `k` there as well.
pub fn insert_in_index<K: Copy + PartialEq, V: Copy + PartialEq>(
    hm: &mut PostingsMap<K, V>,
    k: K,
    w: V,
) -> (created: bool)
    requires
        eq_is_value_eq::<K>(),
        old(hm).wf(),
    ensures
        final(hm).wf(),
        created == !old(hm).has_key(k),
        forall|k2: K| final(hm).has_key(k2) <==> (old(hm).has_key(k2) || k2 == k),
        final(hm).list_of(k) == old(hm).list_of(k).push(w),
        forall|k2: K| k2 != k ==> final(hm).list_of(k2) == old(hm).list_of(k2),
{
    match hm.find(k) {
        None => {
            let ghost pre = *hm;
            let mut lst: Vec<V> = Vec::new();
            lst.push(w);
            hm.entries.push((k, lst));
            proof {
                let e = pre.entries@;
                let f = hm.entries@;
                let n = e.len() as int;
                assert(forall|j: int| 0 <= j < n ==> f[j] == e[j]);
                assert(forall|j: int| 0 <= j < n ==> hm.key_seq()[j] == pre.key_seq()[j]);
                assert(hm.key_seq()[n] == k);
                assert forall|j1: int, j2: int|
                    0 <= j1 < j2 < n + 1 implies hm.key_seq()[j1]
                    != hm.key_seq()[j2] by {
                    if j2 == n {
                        assert(pre.key_seq()[j1] == hm.key_seq()[j1]);
                        if pre.key_seq()[j1] == k {
                            assert(pre.key_seq().contains(k));
                            assert(false);
                        }
                    } else {
                        assert(hm.key_seq()[j1] == pre.key_seq()[j1]);
                        assert(hm.key_seq()[j2] == pre.key_seq()[j2]);
                        assert(pre.key_seq()[j1] != pre.key_seq()[j2]);
                    }
                }
                assert(hm.wf());
                assert forall|k2: K| #[trigger] hm.has_key(k2) implies (pre.has_key(k2) || k2
                    == k) by {
                    let j = choose|j: int|
                        0 <= j < hm.key_seq().len() && hm.key_seq()[j] == k2;
                    if j < n {
                        assert(pre.key_seq()[j] == k2);
                    }
                }
                assert forall|k2: K| #[trigger] pre.has_key(k2) implies hm.has_key(k2) by {
                    let j = choose|j: int|
                        0 <= j < pre.key_seq().len() && pre.key_seq()[j] == k2;
                    assert(hm.key_seq()[j] == k2);
                }
                hm.lemma_entry_is_key_index(n, k);
                assert(hm.list_of(k) =~= pre.list_of(k).push(w));
                assert forall|k2: K| k2 != k implies hm.list_of(k2) == pre.list_of(
                    k2,
                ) by {
                    if pre.has_key(k2) {
                        let j = choose|j: int|
                            0 <= j < pre.key_seq().len() && pre.key_seq()[j] == k2;
                        pre.lemma_entry_is_key_index(j, k2);
                        hm.lemma_entry_is_key_index(j, k2);
                    }
                }
            }
            true
        },
        Some(i) => {
            let ghost pre = *hm;
            let (key, mut lst) = hm.entries.swap_remove(i);
            lst.push(w);
            hm.entries.push((key, lst));
            proof {
                let e = pre.entries@;
                let f = hm.entries@;
                let n = e.len() as int;
                let ii = i as int;
                assert(f.len() == n);
                assert(key == e[ii].0 && key == k);
                assert(f[n - 1].0 == k);
                assert(f[n - 1].1@ == e[ii].1@.push(w));
                assert(forall|j: int| 0 <= j < n - 1 && j != ii ==> f[j] == e[j]);
                assert(ii < n - 1 ==> f[ii] == e[n - 1]);
                assert(forall|j: int| 0 <= j < n ==> hm.key_seq()[j] == f[j].0);
                assert(forall|j: int| 0 <= j < n ==> pre.key_seq()[j] == e[j].0);
                assert forall|j1: int, j2: int|
                    0 <= j1 < j2 < n implies hm.key_seq()[j1] != hm.key_seq()[j2] by {
                    let p1 = if j1 == ii && j1 < n - 1 {
                        n - 1
                    } else {
                        j1
                    };
                    let p2 = if j2 == n - 1 {
                        ii
                    } else if j2 == ii {
                        n - 1
                    } else {
                        j2
                    };
                    assert(hm.key_seq()[j1] == e[p1].0);
                    assert(hm.key_seq()[j2] == e[p2].0);
                    assert(p1 != p2);
                    assert(pre.key_seq()[p1] == e[p1].0);
                    assert(pre.key_seq()[p2] == e[p2].0);
                    assert(pre.key_seq()[p1] != pre.key_seq()[p2]);
                }
                assert(hm.wf());
                assert forall|k2: K| #[trigger] hm.has_key(k2) implies (pre.has_key(k2) || k2
                    == k) by {
                    let j = choose|j: int|
                        0 <= j < hm.key_seq().len() && hm.key_seq()[j] == k2;
                    if j == n - 1 {
                        assert(k2 == k);
                    } else if j == ii {
                        assert(pre.key_seq()[n - 1] == k2);
                    } else {
                        assert(pre.key_seq()[j] == k2);
                    }
                }
                assert forall|k2: K| #[trigger] pre.has_key(k2) implies hm.has_key(k2) by {
                    let j = choose|j: int|
                        0 <= j < pre.key_seq().len() && pre.key_seq()[j] == k2;
                    if j == ii {
                        assert(hm.key_seq()[n - 1] == k);
                    } else if j == n - 1 {
                        if ii < n - 1 {
                            assert(hm.key_seq()[ii] == k2);
                        }
                    } else {
                        assert(hm.key_seq()[j] == k2);
                    }
                }
                assert(hm.key_seq()[n - 1] == k);
                hm.lemma_entry_is_key_index(n - 1, k);
                pre.lemma_entry_is_key_index(ii, k);
                assert(hm.list_of(k) =~= pre.list_of(k).push(w));
                assert forall|k2: K| k2 != k implies hm.list_of(k2) == pre.list_of(
                    k2,
                ) by {
                    if pre.has_key(k2) {
                        let j = choose|j: int|
                            0 <= j < pre.key_seq().len() && pre.key_seq()[j] == k2;
                        pre.lemma_entry_is_key_index(j, k2);
                        if j == n - 1 {
                            assert(ii < n - 1);
                            hm.lemma_entry_is_key_index(ii, k2);
                        } else {
                            hm.lemma_entry_is_key_index(j, k2);
                        }
                    } else {
                        assert(!hm.has_key(k2));
                    }
                }
            }
            false
        },
    }
}

/// Removes `w` from the postings list under `k`, by unordered
/// (swap-with-last) deletion; if the list becomes empty, the whole entry for
/// `k` is dropped.
///
/// Returns `true` exactly when the entry was dropped, so that a caller
/// maintaining a coarser parent index knows to remove `k` there as well.
/// `k` must be a key of `hm` and `w` must be in its list.
pub fn remove_from_index<K: Copy + PartialEq, V: Copy + PartialEq>(
    hm: &mut PostingsMap<K, V>,
    k: K,
    w: V,
) -> (removed: bool)
    requires
        eq_is_value_eq::<K>(),
        eq_is_value_eq::<V>(),
        old(hm).wf(),
        old(hm).has_key(k),
        old(hm).list_of(k).contains(w),
    ensures
        final(hm).wf(),
        removed == (old(hm).list_of(k).len() == 1),
        forall|k2: K|
            final(hm).has_key(k2) <==> (old(hm).has_key(k2) && !(k2 == k && removed)),
        forall|k2: K| k2 != k ==> final(hm).list_of(k2) == old(hm).list_of(k2),
        final(hm).list_of(k).len() == old(hm).list_of(k).len() - 1,
        old(hm).list_of(k).no_duplicates() ==> {
            &&& final(hm).list_of(k).no_duplicates()
            &&& forall|v: V|
                final(hm).list_of(k).contains(v) <==> (old(hm).list_of(k).contains(v) && v
                    != w)
        },
{
    let i = match hm.find(k) {
        Some(i) => i,
        None => {
            proof {
                assert(false);
            }
            0
        },
    };
    let ghost pre = *hm;
    let ghost e = pre.entries@;
    let ghost n = e.len() as int;
    let ghost ii = i as int;
    let (key, mut lst) = hm.entries.swap_remove(i);
    proof {
        pre.lemma_entry_is_key_index(ii, k);
    }
    if lst.len() > 1 {
        let ghost l = lst@;
        let wi = find_value(&lst, w);
        lst.swap_remove(wi);
        let ghost l2 = lst@;
        proof {
            let wii = wi as int;
            let m = l.len() as int;
            assert(l2.len() == m - 1);
            assert(forall|j: int| 0 <= j < m - 1 && j != wii ==> l2[j] == l[j]);
            assert(wii < m - 1 ==> l2[wii] == l[m - 1]);
            if l.no_duplicates() {
                assert forall|v: V| #[trigger] l2.contains(v) implies (l.contains(v) && v
                    != w) by {
                    let p = choose|p: int| 0 <= p < l2.len() && l2[p] == v;
                    if p == wii {
                        assert(l[m - 1] == v);
                    } else {
                        assert(l[p] == v);
                    }
                }
                assert forall|v: V| l.contains(v) && v != w implies l2.contains(v) by {
                    let p = choose|p: int| 0 <= p < l.len() && l[p] == v;
                    if p == m - 1 {
                        assert(l2[wii] == v);
                    } else {
                        assert(l2[p] == v);
                    }
                }
                assert forall|p1: int, p2: int|
                    0 <= p1 < p2 < m - 1 implies l2[p1] != l2[p2] by {
                    let q1 = if p1 == wii {
                        m - 1
                    } else {
                        p1
                    };
                    let q2 = if p2 == wii {
                        m - 1
                    } else {
                        p2
                    };
                    assert(l2[p1] == l[q1]);
                    assert(l2[p2] == l[q2]);
                }
                assert(l2.no_duplicates());
            }
        }
        hm.entries.push((key, lst));
        proof {
            let f = hm.entries@;
            assert(f.len() == n);
            assert(f[n - 1].0 == k && f[n - 1].1@ == lst@);
            assert(forall|j: int| 0 <= j < n - 1 && j != ii ==> f[j] == e[j]);
            assert(ii < n - 1 ==> f[ii] == e[n - 1]);
            assert(forall|j: int| 0 <= j < n ==> hm.key_seq()[j] == f[j].0);
            assert(forall|j: int| 0 <= j < n ==> pre.key_seq()[j] == e[j].0);
            assert forall|j1: int, j2: int|
                0 <= j1 < j2 < n implies hm.key_seq()[j1] != hm.key_seq()[j2] by {
                let p1 = if j1 == ii && j1 < n - 1 {
                    n - 1
                } else {
                    j1
                };
                let p2 = if j2 == n - 1 {
                    ii
                } else if j2 == ii {
                    n - 1
                } else {
                    j2
                };
                assert(hm.key_seq()[j1] == e[p1].0);
                assert(hm.key_seq()[j2] == e[p2].0);
                assert(p1 != p2);
                assert(pre.key_seq()[p1] == e[p1].0);
                assert(pre.key_seq()[p2] == e[p2].0);
                assert(pre.key_seq()[p1] != pre.key_seq()[p2]);
            }
            assert(hm.wf());
            assert forall|k2: K| #[trigger] hm.has_key(k2) implies pre.has_key(k2) by {
                let j = choose|j: int| 0 <= j < hm.key_seq().len() && hm.key_seq()[j] == k2;
                if j == n - 1 {
                    assert(pre.key_seq()[ii] == k2);
                } else if j == ii {
                    assert(pre.key_seq()[n - 1] == k2);
                } else {
                    assert(pre.key_seq()[j] == k2);
                }
            }
            assert forall|k2: K| #[trigger] pre.has_key(k2) implies hm.has_key(k2) by {
                let j = choose|j: int| 0 <= j < pre.key_seq().len() && pre.key_seq()[j] == k2;
                if j == ii {
                    assert(hm.key_seq()[n - 1] == k);
                } else if j == n - 1 {
                    if ii < n - 1 {
                        assert(hm.key_seq()[ii] == k2);
                    }
                } else {
                    assert(hm.key_seq()[j] == k2);
                }
            }
            hm.lemma_entry_is_key_index(n - 1, k);
            assert forall|k2: K| k2 != k implies hm.list_of(k2) == pre.list_of(k2) by {
                if pre.has_key(k2) {
                    let j = choose|j: int|
                        0 <= j < pre.key_seq().len() && pre.key_seq()[j] == k2;
                    pre.lemma_entry_is_key_index(j, k2);
                    if j == n - 1 {
                        assert(ii < n - 1);
                        hm.lemma_entry_is_key_index(ii, k2);
                    } else {
                        hm.lemma_entry_is_key_index(j, k2);
                    }
                } else {
                    assert(!hm.has_key(k2));
                }
            }
        }
        false
    } else {
        proof {
            let wj = choose|p: int| 0 <= p < lst@.len() && lst@[p] == w;
            assert(lst@.len() == 1 && lst@[0] == w);
        }
        proof {
            let f = hm.entries@;
            assert(f.len() == n - 1);
            assert(forall|j: int| 0 <= j < n - 1 && j != ii ==> f[j] == e[j]);
            assert(ii < n - 1 ==> f[ii] == e[n - 1]);
            assert(forall|j: int| 0 <= j < n - 1 ==> hm.key_seq()[j] == f[j].0);
            assert(forall|j: int| 0 <= j < n ==> pre.key_seq()[j] == e[j].0);
            assert forall|j1: int, j2: int|
                0 <= j1 < j2 < n - 1 implies hm.key_seq()[j1] != hm.key_seq()[j2] by {
                let p1 = if j1 == ii {
                    n - 1
                } else {
                    j1
                };
                let p2 = if j2 == ii {
                    n - 1
                } else {
                    j2
                };
                assert(hm.key_seq()[j1] == e[p1].0);
                assert(hm.key_seq()[j2] == e[p2].0);
                assert(p1 != p2);
                assert(pre.key_seq()[p1] == e[p1].0);
                assert(pre.key_seq()[p2] == e[p2].0);
                assert(pre.key_seq()[p1] != pre.key_seq()[p2]);
            }
            assert(hm.wf());
            assert forall|k2: K| #[trigger] hm.has_key(k2) implies (pre.has_key(k2) && k2
                != k) by {
                let j = choose|j: int| 0 <= j < hm.key_seq().len() && hm.key_seq()[j] == k2;
                if j == ii {
                    assert(pre.key_seq()[n - 1] == k2);
                    assert(k2 != k);
                } else {
                    assert(pre.key_seq()[j] == k2);
                    assert(k2 != k);
                }
            }
            assert forall|k2: K| pre.has_key(k2) && k2 != k implies hm.has_key(k2) by {
                let j = choose|j: int| 0 <= j < pre.key_seq().len() && pre.key_seq()[j] == k2;
                assert(j != ii);
                if j == n - 1 {
                    assert(ii < n - 1);
                    assert(hm.key_seq()[ii] == k2);
                } else {
                    assert(hm.key_seq()[j] == k2);
                }
            }
            assert(!hm.has_key(k));
            assert forall|k2: K| k2 != k implies hm.list_of(k2) == pre.list_of(k2) by {
                if pre.has_key(k2) {
                    let j = choose|j: int|
                        0 <= j < pre.key_seq().len() && pre.key_seq()[j] == k2;
                    pre.lemma_entry_is_key_index(j, k2);
                    if j == n - 1 {
                        assert(ii < n - 1);
                        hm.lemma_entry_is_key_index(ii, k2);
                    } else {
                        hm.lemma_entry_is_key_index(j, k2);
                    }
                } else {
                    assert(!hm.has_key(k2));
                }
            }
        }
        true
    }
}

/// The position of `w` in `lst`, which must contain it.
fn find_value<V: Copy + PartialEq>(lst: &Vec<V>, w: V) -> (r: usize)
    requires
        eq_is_value_eq::<V>(),
        lst@.contains(w),
    ensures
        r < lst@.len(),
        lst@[r as int] == w,
{
    let n = lst.len();
    let mut i: usize = 0;
    while i < n
        invariant
            eq_is_value_eq::<V>(),
            lst@.contains(w),
            n == lst@.len(),
            i <= n,
            forall|j: int| 0 <= j < i ==> lst@[j] != w,
        decreases n - i,
    {
        let cand: V = lst[i];
        if cand == w {
            return i;
        }
        i += 1;
    }
    proof {
        let p = choose|p: int| 0 <= p < lst@.len() && lst@[p] == w;
        assert(false);
    }
    0
}

} // verus!
