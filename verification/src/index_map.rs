//! A reference-counted bidirectional mapping between terms and indices.
//!
//! A term index map owns the term-to-index mapping plus a per-index
//! reference count: an index is mapped exactly while its count is at least
//! one, and a fully released index becomes free for reuse. One reserved
//! index, the null index, is never mapped to any term.

use crate::term::{Term, TermView};
use vstd::prelude::*;
use vstd::seq_lib::*;

verus! {

/// The reserved index that is never associated to any term.
pub const NULL_INDEX: u32 = 0;

/// The greatest number of terms a table can hold at once: every non-null
/// `u32` value is an admissible index.
pub const MAX_TERMS: u32 = 0xFFFF_FFFF;

/// Whether some index of `m` currently maps to `t`.
pub open spec fn has_term<T: TermIndexMap>(m: &T, t: TermView) -> bool {
    exists|i: u32| m.term_at(i) == Some(t)
}

/// Whether `m` maps no term at all.
pub open spec fn is_empty_map<T: TermIndexMap>(m: &T) -> bool {
    forall|i: u32| m.term_at(i) is None
}

/// Whether interning `t` once more into `m` is within the machine limits:
/// the count of an already-known term must not saturate, and an unknown term
/// needs one spare index.
pub open spec fn can_intern<T: TermIndexMap>(m: &T, t: TermView) -> bool {
    if has_term(m, t) {
        forall|i: u32| m.term_at(i) == Some(t) ==> m.rc_at(i) < u64::MAX
    } else {
        m.spare() > 0
    }
}

/// Whether two maps are observably identical.
pub open spec fn same_state<T: TermIndexMap>(m: &T, other: &T) -> bool {
    &&& forall|i: u32| #[trigger] m.term_at(i) == other.term_at(i)
    &&& forall|i: u32| #[trigger] m.rc_at(i) == other.rc_at(i)
    &&& m.spare() == other.spare()
}

/// A reference-counted bidirectional mapping between [`Term`]s and `u32`
/// indices.
///
/// The abstract state is, per index, the term mapped there (if any), its
/// reference count, and the number of indices still available. The null
/// index is never mapped; distinct mapped indices hold distinct terms.
pub trait TermIndexMap: Sized {
    /// The term currently mapped at index `i`, if any.
    spec fn term_at(&self, i: u32) -> Option<TermView>;

    /// The reference count of index `i`; zero when `i` is unmapped.
    spec fn rc_at(&self, i: u32) -> nat;

    /// How many more distinct terms the map can still accept.
    spec fn spare(&self) -> int;

    /// The implementation's internal invariant.
    spec fn inv(&self) -> bool;

    /// The invariant makes the null index unmapped, keeps mapped terms
    /// pairwise distinct, and ties positive counts to mapped indices.
    proof fn lemma_inv_facts(&self)
        requires
            self.inv(),
        ensures
            self.term_at(NULL_INDEX) is None,
            forall|i1: u32, i2: u32|
                #[trigger] self.term_at(i1) is Some && self.term_at(i1) == #[trigger] self.term_at(
                    i2,
                ) ==> i1 == i2,
            forall|i: u32| #[trigger] self.term_at(i) is Some <==> self.rc_at(i) > 0,
    ;

    /// The index associated to `t`, if `t` is known; no mutation.
    fn get_index(&self, t: &Term) -> (r: Option<u32>)
        requires
            self.inv(),
        ensures
            match r {
                Some(i) => self.term_at(i) == Some(t@),
                None => forall|j: u32| self.term_at(j) != Some(t@),
            },
    ;

    /// The index associated to `t`, created if required; the reference
    /// count of the returned index grows by one (from zero for a term that
    /// was unknown).
    fn make_index(&mut self, t: &Term) -> (i: u32)
        requires
            old(self).inv(),
            (forall|j: u32| old(self).term_at(j) != Some(t@)) ==> old(self).spare() > 0,
            forall|j: u32| old(self).term_at(j) == Some(t@) ==> old(self).rc_at(j) < u64::MAX,
        ensures
            final(self).inv(),
            i != NULL_INDEX,
            final(self).term_at(i) == Some(t@),
            final(self).rc_at(i) == old(self).rc_at(i) + 1,
            (exists|j: u32| old(self).term_at(j) == Some(t@)) ==> old(self).term_at(i) == Some(
                t@,
            ) && final(self).spare() == old(self).spare(),
            (forall|j: u32| old(self).term_at(j) != Some(t@)) ==> old(self).term_at(i) is None
                && final(self).spare() == old(self).spare() - 1,
            forall|j: u32| j != i ==> #[trigger] final(self).term_at(j) == old(self).term_at(j),
            forall|j: u32| j != i ==> #[trigger] final(self).rc_at(j) == old(self).rc_at(j),
    ;

    /// The term associated to index `i`, if any; `None` for the null index
    /// and for any unallocated index.
    fn get_term(&self, i: u32) -> (r: Option<&Term>)
        requires
            self.inv(),
        ensures
            match r {
                Some(tm) => self.term_at(i) == Some(tm@),
                None => self.term_at(i) is None,
            },
    ;

    /// Increases the reference count of index `i`; no-op on the null index.
    fn inc_ref(&mut self, i: u32)
        requires
            old(self).inv(),
            i != NULL_INDEX ==> old(self).term_at(i) is Some && old(self).rc_at(i) < u64::MAX,
        ensures
            final(self).inv(),
            i == NULL_INDEX ==> {
                &&& forall|j: u32| #[trigger] final(self).term_at(j) == old(self).term_at(j)
                &&& forall|j: u32| #[trigger] final(self).rc_at(j) == old(self).rc_at(j)
                &&& final(self).spare() == old(self).spare()
            },
            i != NULL_INDEX ==> {
                &&& final(self).rc_at(i) == old(self).rc_at(i) + 1
                &&& final(self).spare() == old(self).spare()
                &&& forall|j: u32| #[trigger] final(self).term_at(j) == old(self).term_at(j)
                &&& forall|j: u32| j != i ==> #[trigger] final(self).rc_at(j) == old(self).rc_at(j)
            },
    ;

    /// Decreases the reference count of index `i`; no-op on the null index.
    /// Dropping the count to zero erases the mapping and frees the index.
    /// Releasing an unmapped index is a caller precondition violation.
    fn dec_ref(&mut self, i: u32)
        requires
            old(self).inv(),
            i != NULL_INDEX ==> old(self).term_at(i) is Some,
        ensures
            final(self).inv(),
            i == NULL_INDEX ==> {
                &&& forall|j: u32| #[trigger] final(self).term_at(j) == old(self).term_at(j)
                &&& forall|j: u32| #[trigger] final(self).rc_at(j) == old(self).rc_at(j)
                &&& final(self).spare() == old(self).spare()
            },
            i != NULL_INDEX ==> {
                &&& final(self).rc_at(i) == old(self).rc_at(i) - 1
                &&& final(self).term_at(i) == (if old(self).rc_at(i) > 1 {
                    old(self).term_at(i)
                } else {
                    None
                })
                &&& final(self).spare() == (if old(self).rc_at(i) > 1 {
                    old(self).spare()
                } else {
                    old(self).spare() + 1
                })
                &&& forall|j: u32|
                    j != i ==> #[trigger] final(self).term_at(j) == old(self).term_at(j)
                &&& forall|j: u32| j != i ==> #[trigger] final(self).rc_at(j) == old(self).rc_at(j)
            },
    ;

    /// Shrinks the backing storage as much as possible; no observable
    /// mapping changes.
    fn shrink_to_fit(&mut self)
        requires
            old(self).inv(),
        ensures
            final(self).inv(),
            forall|j: u32| #[trigger] final(self).term_at(j) == old(self).term_at(j),
            forall|j: u32| #[trigger] final(self).rc_at(j) == old(self).rc_at(j),
            final(self).spare() == old(self).spare(),
    ;
}

/// Takes an empty term index map and exercises its whole contract; every
/// check is proved, for any implementation, from the trait's contracts
/// alone.
///
/// In particular: a term that was never interned has no index; after
/// interning it, looking it up yields the new index and resolving that index
/// yields the term back; interning twice yields the same index, and the
/// matching number of releases makes the term unknown again; releasing one
/// of two terms leaves the other mapped. The map ends empty again, with as
/// many spare indices as it started with.
pub fn assert_term_index_map_works<T: TermIndexMap>(ti: &mut T)
    requires
        old(ti).inv(),
        is_empty_map(old(ti)),
        old(ti).spare() >= 2,
    ensures
        final(ti).inv(),
        is_empty_map(final(ti)),
        final(ti).spare() == old(ti).spare(),
{
    let t = Term::new_iri("http://example.org/");
    proof {
        ti.lemma_inv_facts();
        assert(!has_term(ti, t@)) by {
            if has_term(ti, t@) {
                let i = choose|i: u32| ti.term_at(i) == Some(t@);
                assert(ti.term_at(i) is None);
            }
        }
    }
    let r = ti.get_index(&t);
    assert(r is None);

    // insert term, then remove it

    let it = ti.make_index(&t);
    proof {
        ti.lemma_inv_facts();
    }
    let r = ti.get_index(&t);
    assert(r == Some(it));
    match ti.get_term(it) {
        Some(tm) => assert(tm@ == t@),
        None => assert(false),
    }

    ti.dec_ref(it);
    proof {
        ti.lemma_inv_facts();
    }
    let r = ti.get_index(&t);
    assert(r is None);
    let r = ti.get_term(it);
    assert(r is None);

    // insert term twice, then remove it

    let it = ti.make_index(&t);
    proof {
        ti.lemma_inv_facts();
    }
    let r = ti.get_index(&t);
    assert(r == Some(it));
    match ti.get_term(it) {
        Some(tm) => assert(tm@ == t@),
        None => assert(false),
    }

    let it2 = ti.make_index(&t);
    assert(it == it2);

    ti.dec_ref(it);
    proof {
        ti.lemma_inv_facts();
    }
    let r = ti.get_index(&t);
    assert(r == Some(it));
    match ti.get_term(it) {
        Some(tm) => assert(tm@ == t@),
        None => assert(false),
    }

    ti.dec_ref(it);
    proof {
        ti.lemma_inv_facts();
    }
    let r = ti.get_index(&t);
    assert(r is None);
    let r = ti.get_term(it);
    assert(r is None);

    // insert term, retain it, then remove it

    let it = ti.make_index(&t);
    proof {
        ti.lemma_inv_facts();
    }
    let r = ti.get_index(&t);
    assert(r == Some(it));
    match ti.get_term(it) {
        Some(tm) => assert(tm@ == t@),
        None => assert(false),
    }

    ti.inc_ref(it);

    ti.dec_ref(it);
    proof {
        ti.lemma_inv_facts();
    }
    let r = ti.get_index(&t);
    assert(r == Some(it));
    match ti.get_term(it) {
        Some(tm) => assert(tm@ == t@),
        None => assert(false),
    }

    ti.dec_ref(it);
    proof {
        ti.lemma_inv_facts();
    }
    let r = ti.get_index(&t);
    assert(r is None);
    let r = ti.get_term(it);
    assert(r is None);

    // insert two terms, then remove them

    let t1 = t;
    let t2 = Term::new_iri("http://example.org/2");
    proof {
        reveal_strlit("http://example.org/");
        reveal_strlit("http://example.org/2");
        assert(("http://example.org/"@).len() == 19);
        assert(("http://example.org/2"@).len() == 20);
        assert(t1@ != t2@);
    }
    let it1 = ti.make_index(&t1);
    let it2 = ti.make_index(&t2);
    assert(it1 != it2);

    ti.dec_ref(it2);
    proof {
        ti.lemma_inv_facts();
        assert(ti.term_at(it1) == Some(t1@));
    }
    let r = ti.get_index(&t1);
    assert(r is Some);
    let r = ti.get_index(&t2);
    assert(r is None);

    ti.dec_ref(it1);
    proof {
        ti.lemma_inv_facts();
    }
    let r = ti.get_index(&t1);
    assert(r is None);
    let r = ti.get_index(&t2);
    assert(r is None);
    proof {
        assert forall|i: u32| final(ti).term_at(i) is None by {
            if i != it1 && i != it2 && i != it {
                assert(old(ti).term_at(i) is None);
            }
        }
    }
}

struct TermEntry {
    term: Term,
    rc: u64,
}

/// The concrete term index map: a slot vector addressed by `index - 1`,
/// plus a list of freed indices available for reuse.
pub struct TermTable {
    slots: Vec<Option<TermEntry>>,
    free: Vec<u32>,
}

impl TermTable {
    spec fn slot_term(self, p: int) -> Option<TermView> {
        match self.slots@[p] {
            Some(e) => Some(e.term@),
            None => None,
        }
    }

    spec fn slot_rc(self, p: int) -> nat {
        match self.slots@[p] {
            Some(e) => e.rc as nat,
            None => 0,
        }
    }

    /// An empty table: nothing mapped, every index spare.
    pub fn new() -> (r: TermTable)
        ensures
            r.inv(),
            is_empty_map(&r),
            r.spare() == MAX_TERMS,
    {
        let r = TermTable { slots: Vec::new(), free: Vec::new() };
        proof {
            assert(forall|i: u32| r.term_at(i) is None);
        }
        r
    }
}

impl Default for TermTable {
    /// An empty table, as [`TermTable::new`] builds it.
    fn default() -> (r: TermTable)
        ensures
            r.inv(),
            is_empty_map(&r),
            r.spare() == MAX_TERMS,
    {
        TermTable::new()
    }
}

impl TermIndexMap for TermTable {
    closed spec fn term_at(&self, i: u32) -> Option<TermView> {
        if 1 <= i && i <= self.slots@.len() {
            self.slot_term(i as int - 1)
        } else {
            None
        }
    }

    closed spec fn rc_at(&self, i: u32) -> nat {
        if 1 <= i && i <= self.slots@.len() {
            self.slot_rc(i as int - 1)
        } else {
            0
        }
    }

    closed spec fn spare(&self) -> int {
        self.free@.len() + (MAX_TERMS - self.slots@.len())
    }

    closed spec fn inv(&self) -> bool {
        &&& self.slots@.len() <= MAX_TERMS
        &&& (forall|p: int|
            0 <= p < self.slots@.len() ==> (#[trigger] self.slot_term(p) is Some <==> self.slot_rc(
                p,
            ) > 0))
        &&& (forall|p1: int, p2: int|
            0 <= p1 < self.slots@.len() && 0 <= p2 < self.slots@.len() && p1 != p2 && #[trigger] self.slot_term(
                p1,
            ) is Some ==> self.slot_term(p1) != #[trigger] self.slot_term(p2))
        &&& self.free@.no_duplicates()
        &&& (forall|j: int|
            0 <= j < self.free@.len() ==> 1 <= #[trigger] self.free@[j] && self.free@[j]
                <= self.slots@.len() && self.slot_term(self.free@[j] - 1) is None)
    }

    proof fn lemma_inv_facts(&self) {
        assert forall|i1: u32, i2: u32|
            #[trigger] self.term_at(i1) is Some && self.term_at(i1) == #[trigger] self.term_at(
                i2,
            ) implies i1 == i2 by {
            if i1 != i2 {
                assert(self.slot_term(i1 as int - 1) is Some);
                assert(self.slot_term(i1 as int - 1) != self.slot_term(i2 as int - 1));
            }
        }
    }

    fn get_index(&self, t: &Term) -> (r: Option<u32>) {
        let n = self.slots.len();
        let mut p: usize = 0;
        while p < n
            invariant
                self.inv(),
                n == self.slots@.len(),
                p <= n,
                forall|q: int| 0 <= q < p ==> #[trigger] self.slot_term(q) != Some(t@),
            decreases n - p,
        {
            match &self.slots[p] {
                Some(e) => {
                    if e.term.same_term(t) {
                        proof {
                            assert(self.term_at((p + 1) as u32) == Some(t@));
                        }
                        return Some((p as u32) + 1);
                    }
                },
                None => {},
            }
            p += 1;
        }
        proof {
            assert forall|i: u32| self.term_at(i) != Some(t@) by {
                if 1 <= i && i <= n {
                    assert(self.slot_term(i as int - 1) != Some(t@));
                }
            }
        }
        None
    }

    fn make_index(&mut self, t: &Term) -> (i: u32) {
        let ghost pre = *self;
        match self.get_index(t) {
            Some(i) => {
                proof {
                    assert(1 <= i && i <= self.slots@.len());
                    assert(self.slot_rc(i as int - 1) < u64::MAX);
                }
                let p = (i - 1) as usize;
                let rc = match &self.slots[p] {
                    Some(e) => e.rc,
                    None => 0,
                };
                let tm = t.clone();
                self.slots[p] = Some(TermEntry { term: tm, rc: rc + 1 });
                proof {
                    assert(forall|q: int|
                        0 <= q < self.slots@.len() && q != p ==> self.slots@[q] == pre.slots@[q]);
                    assert(self.slot_term(p as int) == Some(t@));
                    assert(forall|q: int|
                        0 <= q < self.slots@.len() && q != p ==> #[trigger] self.slot_term(q)
                            == pre.slot_term(q) && self.slot_rc(q) == pre.slot_rc(q));
                    assert(forall|j: int|
                        0 <= j < self.free@.len() ==> #[trigger] self.free@[j] != i);
                    assert(self.inv());
                    assert(forall|j: u32|
                        j != i ==> #[trigger] self.term_at(j) == pre.term_at(j) && self.rc_at(j)
                            == pre.rc_at(j));
                }
                i
            },
            None => {
                let tm = t.clone();
                match self.free.pop() {
                    Some(i) => {
                        proof {
                            assert(pre.free@.last() == i);
                            assert(1 <= i && i <= self.slots@.len());
                            assert(pre.slot_term(i as int - 1) is None);
                        }
                        let p = (i - 1) as usize;
                        self.slots[p] = Some(TermEntry { term: tm, rc: 1 });
                        proof {
                            assert forall|q: int|
                                0 <= q < pre.slots@.len() implies pre.slot_term(q) != Some(
                                t@,
                            ) by {
                                assert(pre.term_at((q + 1) as u32) == pre.slot_term(q));
                            }
                            assert(forall|q: int|
                                0 <= q < self.slots@.len() && q != p ==> self.slots@[q]
                                    == pre.slots@[q]);
                            assert(self.slot_term(p as int) == Some(t@));
                            assert(forall|q: int|
                                0 <= q < self.slots@.len() && q != p ==> #[trigger] self.slot_term(
                                    q,
                                ) == pre.slot_term(q) && self.slot_rc(q) == pre.slot_rc(q));
                            assert(self.free@ == pre.free@.drop_last());
                            assert forall|j: int|
                                0 <= j < self.free@.len() implies 1 <= #[trigger] self.free@[j]
                                && self.free@[j] <= self.slots@.len() && self.slot_term(
                                self.free@[j] - 1,
                            ) is None by {
                                assert(pre.free@[j] == self.free@[j]);
                                assert(self.free@[j] != i);
                            }
                            assert(self.inv());
                            assert(forall|j: u32|
                                j != i ==> #[trigger] self.term_at(j) == pre.term_at(j)
                                    && self.rc_at(j) == pre.rc_at(j));
                        }
                        i
                    },
                    None => {
                        proof {
                            assert(self.spare() == pre.spare());
                            assert(self.slots@.len() < MAX_TERMS);
                        }
                        self.slots.push(Some(TermEntry { term: tm, rc: 1 }));
                        let i = self.slots.len() as u32;
                        proof {
                            let n = self.slots@.len() as int;
                            assert forall|q: int|
                                0 <= q < pre.slots@.len() implies pre.slot_term(q) != Some(
                                t@,
                            ) by {
                                assert(pre.term_at((q + 1) as u32) == pre.slot_term(q));
                            }
                            assert(forall|q: int| 0 <= q < n - 1 ==> self.slots@[q] == pre.slots@[q]);
                            assert(forall|q: int|
                                0 <= q < n - 1 ==> #[trigger] self.slot_term(q) == pre.slot_term(q)
                                    && self.slot_rc(q) == pre.slot_rc(q));
                            assert(self.slot_term(n - 1) == Some(t@));
                            assert forall|j: int|
                                0 <= j < self.free@.len() implies 1 <= #[trigger] self.free@[j]
                                && self.free@[j] <= self.slots@.len() && self.slot_term(
                                self.free@[j] - 1,
                            ) is None by {
                                assert(pre.free@[j] == self.free@[j]);
                            }
                            assert(self.inv());
                            assert(forall|j: u32|
                                j != i ==> #[trigger] self.term_at(j) == pre.term_at(j)
                                    && self.rc_at(j) == pre.rc_at(j));
                        }
                        i
                    },
                }
            },
        }
    }

    fn get_term(&self, i: u32) -> (r: Option<&Term>) {
        if i == 0 {
            return None;
        }
        let p = (i - 1) as usize;
        if p < self.slots.len() {
            match &self.slots[p] {
                Some(e) => Some(&e.term),
                None => None,
            }
        } else {
            None
        }
    }

    fn inc_ref(&mut self, i: u32) {
        let ghost pre = *self;
        if i == 0 {
            return ;
        }
        let p = (i - 1) as usize;
        let rc = match &self.slots[p] {
            Some(e) => e.rc,
            None => 0,
        };
        match &mut self.slots[p] {
            Some(e) => {
                e.rc = rc + 1;
            },
            None => {},
        }
        proof {
            assert(forall|q: int|
                0 <= q < self.slots@.len() && q != p ==> self.slots@[q] == pre.slots@[q]);
            assert(self.slot_term(p as int) == pre.slot_term(p as int));
            assert(self.slot_rc(p as int) == pre.slot_rc(p as int) + 1);
            assert(forall|q: int|
                0 <= q < self.slots@.len() && q != p ==> #[trigger] self.slot_term(q)
                    == pre.slot_term(q) && self.slot_rc(q) == pre.slot_rc(q));
            assert(forall|j: int|
                0 <= j < self.free@.len() ==> #[trigger] self.free@[j] != i);
            assert(self.inv());
            assert(forall|j: u32| #[trigger] self.term_at(j) == pre.term_at(j));
            assert(forall|j: u32| j != i ==> #[trigger] self.rc_at(j) == pre.rc_at(j));
        }
    }

    fn dec_ref(&mut self, i: u32) {
        let ghost pre = *self;
        if i == 0 {
            return ;
        }
        let p = (i - 1) as usize;
        let rc = match &self.slots[p] {
            Some(e) => e.rc,
            None => 0,
        };
        if rc > 1 {
            match &mut self.slots[p] {
                Some(e) => {
                    e.rc = rc - 1;
                },
                None => {},
            }
            proof {
                assert(forall|q: int|
                    0 <= q < self.slots@.len() && q != p ==> self.slots@[q] == pre.slots@[q]);
                assert(self.slot_term(p as int) == pre.slot_term(p as int));
                assert(self.slot_rc(p as int) == pre.slot_rc(p as int) - 1);
                assert(forall|q: int|
                    0 <= q < self.slots@.len() && q != p ==> #[trigger] self.slot_term(q)
                        == pre.slot_term(q) && self.slot_rc(q) == pre.slot_rc(q));
                assert(forall|j: int|
                    0 <= j < self.free@.len() ==> #[trigger] self.free@[j] != i);
                assert(self.inv());
                assert(forall|j: u32|
                    j != i ==> #[trigger] self.term_at(j) == pre.term_at(j) && self.rc_at(j)
                        == pre.rc_at(j));
            }
        } else {
            self.slots[p] = None;
            self.free.push(i);
            proof {
                assert(forall|q: int|
                    0 <= q < self.slots@.len() && q != p ==> self.slots@[q] == pre.slots@[q]);
                assert(self.slot_term(p as int) is None);
                assert(forall|q: int|
                    0 <= q < self.slots@.len() && q != p ==> #[trigger] self.slot_term(q)
                        == pre.slot_term(q) && self.slot_rc(q) == pre.slot_rc(q));
                assert forall|j: int|
                    0 <= j < pre.free@.len() implies #[trigger] pre.free@[j] != i by {
                    assert(pre.slot_term(pre.free@[j] - 1) is None);
                }
                assert(self.free@ == pre.free@.push(i));
                assert forall|j1: int, j2: int|
                    0 <= j1 < j2 < self.free@.len() implies self.free@[j1] != self.free@[j2] by {
                    if j2 == self.free@.len() - 1 {
                        assert(pre.free@[j1] != i);
                    } else {
                        assert(pre.free@[j1] != pre.free@[j2]);
                    }
                }
                assert(self.free@.no_duplicates());
                assert(self.inv());
                assert(forall|j: u32|
                    j != i ==> #[trigger] self.term_at(j) == pre.term_at(j) && self.rc_at(j)
                        == pre.rc_at(j));
            }
        }
    }

    fn shrink_to_fit(&mut self) {
        let ghost pre = *self;
        crate::postings::shrink_vec(&mut self.slots);
        crate::postings::shrink_vec(&mut self.free);
        proof {
            assert(self.slots@ == pre.slots@);
            assert(self.free@ == pre.free@);
            assert(forall|p: int| self.slot_term(p) == pre.slot_term(p));
            assert(forall|p: int| self.slot_rc(p) == pre.slot_rc(p));
            assert(forall|i: u32| #[trigger] self.term_at(i) == pre.term_at(i));
            assert(forall|i: u32| #[trigger] self.rc_at(i) == pre.rc_at(i));
            assert forall|p: int|
                0 <= p < self.slots@.len() implies (#[trigger] self.slot_term(p) is Some
                <==> self.slot_rc(p) > 0) by {
                assert(pre.slot_term(p) is Some <==> pre.slot_rc(p) > 0);
            }
            assert forall|p1: int, p2: int|
                0 <= p1 < self.slots@.len() && 0 <= p2 < self.slots@.len() && p1 != p2
                    && #[trigger] self.slot_term(p1) is Some implies self.slot_term(p1)
                != #[trigger] self.slot_term(p2) by {
                assert(pre.slot_term(p1) != pre.slot_term(p2));
            }
            assert forall|j: int|
                0 <= j < self.free@.len() implies 1 <= #[trigger] self.free@[j] && self.free@[j]
                <= self.slots@.len() && self.slot_term(self.free@[j] - 1) is None by {
                assert(1 <= pre.free@[j] && pre.free@[j] <= pre.slots@.len());
                assert(pre.slot_term(pre.free@[j] - 1) is None);
            }
            assert(self.inv());
        }
    }
}

} // verus!
