//! The primary store: a set of distinct index-tuples over a term table.
//!
//! Tuples are grouped by subject index (subject -> set of (predicate,
//! object) pairs), so that all tuples for a given subject are answered
//! without scanning; every other pattern falls back to a linear scan unless
//! a secondary-index wrapper accelerates it.

use crate::index_map::{TermIndexMap, TermTable, MAX_TERMS, NULL_INDEX};
use crate::postings::{
    contains_value, insert_in_index, lemma_index_eq_is_value_eq, remove_from_index, PostingsMap,
};
use crate::term::{Term, TermView};
use vstd::prelude::*;
use vstd::set_lib::*;

verus! {

/// How many of the three positions of the tuple `(a, b, c)` hold `j`.
pub open spec fn occ(j: u32, a: u32, b: u32, c: u32) -> nat {
    (if j == a {
        1nat
    } else {
        0
    }) + (if j == b {
        1nat
    } else {
        0
    }) + (if j == c {
        1nat
    } else {
        0
    })
}

/// The tuples of `ts` whose subject is `j`.
pub open spec fn subj_tuples(ts: Set<(u32, u32, u32)>, j: u32) -> Set<(u32, u32, u32)> {
    ts.filter(|t: (u32, u32, u32)| t.0 == j)
}

/// The tuples of `ts` whose predicate is `j`.
pub open spec fn pred_tuples(ts: Set<(u32, u32, u32)>, j: u32) -> Set<(u32, u32, u32)> {
    ts.filter(|t: (u32, u32, u32)| t.1 == j)
}

/// The tuples of `ts` whose object is `j`.
pub open spec fn obj_tuples(ts: Set<(u32, u32, u32)>, j: u32) -> Set<(u32, u32, u32)> {
    ts.filter(|t: (u32, u32, u32)| t.2 == j)
}

/// How many tuple positions of `ts` hold the index `j`.
pub open spec fn occs_in(ts: Set<(u32, u32, u32)>, j: u32) -> int
    recommends
        ts.finite(),
{
    subj_tuples(ts, j).len() as int + pred_tuples(ts, j).len() as int + obj_tuples(
        ts,
        j,
    ).len() as int
}

/// In any well-formed graph every reference count is at most three times
/// the number of stored tuples — the bound with which a caller meets the
/// machine limits of `insert_indexed`.
pub proof fn lemma_rc_bounded<G: IndexedGraph>(g: &G)
    requires
        g.inv(),
    ensures
        forall|j: u32| #[trigger] g.rc_at(j) <= 3 * g.triples().len(),
{
    g.lemma_inv_facts();
    assert forall|j: u32| #[trigger] g.rc_at(j) <= 3 * g.triples().len() by {
        g.triples().lemma_len_filter(|t: (u32, u32, u32)| t.0 == j);
        g.triples().lemma_len_filter(|t: (u32, u32, u32)| t.1 == j);
        g.triples().lemma_len_filter(|t: (u32, u32, u32)| t.2 == j);
        assert(g.rc_at(j) == occs_in(g.triples(), j));
    }
}

/// A graph of index-tuples built over an internal term index map.
///
/// The abstract state is the tuple set, plus the term map's own state (the
/// term and reference count per index, and the spare capacity). Every
/// implementation keeps the two in step: an index is referenced exactly as
/// many times as tuple positions hold it.
pub trait IndexedGraph: Sized {
    /// The set of stored index-tuples.
    spec fn triples(&self) -> Set<(u32, u32, u32)>;

    /// The term mapped at index `i`, if any.
    spec fn term_at(&self, i: u32) -> Option<TermView>;

    /// The reference count of index `i`.
    spec fn rc_at(&self, i: u32) -> nat;

    /// How many more distinct terms the graph can still accept.
    spec fn spare(&self) -> int;

    /// The implementation's internal invariant.
    spec fn inv(&self) -> bool;

    /// The invariant keeps the tuple set finite, the null index unmapped,
    /// mapped terms pairwise distinct, and the reference count of every
    /// index equal to the number of tuple positions holding it.
    proof fn lemma_inv_facts(&self)
        requires
            self.inv(),
        ensures
            self.triples().finite(),
            self.term_at(NULL_INDEX) is None,
            forall|i1: u32, i2: u32|
                #[trigger] self.term_at(i1) is Some && self.term_at(i1) == #[trigger] self.term_at(
                    i2,
                ) ==> i1 == i2,
            forall|i: u32| #[trigger] self.term_at(i) is Some <==> self.rc_at(i) > 0,
            forall|i: u32| #[trigger] self.rc_at(i) == occs_in(self.triples(), i),
    ;

    /// An empty graph, provisioned for `capacity` tuples.
    fn with_capacity(capacity: usize) -> (g: Self)
        ensures
            g.inv(),
            g.triples() == Set::<(u32, u32, u32)>::empty(),
            forall|i: u32| g.term_at(i) is None,
            g.spare() == MAX_TERMS,
    ;

    /// Pre-sizes the storage for `additional` more tuples; nothing
    /// observable changes.
    fn reserve(&mut self, additional: usize)
        requires
            old(self).inv(),
        ensures
            final(self).inv(),
            final(self).triples() == old(self).triples(),
            forall|j: u32| #[trigger] final(self).term_at(j) == old(self).term_at(j),
            forall|j: u32| #[trigger] final(self).rc_at(j) == old(self).rc_at(j),
            final(self).spare() == old(self).spare(),
    ;

    /// Shrinks the backing storage as much as possible; nothing observable
    /// changes.
    fn shrink_to_fit(&mut self)
        requires
            old(self).inv(),
        ensures
            final(self).inv(),
            final(self).triples() == old(self).triples(),
            forall|j: u32| #[trigger] final(self).term_at(j) == old(self).term_at(j),
            forall|j: u32| #[trigger] final(self).rc_at(j) == old(self).rc_at(j),
            final(self).spare() == old(self).spare(),
    ;

    /// The index for the given term, if it exists.
    fn get_index(&self, t: &Term) -> (r: Option<u32>)
        requires
            self.inv(),
        ensures
            match r {
                Some(i) => self.term_at(i) == Some(t@),
                None => forall|j: u32| self.term_at(j) != Some(t@),
            },
    ;

    /// The term for the given index, if it exists.
    fn get_term(&self, i: u32) -> (r: Option<&Term>)
        requires
            self.inv(),
        ensures
            match r {
                Some(tm) => self.term_at(i) == Some(tm@),
                None => self.term_at(i) is None,
            },
    ;

    /// Interns the three terms and inserts the tuple, returning its indices
    /// if it was newly added; returns `None`, changing nothing — reference
    /// counts included — if the tuple was already present.
    fn insert_indexed(&mut self, s: &Term, p: &Term, o: &Term) -> (r: Option<[u32; 3]>)
        requires
            old(self).inv(),
            old(self).spare() >= 3 || (exists|a: u32, b: u32, c: u32|
                #![auto]
                old(self).term_at(a) == Some(s@) && old(self).term_at(b) == Some(p@) && old(
                    self,
                ).term_at(c) == Some(o@) && old(self).triples().contains((a, b, c))),
            forall|j: u32|
                (#[trigger] old(self).term_at(j)) == Some(s@) ==> old(self).rc_at(j) <= u64::MAX
                    - 3,
            forall|j: u32|
                (#[trigger] old(self).term_at(j)) == Some(p@) ==> old(self).rc_at(j) <= u64::MAX
                    - 3,
            forall|j: u32|
                (#[trigger] old(self).term_at(j)) == Some(o@) ==> old(self).rc_at(j) <= u64::MAX
                    - 3,
        ensures
            final(self).inv(),
            r is None <==> (exists|a: u32, b: u32, c: u32|
                #![auto]
                old(self).term_at(a) == Some(s@) && old(self).term_at(b) == Some(p@) && old(
                    self,
                ).term_at(c) == Some(o@) && old(self).triples().contains((a, b, c))),
            r is None ==> final(self).triples() == old(self).triples() && final(self).spare()
                == old(self).spare(),
            r is None ==> forall|j: u32| #[trigger] final(self).term_at(j) == old(self).term_at(j),
            r is None ==> forall|j: u32| #[trigger] final(self).rc_at(j) == old(self).rc_at(j),
            r matches Some(t) ==> {
                &&& final(self).term_at(t[0]) == Some(s@)
                &&& final(self).term_at(t[1]) == Some(p@)
                &&& final(self).term_at(t[2]) == Some(o@)
                &&& (forall|j: u32| old(self).term_at(j) == Some(s@) ==> j == t[0])
                &&& (forall|j: u32| old(self).term_at(j) == Some(p@) ==> j == t[1])
                &&& (forall|j: u32| old(self).term_at(j) == Some(o@) ==> j == t[2])
                &&& ((forall|j: u32| old(self).term_at(j) != Some(s@)) ==> old(self).term_at(
                    t[0],
                ) is None)
                &&& ((forall|j: u32| old(self).term_at(j) != Some(p@)) ==> old(self).term_at(
                    t[1],
                ) is None)
                &&& ((forall|j: u32| old(self).term_at(j) != Some(o@)) ==> old(self).term_at(
                    t[2],
                ) is None)
                &&& !old(self).triples().contains((t[0], t[1], t[2]))
                &&& final(self).triples() == old(self).triples().insert((t[0], t[1], t[2]))
                &&& (forall|j: u32|
                    #[trigger] final(self).rc_at(j) == old(self).rc_at(j) + occ(
                        j,
                        t[0],
                        t[1],
                        t[2],
                    ))
                &&& (forall|j: u32|
                    j != t[0] && j != t[1] && j != t[2] ==> #[trigger] final(self).term_at(j)
                        == old(self).term_at(j))
                &&& final(self).spare() == old(self).spare() - (if old(self).rc_at(t[0]) == 0 {
                    1int
                } else {
                    0
                }) - (if t[1] != t[0] && old(self).rc_at(t[1]) == 0 {
                    1int
                } else {
                    0
                }) - (if t[2] != t[0] && t[2] != t[1] && old(self).rc_at(t[2]) == 0 {
                    1int
                } else {
                    0
                })
            },
    ;

    /// Resolves the three terms by lookup only — never interning — and
    /// removes the tuple, returning its indices; returns `None`, changing
    /// nothing, if a term is unknown or the tuple is absent. A removal
    /// releases each of the three positions' indices once.
    fn remove_indexed(&mut self, s: &Term, p: &Term, o: &Term) -> (r: Option<[u32; 3]>)
        requires
            old(self).inv(),
        ensures
            final(self).inv(),
            r is Some <==> (exists|a: u32, b: u32, c: u32|
                #![auto]
                old(self).term_at(a) == Some(s@) && old(self).term_at(b) == Some(p@) && old(
                    self,
                ).term_at(c) == Some(o@) && old(self).triples().contains((a, b, c))),
            r is None ==> final(self).triples() == old(self).triples() && final(self).spare()
                == old(self).spare(),
            r is None ==> forall|j: u32| #[trigger] final(self).term_at(j) == old(self).term_at(j),
            r is None ==> forall|j: u32| #[trigger] final(self).rc_at(j) == old(self).rc_at(j),
            r matches Some(t) ==> {
                &&& old(self).term_at(t[0]) == Some(s@)
                &&& old(self).term_at(t[1]) == Some(p@)
                &&& old(self).term_at(t[2]) == Some(o@)
                &&& old(self).triples().contains((t[0], t[1], t[2]))
                &&& final(self).triples() == old(self).triples().remove((t[0], t[1], t[2]))
                &&& (forall|j: u32|
                    #[trigger] final(self).rc_at(j) + occ(j, t[0], t[1], t[2]) == old(
                        self,
                    ).rc_at(j))
                &&& (forall|j: u32|
                    #[trigger] final(self).term_at(j) == (if final(self).rc_at(j) > 0 {
                        old(self).term_at(j)
                    } else {
                        None
                    }))
                &&& final(self).spare() == old(self).spare() + (if final(self).rc_at(t[0]) == 0 {
                    1int
                } else {
                    0
                }) + (if t[1] != t[0] && final(self).rc_at(t[1]) == 0 {
                    1int
                } else {
                    0
                }) + (if t[2] != t[0] && t[2] != t[1] && final(self).rc_at(t[2]) == 0 {
                    1int
                } else {
                    0
                })
            },
    ;

    /// All stored tuples, without duplicates, in unspecified order.
    fn triples_all(&self) -> (out: Vec<(u32, u32, u32)>)
        requires
            self.inv(),
        ensures
            out@.no_duplicates(),
            forall|t: (u32, u32, u32)| out@.contains(t) <==> self.triples().contains(t),
    ;

    /// The stored tuples with subject `si`, without duplicates.
    fn triples_with_s(&self, si: u32) -> (out: Vec<(u32, u32, u32)>)
        requires
            self.inv(),
        ensures
            out@.no_duplicates(),
            forall|t: (u32, u32, u32)|
                out@.contains(t) <==> self.triples().contains(t) && t.0 == si,
    ;

    /// The stored tuples with object `oi`, without duplicates.
    fn triples_with_o(&self, oi: u32) -> (out: Vec<(u32, u32, u32)>)
        requires
            self.inv(),
        ensures
            out@.no_duplicates(),
            forall|t: (u32, u32, u32)|
                out@.contains(t) <==> self.triples().contains(t) && t.2 == oi,
    ;

    /// The stored tuples with subject `si` and predicate `pi`, without
    /// duplicates.
    fn triples_with_sp(&self, si: u32, pi: u32) -> (out: Vec<(u32, u32, u32)>)
        requires
            self.inv(),
        ensures
            out@.no_duplicates(),
            forall|t: (u32, u32, u32)|
                out@.contains(t) <==> self.triples().contains(t) && t.0 == si && t.1 == pi,
    ;

    /// The stored tuples with predicate `pi` and object `oi`, without
    /// duplicates.
    fn triples_with_po(&self, pi: u32, oi: u32) -> (out: Vec<(u32, u32, u32)>)
        requires
            self.inv(),
        ensures
            out@.no_duplicates(),
            forall|t: (u32, u32, u32)|
                out@.contains(t) <==> self.triples().contains(t) && t.1 == pi && t.2 == oi,
    ;

    /// Whether the index-tuple `t` is stored.
    fn contains_triple(&self, t: [u32; 3]) -> (r: bool)
        requires
            self.inv(),
        ensures
            r == self.triples().contains((t[0], t[1], t[2])),
    ;
}

} // verus!

verus! {

proof fn lemma_occs_insert(ts: Set<(u32, u32, u32)>, tt: (u32, u32, u32), j: u32)
    requires
        ts.finite(),
        !ts.contains(tt),
    ensures
        ts.insert(tt).finite(),
        occs_in(ts.insert(tt), j) == occs_in(ts, j) + occ(j, tt.0, tt.1, tt.2),
{
    ts.lemma_len_filter(|t: (u32, u32, u32)| t.0 == j);
    ts.lemma_len_filter(|t: (u32, u32, u32)| t.1 == j);
    ts.lemma_len_filter(|t: (u32, u32, u32)| t.2 == j);
    if tt.0 == j {
        assert(subj_tuples(ts.insert(tt), j) =~= subj_tuples(ts, j).insert(tt));
    } else {
        assert(subj_tuples(ts.insert(tt), j) =~= subj_tuples(ts, j));
    }
    if tt.1 == j {
        assert(pred_tuples(ts.insert(tt), j) =~= pred_tuples(ts, j).insert(tt));
    } else {
        assert(pred_tuples(ts.insert(tt), j) =~= pred_tuples(ts, j));
    }
    if tt.2 == j {
        assert(obj_tuples(ts.insert(tt), j) =~= obj_tuples(ts, j).insert(tt));
    } else {
        assert(obj_tuples(ts.insert(tt), j) =~= obj_tuples(ts, j));
    }
}

proof fn lemma_occs_remove(ts: Set<(u32, u32, u32)>, tt: (u32, u32, u32), j: u32)
    requires
        ts.finite(),
        ts.contains(tt),
    ensures
        ts.remove(tt).finite(),
        occs_in(ts.remove(tt), j) == occs_in(ts, j) - occ(j, tt.0, tt.1, tt.2),
{
    ts.lemma_len_filter(|t: (u32, u32, u32)| t.0 == j);
    ts.lemma_len_filter(|t: (u32, u32, u32)| t.1 == j);
    ts.lemma_len_filter(|t: (u32, u32, u32)| t.2 == j);
    if tt.0 == j {
        assert(subj_tuples(ts.remove(tt), j) =~= subj_tuples(ts, j).remove(tt));
        assert(subj_tuples(ts, j).contains(tt));
    } else {
        assert(subj_tuples(ts.remove(tt), j) =~= subj_tuples(ts, j));
    }
    if tt.1 == j {
        assert(pred_tuples(ts.remove(tt), j) =~= pred_tuples(ts, j).remove(tt));
        assert(pred_tuples(ts, j).contains(tt));
    } else {
        assert(pred_tuples(ts.remove(tt), j) =~= pred_tuples(ts, j));
    }
    if tt.2 == j {
        assert(obj_tuples(ts.remove(tt), j) =~= obj_tuples(ts, j).remove(tt));
        assert(obj_tuples(ts, j).contains(tt));
    } else {
        assert(obj_tuples(ts.remove(tt), j) =~= obj_tuples(ts, j));
    }
}

proof fn lemma_occs_member(ts: Set<(u32, u32, u32)>, tt: (u32, u32, u32), j: u32)
    requires
        ts.finite(),
        ts.contains(tt),
    ensures
        occs_in(ts, j) >= occ(j, tt.0, tt.1, tt.2),
        occs_in(ts, j) >= 0,
{
    ts.lemma_len_filter(|t: (u32, u32, u32)| t.0 == j);
    ts.lemma_len_filter(|t: (u32, u32, u32)| t.1 == j);
    ts.lemma_len_filter(|t: (u32, u32, u32)| t.2 == j);
    if tt.0 == j {
        assert(subj_tuples(ts, j).contains(tt));
        assert(subj_tuples(ts, j).remove(tt).len() == subj_tuples(ts, j).len() - 1);
    }
    if tt.1 == j {
        assert(pred_tuples(ts, j).contains(tt));
        assert(pred_tuples(ts, j).remove(tt).len() == pred_tuples(ts, j).len() - 1);
    }
    if tt.2 == j {
        assert(obj_tuples(ts, j).contains(tt));
        assert(obj_tuples(ts, j).remove(tt).len() == obj_tuples(ts, j).len() - 1);
    }
}

proof fn lemma_occs_empty(j: u32)
    ensures
        occs_in(Set::<(u32, u32, u32)>::empty(), j) == 0,
{
    let ts = Set::<(u32, u32, u32)>::empty();
    assert(subj_tuples(ts, j) =~= ts);
    assert(pred_tuples(ts, j) =~= ts);
    assert(obj_tuples(ts, j) =~= ts);
}

/// The primary store: a term table plus the subject-grouped tuple set, held
/// as a postings map from each subject index to its (predicate, object)
/// pairs.
pub struct PrimaryStore {
    terms: TermTable,
    spo: PostingsMap<u32, (u32, u32)>,
}

impl PrimaryStore {
    spec fn trip_set(self) -> Set<(u32, u32, u32)> {
        Set::new(
            |t: (u32, u32, u32)|
                self.spo.has_key(t.0) && self.spo.list_of(t.0).contains((t.1, t.2)),
        )
    }

    spec fn store_inv(self) -> bool {
        &&& self.terms.inv()
        &&& self.spo.wf()
        &&& (forall|k: u32| (#[trigger] self.spo.list_of(k)).no_duplicates())
        &&& (forall|k: u32| #[trigger] self.spo.has_key(k) ==> self.spo.list_of(k).len() >= 1)
        &&& self.trip_set().finite()
        &&& (forall|j: u32| #[trigger] self.terms.rc_at(j) == occs_in(self.trip_set(), j))
    }
}

impl IndexedGraph for PrimaryStore {
    closed spec fn triples(&self) -> Set<(u32, u32, u32)> {
        self.trip_set()
    }

    closed spec fn term_at(&self, i: u32) -> Option<TermView> {
        self.terms.term_at(i)
    }

    closed spec fn rc_at(&self, i: u32) -> nat {
        self.terms.rc_at(i)
    }

    closed spec fn spare(&self) -> int {
        self.terms.spare()
    }

    closed spec fn inv(&self) -> bool {
        self.store_inv()
    }

    proof fn lemma_inv_facts(&self) {
        self.terms.lemma_inv_facts();
    }

    fn with_capacity(capacity: usize) -> (g: Self) {
        let terms = TermTable::new();
        let mut spo = PostingsMap::<u32, (u32, u32)>::new();
        spo.reserve(capacity);
        let g = PrimaryStore { terms, spo };
        proof {
            g.spo.lemma_key_seq_facts();
            assert(forall|k: u32| !g.spo.has_key(k));
            assert forall|k: u32| (#[trigger] g.spo.list_of(k)).no_duplicates() by {
                assert(g.spo.list_of(k) == Seq::<(u32, u32)>::empty());
            }
            assert(g.trip_set() =~= Set::<(u32, u32, u32)>::empty());
            assert forall|j: u32| #[trigger] g.terms.rc_at(j) == occs_in(g.trip_set(), j) by {
                g.terms.lemma_inv_facts();
                assert(g.terms.term_at(j) is None);
                lemma_occs_empty(j);
            }
        }
        g
    }

    fn reserve(&mut self, additional: usize) {
        self.spo.reserve(additional);
        proof {
            assert(self.trip_set() =~= old(self).trip_set());
        }
    }

    fn shrink_to_fit(&mut self) {
        self.terms.shrink_to_fit();
        self.spo.compact();
        proof {
            assert(self.trip_set() =~= old(self).trip_set());
        }
    }

    fn get_index(&self, t: &Term) -> (r: Option<u32>) {
        let r = self.terms.get_index(t);
        proof {
            if r is None {
                assert forall|j: u32| self.terms.term_at(j) != Some(t@) by {
                    if self.terms.term_at(j) == Some(t@) {
                        assert(crate::index_map::has_term(&self.terms, t@));
                    }
                }
            }
        }
        r
    }

    fn get_term(&self, i: u32) -> (r: Option<&Term>) {
        self.terms.get_term(i)
    }

    fn insert_indexed(&mut self, s: &Term, p: &Term, o: &Term) -> (r: Option<[u32; 3]>) {
        proof {
            lemma_index_eq_is_value_eq();
            self.terms.lemma_inv_facts();
        }
        let osi = self.terms.get_index(s);
        let opi = self.terms.get_index(p);
        let ooi = self.terms.get_index(o);
        match (osi, opi, ooi) {
            (Some(si0), Some(pi0), Some(oi0)) => {
                let present = match self.spo.get(si0) {
                    Some(lst) => contains_value(lst, (pi0, oi0)),
                    None => false,
                };
                if present {
                    proof {
                        assert(old(self).triples().contains((si0, pi0, oi0)));
                    }
                    return None;
                }
            },
            _ => {},
        }
        proof {
            assert(!(exists|a: u32, b: u32, c: u32|
                #![auto]
                old(self).term_at(a) == Some(s@) && old(self).term_at(b) == Some(p@) && old(
                    self,
                ).term_at(c) == Some(o@) && old(self).triples().contains((a, b, c)))) by {
                if exists|a: u32, b: u32, c: u32|
                    #![auto]
                    old(self).term_at(a) == Some(s@) && old(self).term_at(b) == Some(p@) && old(
                        self,
                    ).term_at(c) == Some(o@) && old(self).triples().contains((a, b, c)) {
                    let (a, b, c) = choose|a: u32, b: u32, c: u32|
                        #![auto]
                        old(self).term_at(a) == Some(s@) && old(self).term_at(b) == Some(p@) && old(
                            self,
                        ).term_at(c) == Some(o@) && old(self).triples().contains((a, b, c));
                    assert(osi == Some(a) && opi == Some(b) && ooi == Some(c));
                }
            }
        }
        proof {
            assert(self.spare() >= 3);
        }
        let ghost g0 = *self;
        let si = self.terms.make_index(s);
        let ghost g1 = *self;
        proof {
            assert forall|j: u32| g1.terms.term_at(j) == Some(p@) implies g1.terms.rc_at(j)
                < u64::MAX by {
                if j == si {
                    assert(g0.terms.rc_at(si) <= u64::MAX - 3 || g0.terms.rc_at(si) == 0) by {
                        g0.terms.lemma_inv_facts();
                        if g0.terms.term_at(si) is Some {
                            assert(g0.terms.term_at(si) == Some(s@));
                            assert(old(self).term_at(si) == Some(s@));
                            assert(old(self).rc_at(si) <= u64::MAX - 3);
                        }
                    }
                } else {
                    assert(g0.terms.term_at(j) == Some(p@));
                    assert(old(self).term_at(j) == Some(p@));
                    assert(old(self).rc_at(j) <= u64::MAX - 3);
                }
            }
        }
        let pi = self.terms.make_index(p);
        let ghost g2 = *self;
        proof {
            assert forall|j: u32| g2.terms.term_at(j) == Some(o@) implies g2.terms.rc_at(j)
                < u64::MAX by {
                g0.terms.lemma_inv_facts();
                if j == si || j == pi {
                    assert(g0.terms.rc_at(j) <= u64::MAX - 3 || g0.terms.rc_at(j) == 0) by {
                        if g0.terms.term_at(j) is Some {
                            if j == si {
                                assert(g0.terms.term_at(si) == Some(s@));
                                assert(old(self).term_at(si) == Some(s@));
                                assert(old(self).rc_at(si) <= u64::MAX - 3);
                            } else {
                                assert(g1.terms.term_at(j) == g0.terms.term_at(j) || j == si);
                                assert(g1.terms.term_at(pi) == Some(p@));
                                assert(g0.terms.term_at(j) == Some(p@));
                                assert(old(self).term_at(j) == Some(p@));
                                assert(old(self).rc_at(j) <= u64::MAX - 3);
                            }
                        }
                    }
                    assert(g2.terms.rc_at(j) <= g0.terms.rc_at(j) + 2);
                } else {
                    assert(g1.terms.term_at(j) == g0.terms.term_at(j));
                    assert(g0.terms.term_at(j) == Some(o@));
                    assert(old(self).term_at(j) == Some(o@));
                    assert(old(self).rc_at(j) <= u64::MAX - 3);
                }
            }
        }
        let oi = self.terms.make_index(o);
        let ghost g3 = *self;
        proof {
            assert(g3.spo == g0.spo);
            // interning preserves every mapped term
            assert forall|j: u32| g0.terms.term_at(j) is Some implies g1.terms.term_at(j)
                == g0.terms.term_at(j) by {
                if j == si {
                    assert(g0.terms.term_at(si) == Some(s@));
                }
            }
            assert forall|j: u32| g1.terms.term_at(j) is Some implies g2.terms.term_at(j)
                == g1.terms.term_at(j) by {
                if j == pi {
                    assert(g1.terms.term_at(pi) == Some(p@));
                }
            }
            assert forall|j: u32| g2.terms.term_at(j) is Some implies g3.terms.term_at(j)
                == g2.terms.term_at(j) by {
                if j == oi {
                    assert(g2.terms.term_at(oi) == Some(o@));
                }
            }
            assert(g3.terms.term_at(si) == Some(s@) && g3.terms.term_at(pi) == Some(p@)
                && g3.terms.term_at(oi) == Some(o@)) by {
                g3.terms.lemma_inv_facts();
                assert(g1.terms.term_at(si) == Some(s@));
                assert(g2.terms.term_at(pi) == Some(p@));
            }
            // the new tuple is absent from the old tuple set
            assert(!g0.trip_set().contains((si, pi, oi))) by {
                if g0.trip_set().contains((si, pi, oi)) {
                    lemma_occs_member(g0.trip_set(), (si, pi, oi), si);
                    assert(g0.terms.rc_at(si) >= 1);
                    g0.terms.lemma_inv_facts();
                    assert(g0.terms.term_at(si) == Some(s@));
                    lemma_occs_member(g0.trip_set(), (si, pi, oi), pi);
                    g0.terms.lemma_inv_facts();
                    assert(g0.terms.term_at(pi) == Some(p@));
                    lemma_occs_member(g0.trip_set(), (si, pi, oi), oi);
                    assert(g0.terms.term_at(oi) == Some(o@));
                }
            }
        }
        let created = insert_in_index(&mut self.spo, si, (pi, oi));
        proof {
            let tt = (si, pi, oi);
            g0.spo.lemma_key_seq_facts();
            self.spo.lemma_key_seq_facts();
            // the tuple set gained exactly the new tuple
            assert(self.trip_set() =~= g0.trip_set().insert(tt)) by {
                assert forall|t: (u32, u32, u32)| self.trip_set().contains(t) implies g0.trip_set(
                ).insert(tt).contains(t) by {
                    if t.0 == si {
                        assert(self.spo.list_of(si) == g0.spo.list_of(si).push((pi, oi)));
                        let q = choose|q: int|
                            0 <= q < self.spo.list_of(si).len() && self.spo.list_of(si)[q] == (
                            t.1,
                            t.2,
                            );
                        if q < g0.spo.list_of(si).len() {
                            assert(g0.spo.list_of(si).contains((t.1, t.2)));
                            assert(g0.spo.has_key(si));
                        } else {
                            assert((t.1, t.2) == (pi, oi));
                        }
                    }
                }
                assert forall|t: (u32, u32, u32)|
                    g0.trip_set().insert(tt).contains(t) implies self.trip_set().contains(t) by {
                    if t == tt {
                        assert(self.spo.list_of(si) == g0.spo.list_of(si).push((pi, oi)));
                        assert(self.spo.list_of(si)[self.spo.list_of(si).len() - 1] == (pi, oi));
                        assert(self.spo.list_of(si).contains((pi, oi)));
                    } else {
                        if t.0 == si {
                            assert(g0.spo.list_of(si).contains((t.1, t.2)));
                            assert(self.spo.list_of(si) == g0.spo.list_of(si).push((pi, oi)));
                            let q = choose|q: int|
                                0 <= q < g0.spo.list_of(si).len() && g0.spo.list_of(si)[q] == (
                                t.1,
                                t.2,
                                );
                            assert(self.spo.list_of(si)[q] == (t.1, t.2));
                        }
                    }
                }
            }
            lemma_occs_insert(g0.trip_set(), tt, si);
            // no-duplicate and non-empty rows are preserved
            assert(!g0.spo.list_of(si).contains((pi, oi))) by {
                if g0.spo.has_key(si) && g0.spo.list_of(si).contains((pi, oi)) {
                    assert(g0.trip_set().contains(tt));
                }
            }
            assert forall|k: u32| (#[trigger] self.spo.list_of(k)).no_duplicates() by {
                if k == si {
                    let l0 = g0.spo.list_of(si);
                    let l1 = self.spo.list_of(si);
                    assert(l1 == l0.push((pi, oi)));
                    assert forall|q1: int, q2: int| 0 <= q1 < q2 < l1.len() implies l1[q1]
                        != l1[q2] by {
                        if q2 == l1.len() - 1 {
                            assert(l1[q1] == l0[q1]);
                            assert(l0.contains(l0[q1]));
                        }
                    }
                } else {
                    assert(self.spo.list_of(k) == g0.spo.list_of(k));
                }
            }
            assert forall|k: u32| #[trigger] self.spo.has_key(k) implies self.spo.list_of(k).len()
                >= 1 by {
                if k != si {
                    assert(g0.spo.has_key(k));
                    assert(self.spo.list_of(k) == g0.spo.list_of(k));
                }
            }
            // reference counts track tuple occurrences
            assert forall|j: u32| #[trigger] self.terms.rc_at(j) == occs_in(
                self.trip_set(),
                j,
            ) by {
                lemma_occs_insert(g0.trip_set(), tt, j);
                assert(g3.terms.rc_at(j) == g0.terms.rc_at(j) + occ(j, si, pi, oi)) by {
                    g0.terms.lemma_inv_facts();
                }
            }
            assert(self.store_inv());
            // the contract's view of the change
            assert forall|j: u32| #[trigger] self.rc_at(j) == g0.rc_at(j) + occ(
                j,
                si,
                pi,
                oi,
            ) by {
                lemma_occs_insert(g0.trip_set(), tt, j);
            }
            assert forall|j: u32| g0.term_at(j) == Some(s@) implies j == si by {
                g0.terms.lemma_inv_facts();
            }
            assert forall|j: u32| g0.term_at(j) == Some(p@) implies j == pi by {
                g1.terms.lemma_inv_facts();
                assert(g1.terms.term_at(j) == Some(p@));
                assert(g1.terms.term_at(pi) == Some(p@));
            }
            assert forall|j: u32| g0.term_at(j) == Some(o@) implies j == oi by {
                g2.terms.lemma_inv_facts();
                assert(g1.terms.term_at(j) == Some(o@));
                assert(g2.terms.term_at(j) == Some(o@));
                assert(g2.terms.term_at(oi) == Some(o@));
            }
            if forall|j: u32| g0.term_at(j) != Some(s@) {
                assert forall|j: u32| g0.terms.term_at(j) != Some(s@) by {
                    assert(g0.term_at(j) != Some(s@));
                }
                assert(g0.terms.term_at(si) is None);
            }
            if forall|j: u32| g0.term_at(j) != Some(p@) {
                if s@ == p@ {
                    assert(forall|j: u32| g0.terms.term_at(j) != Some(s@)) by {
                        assert(forall|j: u32| g0.term_at(j) != Some(s@));
                    }
                    assert(g0.terms.term_at(si) is None);
                    assert(g1.terms.term_at(si) == Some(p@));
                    g1.terms.lemma_inv_facts();
                    assert(g1.terms.term_at(pi) == Some(p@));
                    assert(pi == si);
                } else {
                    assert forall|j: u32| g1.terms.term_at(j) != Some(p@) by {
                        assert(g0.term_at(j) != Some(p@));
                        if j == si {
                            assert(g1.terms.term_at(si) == Some(s@));
                        } else {
                            assert(g1.terms.term_at(j) == g0.terms.term_at(j));
                        }
                    }
                    assert(g1.terms.term_at(pi) is None);
                    assert(g0.terms.term_at(pi) is None) by {
                        if g0.terms.term_at(pi) is Some {
                            assert(g1.terms.term_at(pi) == g0.terms.term_at(pi));
                        }
                    }
                }
            }
            if forall|j: u32| g0.term_at(j) != Some(o@) {
                if o@ == s@ {
                    assert(forall|j: u32| g0.terms.term_at(j) != Some(s@)) by {
                        assert(forall|j: u32| g0.term_at(j) != Some(s@));
                    }
                    assert(g0.terms.term_at(si) is None);
                    assert(g3.terms.term_at(si) == Some(o@));
                    g3.terms.lemma_inv_facts();
                    assert(g3.terms.term_at(oi) == Some(o@));
                    assert(oi == si);
                } else if o@ == p@ {
                    assert(forall|j: u32| g0.term_at(j) != Some(p@));
                    assert(g0.terms.term_at(pi) is None);
                    assert(g3.terms.term_at(pi) == Some(o@));
                    g3.terms.lemma_inv_facts();
                    assert(g3.terms.term_at(oi) == Some(o@));
                    assert(oi == pi);
                } else {
                    assert forall|j: u32| g2.terms.term_at(j) != Some(o@) by {
                        assert(g0.term_at(j) != Some(o@));
                        if j == si {
                            assert(g2.terms.term_at(si) == Some(s@));
                        } else if j == pi {
                            assert(g2.terms.term_at(pi) == Some(p@));
                        } else {
                            assert(g1.terms.term_at(j) == g0.terms.term_at(j));
                            assert(g2.terms.term_at(j) == g1.terms.term_at(j));
                        }
                    }
                    assert(g2.terms.term_at(oi) is None);
                    assert(g0.terms.term_at(oi) is None) by {
                        if g0.terms.term_at(oi) is Some {
                            assert(g1.terms.term_at(oi) == g0.terms.term_at(oi));
                            assert(g2.terms.term_at(oi) == g1.terms.term_at(oi));
                        }
                    }
                }
            }
        }
        Some([si, pi, oi])
    }

    fn remove_indexed(&mut self, s: &Term, p: &Term, o: &Term) -> (r: Option<[u32; 3]>) {
        proof {
            lemma_index_eq_is_value_eq();
            self.terms.lemma_inv_facts();
        }
        let osi = self.terms.get_index(s);
        let opi = self.terms.get_index(p);
        let ooi = self.terms.get_index(o);
        let (si, pi, oi) = match (osi, opi, ooi) {
            (Some(a), Some(b), Some(c)) => (a, b, c),
            _ => {
                proof {
                    if exists|a: u32, b: u32, c: u32|
                        #![auto]
                        old(self).term_at(a) == Some(s@) && old(self).term_at(b) == Some(p@) && old(
                            self,
                        ).term_at(c) == Some(o@) && old(self).triples().contains((a, b, c)) {
                        let (a, b, c) = choose|a: u32, b: u32, c: u32|
                            #![auto]
                            old(self).term_at(a) == Some(s@) && old(self).term_at(b) == Some(p@)
                                && old(self).term_at(c) == Some(o@) && old(self).triples().contains(
                                (a, b, c),
                            );
                        assert(osi is Some && opi is Some && ooi is Some);
                    }
                }
                return None;
            },
        };
        let present = match self.spo.get(si) {
            Some(lst) => contains_value(lst, (pi, oi)),
            None => false,
        };
        if !present {
            proof {
                if exists|a: u32, b: u32, c: u32|
                    #![auto]
                    old(self).term_at(a) == Some(s@) && old(self).term_at(b) == Some(p@) && old(
                        self,
                    ).term_at(c) == Some(o@) && old(self).triples().contains((a, b, c)) {
                    let (a, b, c) = choose|a: u32, b: u32, c: u32|
                        #![auto]
                        old(self).term_at(a) == Some(s@) && old(self).term_at(b) == Some(p@) && old(
                            self,
                        ).term_at(c) == Some(o@) && old(self).triples().contains((a, b, c));
                    assert(a == si && b == pi && c == oi);
                    assert(false);
                }
            }
            return None;
        }
        let ghost g0 = *self;
        let ghost tt = (si, pi, oi);
        proof {
            assert(g0.trip_set().contains(tt));
            lemma_occs_member(g0.trip_set(), tt, si);
            lemma_occs_member(g0.trip_set(), tt, pi);
            lemma_occs_member(g0.trip_set(), tt, oi);
        }
        let dropped = remove_from_index(&mut self.spo, si, (pi, oi));
        let ghost g1 = *self;
        proof {
            g0.spo.lemma_key_seq_facts();
            g1.spo.lemma_key_seq_facts();
            assert(g1.trip_set() =~= g0.trip_set().remove(tt)) by {
                assert forall|t: (u32, u32, u32)| g1.trip_set().contains(t) implies g0.trip_set(
                ).remove(tt).contains(t) by {
                    if t.0 == si {
                        assert(g1.spo.has_key(si) && g1.spo.list_of(si).contains((t.1, t.2)));
                        assert(!dropped);
                        assert(g0.spo.list_of(si).contains((t.1, t.2)) && (t.1, t.2) != (pi, oi));
                    }
                }
                assert forall|t: (u32, u32, u32)|
                    g0.trip_set().remove(tt).contains(t) implies g1.trip_set().contains(t) by {
                    if t.0 == si {
                        assert(g0.spo.list_of(si).contains((t.1, t.2)));
                        if dropped {
                            assert(g0.spo.list_of(si).len() == 1);
                            let q = choose|q: int|
                                0 <= q < g0.spo.list_of(si).len() && g0.spo.list_of(si)[q] == (
                                t.1,
                                t.2,
                                );
                            let q2 = choose|q2: int|
                                0 <= q2 < g0.spo.list_of(si).len() && g0.spo.list_of(si)[q2] == (
                                pi,
                                oi,
                                );
                            assert(q == 0 && q2 == 0);
                            assert(t == tt);
                            assert(false);
                        } else {
                            assert((t.1, t.2) != (pi, oi));
                            assert(g1.spo.list_of(si).contains((t.1, t.2)));
                            assert(g1.spo.has_key(si));
                        }
                    }
                }
            }
            assert(g1.terms == g0.terms);
        }
        self.terms.dec_ref(si);
        let ghost g2 = *self;
        proof {
            assert(self.terms.term_at(pi) is Some) by {
                if pi == si {
                    assert(occ(si, tt.0, tt.1, tt.2) >= 2);
                    assert(g0.terms.rc_at(si) >= 2);
                }
            }
        }
        self.terms.dec_ref(pi);
        let ghost g3 = *self;
        proof {
            assert(self.terms.term_at(oi) is Some) by {
                assert(g0.terms.rc_at(oi) >= occ(oi, tt.0, tt.1, tt.2));
                if oi == si && oi == pi {
                    assert(occ(oi, tt.0, tt.1, tt.2) >= 3);
                } else if oi == si || oi == pi {
                    assert(occ(oi, tt.0, tt.1, tt.2) >= 2);
                }
            }
        }
        self.terms.dec_ref(oi);
        proof {
            assert(self.spo == g1.spo);
            // reference counts again track tuple occurrences
            assert forall|j: u32| #[trigger] self.terms.rc_at(j) + occ(j, tt.0, tt.1, tt.2) == g0.terms.rc_at(
                j,
            ) by {
                lemma_occs_member(g0.trip_set(), tt, j);
            }
            assert forall|j: u32| #[trigger] self.terms.rc_at(j) == occs_in(
                self.trip_set(),
                j,
            ) by {
                lemma_occs_remove(g0.trip_set(), tt, j);
            }
            // rows stay duplicate-free and non-empty
            assert forall|k: u32| (#[trigger] self.spo.list_of(k)).no_duplicates() by {
                if k != si {
                    assert(self.spo.list_of(k) == g0.spo.list_of(k));
                } else {
                    assert(g0.spo.list_of(si).no_duplicates());
                }
            }
            assert forall|k: u32| #[trigger] self.spo.has_key(k) implies self.spo.list_of(k).len()
                >= 1 by {
                if k != si {
                    assert(g0.spo.has_key(k));
                    assert(self.spo.list_of(k) == g0.spo.list_of(k));
                } else {
                    assert(!dropped);
                    assert(g0.spo.list_of(si).len() >= 2) by {
                        assert(g0.spo.list_of(si).len() != 1);
                    }
                }
            }
            assert(self.store_inv());
            // the mapped terms after the removal
            assert forall|j: u32| #[trigger] self.term_at(j) == (if self.rc_at(j) > 0 {
                g0.term_at(j)
            } else {
                None::<TermView>
            }) by {
                self.terms.lemma_inv_facts();
                if self.rc_at(j) > 0 {
                    if j != si && j != pi && j != oi {
                        assert(self.terms.term_at(j) == g0.terms.term_at(j));
                    } else {
                        assert(g2.terms.rc_at(j) > 0 && g3.terms.rc_at(j) > 0);
                        g2.terms.lemma_inv_facts();
                        g3.terms.lemma_inv_facts();
                        assert(self.terms.term_at(j) == g3.terms.term_at(j) || j == oi);
                        assert(g3.terms.term_at(j) == g2.terms.term_at(j) || j == pi);
                        assert(g2.terms.term_at(j) == g0.terms.term_at(j) || j == si);
                    }
                }
            }
        }
        Some([si, pi, oi])
    }

    fn triples_all(&self) -> (out: Vec<(u32, u32, u32)>) {
        proof {
            self.spo.lemma_key_seq_facts();
        }
        let mut out: Vec<(u32, u32, u32)> = Vec::new();
        let nk = self.spo.entry_count();
        let mut i: usize = 0;
        while i < nk
            invariant
                self.store_inv(),
                nk == self.spo.key_seq().len(),
                i <= nk,
                out@.no_duplicates(),
                forall|t: (u32, u32, u32)|
                    #[trigger] out@.contains(t) <==> ((exists|q: int|
                        0 <= q < i && self.spo.key_seq()[q] == t.0) && self.spo.list_of(
                        t.0,
                    ).contains((t.1, t.2))),
            decreases nk - i,
        {
            proof {
                self.spo.lemma_key_seq_facts();
            }
            let k = self.spo.key_at(i);
            let lst = self.spo.list_at(i);
            let m = lst.len();
            let mut j: usize = 0;
            while j < m
                invariant
                    self.store_inv(),
                    nk == self.spo.key_seq().len(),
                    i < nk,
                    k == self.spo.key_seq()[i as int],
                    lst@ == self.spo.list_of(k),
                    m == lst@.len(),
                    j <= m,
                    out@.no_duplicates(),
                    forall|t: (u32, u32, u32)|
                        #[trigger] out@.contains(t) <==> (((exists|q: int|
                            0 <= q < i && self.spo.key_seq()[q] == t.0) && self.spo.list_of(
                            t.0,
                        ).contains((t.1, t.2))) || (t.0 == k && exists|q2: int|
                            0 <= q2 < j && lst@[q2] == (t.1, t.2))),
                decreases m - j,
            {
                let po = lst[j];
                let x = (k, po.0, po.1);
                proof {
                    self.spo.lemma_key_seq_facts();
                    assert(!out@.contains(x)) by {
                        if out@.contains(x) {
                            if (exists|q: int| 0 <= q < i && self.spo.key_seq()[q] == k)
                                && self.spo.list_of(k).contains((po.0, po.1)) {
                                let q = choose|q: int|
                                    0 <= q < i && self.spo.key_seq()[q] == k;
                                assert(self.spo.key_seq().no_duplicates());
                                assert(self.spo.key_seq()[q] == self.spo.key_seq()[i as int]);
                                assert(false);
                            } else {
                                let q2 = choose|q2: int| 0 <= q2 < j && lst@[q2] == (po.0, po.1);
                                assert(lst@.no_duplicates());
                                assert(lst@[q2] == lst@[j as int]);
                                assert(false);
                            }
                        }
                    }
                    lemma_push_keeps_no_duplicates(out@, x);
                }
                let ghost out_pre = out@;
                out.push(x);
                proof {
                    assert forall|t: (u32, u32, u32)| #[trigger] out@.contains(t) <==> (
                    out_pre.contains(t) || t == x) by {
                        lemma_push_contains(out_pre, x, t);
                    }
                }
                j += 1;
            }
            i += 1;
            proof {
                assert forall|t: (u32, u32, u32)| #[trigger] out@.contains(t) <==> ((exists|
                    q: int,
                |
                    0 <= q < i && self.spo.key_seq()[q] == t.0) && self.spo.list_of(t.0).contains(
                    (t.1, t.2),
                )) by {
                    if out@.contains(t) {
                        if t.0 == k && exists|q2: int| 0 <= q2 < m && lst@[q2] == (t.1, t.2) {
                            assert(self.spo.key_seq()[i - 1] == t.0);
                            assert(self.spo.list_of(t.0).contains((t.1, t.2)));
                        }
                    } else {
                        if (exists|q: int| 0 <= q < i && self.spo.key_seq()[q] == t.0)
                            && self.spo.list_of(t.0).contains((t.1, t.2)) {
                            let q = choose|q: int| 0 <= q < i && self.spo.key_seq()[q] == t.0;
                            if q == i - 1 {
                                let q2 = choose|q2: int|
                                    0 <= q2 < lst@.len() && lst@[q2] == (t.1, t.2);
                                assert(false);
                            } else {
                                assert(false);
                            }
                        }
                    }
                }
            }
        }
        proof {
            self.spo.lemma_key_seq_facts();
            assert forall|t: (u32, u32, u32)| #[trigger] out@.contains(t) <==> self.trip_set(
            ).contains(t) by {
                if self.spo.has_key(t.0) {
                    assert(self.spo.key_seq().contains(t.0));
                }
            }
        }
        out
    }

    fn triples_with_s(&self, si: u32) -> (out: Vec<(u32, u32, u32)>) {
        proof {
            lemma_index_eq_is_value_eq();
        }
        let mut out: Vec<(u32, u32, u32)> = Vec::new();
        match self.spo.get(si) {
            Some(lst) => {
                let m = lst.len();
                let mut j: usize = 0;
                while j < m
                    invariant
                        self.store_inv(),
                        self.spo.has_key(si),
                        lst@ == self.spo.list_of(si),
                        m == lst@.len(),
                        j <= m,
                        out@.no_duplicates(),
                        forall|t: (u32, u32, u32)|
                            #[trigger] out@.contains(t) <==> (t.0 == si && exists|q2: int|
                                0 <= q2 < j && lst@[q2] == (t.1, t.2)),
                    decreases m - j,
                {
                    let po = lst[j];
                    let x = (si, po.0, po.1);
                    proof {
                        assert(!out@.contains(x)) by {
                            if out@.contains(x) {
                                let q2 = choose|q2: int| 0 <= q2 < j && lst@[q2] == (po.0, po.1);
                                assert(lst@.no_duplicates());
                                assert(lst@[q2] == lst@[j as int]);
                                assert(false);
                            }
                        }
                        lemma_push_keeps_no_duplicates(out@, x);
                    }
                    let ghost out_pre = out@;
                    out.push(x);
                    proof {
                        assert forall|t: (u32, u32, u32)| #[trigger] out@.contains(t) <==> (
                        out_pre.contains(t) || t == x) by {
                            lemma_push_contains(out_pre, x, t);
                        }
                    }
                    j += 1;
                }
            },
            None => {},
        }
        out
    }

    fn triples_with_o(&self, oi: u32) -> (out: Vec<(u32, u32, u32)>) {
        let all = self.triples_all();
        let n = all.len();
        let mut out: Vec<(u32, u32, u32)> = Vec::new();
        let mut q: usize = 0;
        while q < n
            invariant
                all@.no_duplicates(),
                forall|t: (u32, u32, u32)| all@.contains(t) <==> self.triples().contains(t),
                n == all@.len(),
                q <= n,
                out@.no_duplicates(),
                forall|t: (u32, u32, u32)|
                    #[trigger] out@.contains(t) <==> ((exists|q2: int|
                        0 <= q2 < q && all@[q2] == t) && t.2 == oi),
            decreases n - q,
        {
            let x = all[q];
            if x.2 == oi {
                proof {
                    assert(!out@.contains(x)) by {
                        if out@.contains(x) {
                            let q2 = choose|q2: int| 0 <= q2 < q && all@[q2] == x;
                            assert(all@[q2] == all@[q as int]);
                            assert(false);
                        }
                    }
                    lemma_push_keeps_no_duplicates(out@, x);
                }
                let ghost out_pre = out@;
                out.push(x);
                proof {
                    assert forall|t: (u32, u32, u32)| #[trigger] out@.contains(t) <==> (
                    out_pre.contains(t) || t == x) by {
                        lemma_push_contains(out_pre, x, t);
                    }
                }
            }
            q += 1;
        }
        proof {
            assert forall|t: (u32, u32, u32)| #[trigger] out@.contains(t) <==> (
            self.triples().contains(t) && t.2 == oi) by {
                if self.triples().contains(t) && t.2 == oi {
                    assert(all@.contains(t));
                }
            }
        }
        out
    }

    fn triples_with_sp(&self, si: u32, pi: u32) -> (out: Vec<(u32, u32, u32)>) {
        let row = self.triples_with_s(si);
        let n = row.len();
        let mut out: Vec<(u32, u32, u32)> = Vec::new();
        let mut q: usize = 0;
        while q < n
            invariant
                row@.no_duplicates(),
                forall|t: (u32, u32, u32)|
                    row@.contains(t) <==> self.triples().contains(t) && t.0 == si,
                n == row@.len(),
                q <= n,
                out@.no_duplicates(),
                forall|t: (u32, u32, u32)|
                    #[trigger] out@.contains(t) <==> ((exists|q2: int|
                        0 <= q2 < q && row@[q2] == t) && t.1 == pi),
            decreases n - q,
        {
            let x = row[q];
            if x.1 == pi {
                proof {
                    assert(!out@.contains(x)) by {
                        if out@.contains(x) {
                            let q2 = choose|q2: int| 0 <= q2 < q && row@[q2] == x;
                            assert(row@[q2] == row@[q as int]);
                            assert(false);
                        }
                    }
                    lemma_push_keeps_no_duplicates(out@, x);
                }
                let ghost out_pre = out@;
                out.push(x);
                proof {
                    assert forall|t: (u32, u32, u32)| #[trigger] out@.contains(t) <==> (
                    out_pre.contains(t) || t == x) by {
                        lemma_push_contains(out_pre, x, t);
                    }
                }
            }
            q += 1;
        }
        proof {
            assert forall|t: (u32, u32, u32)| #[trigger] out@.contains(t) <==> (
            self.triples().contains(t) && t.0 == si && t.1 == pi) by {
                if self.triples().contains(t) && t.0 == si && t.1 == pi {
                    assert(row@.contains(t));
                }
            }
        }
        out
    }

    fn triples_with_po(&self, pi: u32, oi: u32) -> (out: Vec<(u32, u32, u32)>) {
        let all = self.triples_all();
        let n = all.len();
        let mut out: Vec<(u32, u32, u32)> = Vec::new();
        let mut q: usize = 0;
        while q < n
            invariant
                all@.no_duplicates(),
                forall|t: (u32, u32, u32)| all@.contains(t) <==> self.triples().contains(t),
                n == all@.len(),
                q <= n,
                out@.no_duplicates(),
                forall|t: (u32, u32, u32)|
                    #[trigger] out@.contains(t) <==> ((exists|q2: int|
                        0 <= q2 < q && all@[q2] == t) && t.1 == pi && t.2 == oi),
            decreases n - q,
        {
            let x = all[q];
            if x.1 == pi && x.2 == oi {
                proof {
                    assert(!out@.contains(x)) by {
                        if out@.contains(x) {
                            let q2 = choose|q2: int| 0 <= q2 < q && all@[q2] == x;
                            assert(all@[q2] == all@[q as int]);
                            assert(false);
                        }
                    }
                    lemma_push_keeps_no_duplicates(out@, x);
                }
                let ghost out_pre = out@;
                out.push(x);
                proof {
                    assert forall|t: (u32, u32, u32)| #[trigger] out@.contains(t) <==> (
                    out_pre.contains(t) || t == x) by {
                        lemma_push_contains(out_pre, x, t);
                    }
                }
            }
            q += 1;
        }
        proof {
            assert forall|t: (u32, u32, u32)| #[trigger] out@.contains(t) <==> (
            self.triples().contains(t) && t.1 == pi && t.2 == oi) by {
                if self.triples().contains(t) && t.1 == pi && t.2 == oi {
                    assert(all@.contains(t));
                }
            }
        }
        out
    }

    fn contains_triple(&self, t: [u32; 3]) -> (r: bool) {
        proof {
            lemma_index_eq_is_value_eq();
        }
        match self.spo.get(t[0]) {
            Some(lst) => contains_value(lst, (t[1], t[2])),
            None => false,
        }
    }
}

pub(crate) proof fn lemma_push_contains<A>(s: Seq<A>, x: A, t: A)
    ensures
        s.push(x).contains(t) <==> (s.contains(t) || t == x),
{
    if s.push(x).contains(t) {
        let q = choose|q: int| 0 <= q < s.push(x).len() && s.push(x)[q] == t;
        if q < s.len() {
            assert(s[q] == t);
        }
    }
    if s.contains(t) {
        let q = choose|q: int| 0 <= q < s.len() && s[q] == t;
        assert(s.push(x)[q] == t);
    }
    if t == x {
        assert(s.push(x)[s.len() as int] == t);
    }
}

pub(crate) proof fn lemma_push_keeps_no_duplicates<A>(s: Seq<A>, x: A)
    requires
        s.no_duplicates(),
        !s.contains(x),
    ensures
        s.push(x).no_duplicates(),
{
    assert forall|q1: int, q2: int|
        0 <= q1 < q2 < s.push(x).len() implies s.push(x)[q1] != s.push(x)[q2] by {
        if q2 == s.len() {
            assert(s.push(x)[q1] == s[q1]);
            assert(s.contains(s[q1]));
        }
    }
}

} // verus!
