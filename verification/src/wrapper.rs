//! Secondary-index wrappers around an inner indexed graph.
//!
//! Each wrapper decorates an inner store with one more index, keyed by a
//! different projection of the tuple, and keeps it in step through hooks run
//! after every mutation of the inner store. Wrappers compose: each adds its
//! own postings structure while term storage stays shared. For every
//! insertion and removal sequence, a wrapper's accelerated query returns
//! exactly what scanning the inner store and filtering would.

use crate::postings::{
    insert_in_index, lemma_index_eq_is_value_eq, remove_from_index, PostingsMap,
};
use crate::store::{lemma_push_contains, lemma_push_keeps_no_duplicates, IndexedGraph};
use crate::term::{Term, TermView};
use vstd::prelude::*;

verus! {

/// A wrapper around an inner indexed graph, maintaining its own added index
/// through hooks invoked after each mutation of the inner store.
///
/// The wrapped graph must be empty at construction: the wrapper's index is
/// built incrementally through the hook protocol, never by scanning a
/// pre-populated store.
pub trait IndexedGraphWrapper<G: IndexedGraph>: Sized {
    /// The wrapper's internal invariant: its added index agrees with the
    /// wrapped graph's tuple set.
    spec fn igw_inv(&self) -> bool;

    /// The wrapped graph.
    spec fn igw_wrapped(&self) -> G;

    /// What the insert hook needs: the wrapped graph already holds the
    /// outcome `modified` of `insert_indexed`, and the wrapper's index still
    /// reflects the tuple set from before it.
    spec fn igw_hook_insert_ok(&self, modified: Option<[u32; 3]>) -> bool;

    /// What the remove hook needs, symmetrically.
    spec fn igw_hook_remove_ok(&self, modified: Option<[u32; 3]>) -> bool;

    /// Wraps an empty graph.
    fn igw_wrap_empty(graph: G) -> (r: Self)
        requires
            graph.inv(),
            graph.triples() == Set::<(u32, u32, u32)>::empty(),
        ensures
            r.igw_inv(),
            r.igw_wrapped() == graph,
    ;

    /// Hook run at the end of `insert_indexed` with the operation's result;
    /// a newly added tuple is recorded in the wrapper's index.
    fn igw_hook_insert_indexed(&mut self, modified: &Option<[u32; 3]>)
        requires
            old(self).igw_hook_insert_ok(*modified),
        ensures
            final(self).igw_inv(),
            final(self).igw_wrapped() == old(self).igw_wrapped(),
    ;

    /// Hook run at the end of `remove_indexed` with the operation's result;
    /// an actually removed tuple leaves the wrapper's index.
    fn igw_hook_remove_indexed(&mut self, modified: &Option<[u32; 3]>)
        requires
            old(self).igw_hook_remove_ok(*modified),
        ensures
            final(self).igw_inv(),
            final(self).igw_wrapped() == old(self).igw_wrapped(),
    ;

    /// Hook run at the end of `shrink_to_fit`; the wrapper compacts its own
    /// postings structure too.
    fn igw_hook_shrink_to_fit(&mut self)
        requires
            old(self).igw_inv(),
        ensures
            final(self).igw_inv(),
            final(self).igw_wrapped() == old(self).igw_wrapped(),
    ;
}

/// Whether the "(subject, predicate) -> objects" postings of `m` hold
/// exactly the tuples of `ts`.
pub open spec fn sp_index_matches(m: PostingsMap<(u32, u32), u32>, ts: Set<(u32, u32, u32)>) -> bool {
    forall|s: u32, p: u32, ob: u32|
        #![trigger ts.contains((s, p, ob))]
        #![trigger m.list_of((s, p)).contains(ob)]
        ts.contains((s, p, ob)) <==> (m.has_key((s, p)) && m.list_of((s, p)).contains(ob))
}

/// A wrapper adding a "(subject, predicate) -> objects" index, answering the
/// subject-and-predicate pattern without scanning.
pub struct SpoWrapper<G: IndexedGraph> {
    wrapped: G,
    sp2o: PostingsMap<(u32, u32), u32>,
}

impl<G: IndexedGraph> SpoWrapper<G> {
    pub closed spec fn swf(self) -> bool {
        &&& self.wrapped.inv()
        &&& self.sp2o.wf()
        &&& (forall|k: (u32, u32)| (#[trigger] self.sp2o.list_of(k)).no_duplicates())
        &&& (forall|k: (u32, u32)| #[trigger] self.sp2o.has_key(k) ==> self.sp2o.list_of(k).len() >= 1)
        &&& sp_index_matches(self.sp2o, self.wrapped.triples())
    }
}

impl<G: IndexedGraph> IndexedGraphWrapper<G> for SpoWrapper<G> {
    open spec fn igw_inv(&self) -> bool {
        self.swf()
    }

    closed spec fn igw_wrapped(&self) -> G {
        self.wrapped
    }

    closed spec fn igw_hook_insert_ok(&self, modified: Option<[u32; 3]>) -> bool {
        &&& self.wrapped.inv()
        &&& self.sp2o.wf()
        &&& (forall|k: (u32, u32)| (#[trigger] self.sp2o.list_of(k)).no_duplicates())
        &&& (forall|k: (u32, u32)| #[trigger] self.sp2o.has_key(k) ==> self.sp2o.list_of(k).len() >= 1)
        &&& match modified {
            None => sp_index_matches(self.sp2o, self.wrapped.triples()),
            Some(t) => {
                &&& self.wrapped.triples().contains((t[0], t[1], t[2]))
                &&& sp_index_matches(
                    self.sp2o,
                    self.wrapped.triples().remove((t[0], t[1], t[2])),
                )
            },
        }
    }

    closed spec fn igw_hook_remove_ok(&self, modified: Option<[u32; 3]>) -> bool {
        &&& self.wrapped.inv()
        &&& self.sp2o.wf()
        &&& (forall|k: (u32, u32)| (#[trigger] self.sp2o.list_of(k)).no_duplicates())
        &&& (forall|k: (u32, u32)| #[trigger] self.sp2o.has_key(k) ==> self.sp2o.list_of(k).len() >= 1)
        &&& match modified {
            None => sp_index_matches(self.sp2o, self.wrapped.triples()),
            Some(t) => {
                &&& !self.wrapped.triples().contains((t[0], t[1], t[2]))
                &&& sp_index_matches(
                    self.sp2o,
                    self.wrapped.triples().insert((t[0], t[1], t[2])),
                )
            },
        }
    }

    fn igw_wrap_empty(graph: G) -> (r: Self) {
        let r = SpoWrapper { wrapped: graph, sp2o: PostingsMap::new() };
        proof {
            r.sp2o.lemma_key_seq_facts();
            assert forall|k: (u32, u32)| (#[trigger] r.sp2o.list_of(k)).no_duplicates() by {
                assert(r.sp2o.list_of(k) == Seq::<u32>::empty());
            }
        }
        r
    }

    fn igw_hook_insert_indexed(&mut self, modified: &Option<[u32; 3]>) {
        proof {
            lemma_index_eq_is_value_eq();
        }
        match modified {
            None => {},
            Some(t) => {
                let ghost pre = *self;
                let ghost tt = (t[0], t[1], t[2]);
                let ghost ts = pre.wrapped.triples();
                proof {
                    pre.sp2o.lemma_key_seq_facts();
                    assert(!pre.sp2o.list_of((t[0], t[1])).contains(t[2])) by {
                        assert(!ts.remove(tt).contains(tt));
                        if !pre.sp2o.has_key((t[0], t[1])) {
                            assert(pre.sp2o.list_of((t[0], t[1])) == Seq::<u32>::empty());
                        }
                    }
                }
                insert_in_index(&mut self.sp2o, (t[0], t[1]), t[2]);
                proof {
                    assert(self.sp2o.list_of((t[0], t[1])) == pre.sp2o.list_of(
                        (t[0], t[1]),
                    ).push(t[2]));
                    lemma_push_keeps_no_duplicates(pre.sp2o.list_of((t[0], t[1])), t[2]);
                    assert forall|s: u32, p: u32, ob: u32|
                        #![trigger ts.contains((s, p, ob))]
                        #![trigger self.sp2o.list_of((s, p)).contains(ob)]
                        ts.contains((s, p, ob)) <==> (self.sp2o.has_key((s, p))
                            && self.sp2o.list_of((s, p)).contains(ob)) by {
                        if (s, p) == (t[0], t[1]) {
                            lemma_push_contains(pre.sp2o.list_of((t[0], t[1])), t[2], ob);
                            assert(ts.remove(tt).contains((s, p, ob)) <==> (pre.sp2o.has_key(
                                (s, p),
                            ) && pre.sp2o.list_of((s, p)).contains(ob)));
                            assert(self.sp2o.has_key((s, p)));
                        } else {
                            assert(self.sp2o.list_of((s, p)) == pre.sp2o.list_of((s, p)));
                            assert(self.sp2o.has_key((s, p)) == pre.sp2o.has_key((s, p)));
                            assert(ts.remove(tt).contains((s, p, ob)) <==> (pre.sp2o.has_key(
                                (s, p),
                            ) && pre.sp2o.list_of((s, p)).contains(ob)));
                            assert(ts.remove(tt).contains((s, p, ob)) == ts.contains((s, p, ob)));
                        }
                    }
                }
            },
        }
    }

    fn igw_hook_remove_indexed(&mut self, modified: &Option<[u32; 3]>) {
        proof {
            lemma_index_eq_is_value_eq();
        }
        match modified {
            None => {},
            Some(t) => {
                let ghost pre = *self;
                let ghost tt = (t[0], t[1], t[2]);
                let ghost ts = pre.wrapped.triples();
                proof {
                    pre.sp2o.lemma_key_seq_facts();
                    assert(ts.insert(tt).contains(tt));
                    assert(pre.sp2o.has_key((t[0], t[1])) && pre.sp2o.list_of(
                        (t[0], t[1]),
                    ).contains(t[2])) by {
                        if !pre.sp2o.has_key((t[0], t[1])) {
                            assert(pre.sp2o.list_of((t[0], t[1])) == Seq::<u32>::empty());
                        }
                    }
                }
                let dropped = remove_from_index(&mut self.sp2o, (t[0], t[1]), t[2]);
                proof {
                    assert forall|s: u32, p: u32, ob: u32|
                        #![trigger ts.contains((s, p, ob))]
                        #![trigger self.sp2o.list_of((s, p)).contains(ob)]
                        ts.contains((s, p, ob)) <==> (self.sp2o.has_key((s, p))
                            && self.sp2o.list_of((s, p)).contains(ob)) by {
                        if (s, p) == (t[0], t[1]) {
                            assert(ts.insert(tt).contains((s, p, ob)) <==> (pre.sp2o.has_key(
                                (s, p),
                            ) && pre.sp2o.list_of((s, p)).contains(ob)));
                            if ts.contains((s, p, ob)) {
                                assert((s, p, ob) != tt);
                                assert(pre.sp2o.list_of((s, p)).contains(ob));
                                assert(!dropped) by {
                                    if pre.sp2o.list_of((s, p)).len() == 1 {
                                        let q1 = choose|q1: int|
                                            0 <= q1 < pre.sp2o.list_of((s, p)).len()
                                                && pre.sp2o.list_of((s, p))[q1] == ob;
                                        let q2 = choose|q2: int|
                                            0 <= q2 < pre.sp2o.list_of((s, p)).len()
                                                && pre.sp2o.list_of((s, p))[q2] == t[2];
                                        assert(q1 == 0 && q2 == 0);
                                    }
                                }
                                assert(self.sp2o.list_of((s, p)).contains(ob));
                                assert(self.sp2o.has_key((s, p)));
                            }
                            if self.sp2o.has_key((s, p)) && self.sp2o.list_of((s, p)).contains(
                                ob,
                            ) {
                                assert(!dropped);
                                assert(pre.sp2o.list_of((s, p)).contains(ob) && ob != t[2]);
                                assert((s, p, ob) != tt);
                            }
                        } else {
                            assert(self.sp2o.list_of((s, p)) == pre.sp2o.list_of((s, p)));
                            assert(self.sp2o.has_key((s, p)) == pre.sp2o.has_key((s, p)));
                            assert(ts.insert(tt).contains((s, p, ob)) <==> (pre.sp2o.has_key(
                                (s, p),
                            ) && pre.sp2o.list_of((s, p)).contains(ob)));
                            assert(ts.insert(tt).contains((s, p, ob)) == ts.contains((s, p, ob)));
                        }
                    }
                }
            },
        }
    }

    fn igw_hook_shrink_to_fit(&mut self) {
        self.sp2o.compact();
    }
}

impl<G: IndexedGraph> IndexedGraph for SpoWrapper<G> {
    closed spec fn triples(&self) -> Set<(u32, u32, u32)> {
        self.wrapped.triples()
    }

    closed spec fn term_at(&self, i: u32) -> Option<TermView> {
        self.wrapped.term_at(i)
    }

    closed spec fn rc_at(&self, i: u32) -> nat {
        self.wrapped.rc_at(i)
    }

    closed spec fn spare(&self) -> int {
        self.wrapped.spare()
    }

    closed spec fn inv(&self) -> bool {
        self.swf()
    }

    proof fn lemma_inv_facts(&self) {
        self.wrapped.lemma_inv_facts();
    }

    fn with_capacity(capacity: usize) -> (g: Self) {
        Self::igw_wrap_empty(G::with_capacity(capacity))
    }

    fn reserve(&mut self, additional: usize) {
        self.wrapped.reserve(additional);
        self.sp2o.reserve(additional);
    }

    fn shrink_to_fit(&mut self) {
        self.wrapped.shrink_to_fit();
        self.igw_hook_shrink_to_fit();
    }

    fn get_index(&self, t: &Term) -> (r: Option<u32>) {
        self.wrapped.get_index(t)
    }

    fn get_term(&self, i: u32) -> (r: Option<&Term>) {
        self.wrapped.get_term(i)
    }

    fn insert_indexed(&mut self, s: &Term, p: &Term, o: &Term) -> (r: Option<[u32; 3]>) {
        proof {
            if old(self).spare() < 3 {
                let (a, b, c) = choose|a: u32, b: u32, c: u32|
                    #![auto]
                    old(self).term_at(a) == Some(s@) && old(self).term_at(b) == Some(p@) && old(
                        self,
                    ).term_at(c) == Some(o@) && old(self).triples().contains((a, b, c));
                assert(old(self).wrapped.term_at(a) == Some(s@) && old(self).wrapped.term_at(b)
                    == Some(p@) && old(self).wrapped.term_at(c) == Some(o@) && old(
                    self,
                ).wrapped.triples().contains((a, b, c)));
            }
            assert forall|j: u32|
                (#[trigger] old(self).wrapped.term_at(j)) == Some(s@) implies old(
                self,
            ).wrapped.rc_at(j) <= u64::MAX - 3 by {
                assert(old(self).term_at(j) == old(self).wrapped.term_at(j));
            }
            assert forall|j: u32|
                (#[trigger] old(self).wrapped.term_at(j)) == Some(p@) implies old(
                self,
            ).wrapped.rc_at(j) <= u64::MAX - 3 by {
                assert(old(self).term_at(j) == old(self).wrapped.term_at(j));
            }
            assert forall|j: u32|
                (#[trigger] old(self).wrapped.term_at(j)) == Some(o@) implies old(
                self,
            ).wrapped.rc_at(j) <= u64::MAX - 3 by {
                assert(old(self).term_at(j) == old(self).wrapped.term_at(j));
            }
        }
        let modified = self.wrapped.insert_indexed(s, p, o);
        proof {
            let pre = *old(self);
            if modified is Some {
                let t = modified->Some_0;
                let tt = (t[0], t[1], t[2]);
                assert(self.wrapped.triples().remove(tt) =~= pre.wrapped.triples());
            }
            assert((modified is None) <==> (exists|a: u32, b: u32, c: u32|
                #![auto]
                pre.term_at(a) == Some(s@) && pre.term_at(b) == Some(p@) && pre.term_at(c)
                    == Some(o@) && pre.triples().contains((a, b, c)))) by {
                if modified is None {
                    let (a, b, c) = choose|a: u32, b: u32, c: u32|
                        #![auto]
                        pre.wrapped.term_at(a) == Some(s@) && pre.wrapped.term_at(b) == Some(p@)
                            && pre.wrapped.term_at(c) == Some(o@)
                            && pre.wrapped.triples().contains((a, b, c));
                    assert(pre.term_at(a) == Some(s@) && pre.term_at(b) == Some(p@) && pre.term_at(
                        c,
                    ) == Some(o@) && pre.triples().contains((a, b, c)));
                } else {
                    if exists|a: u32, b: u32, c: u32|
                        #![auto]
                        pre.term_at(a) == Some(s@) && pre.term_at(b) == Some(p@) && pre.term_at(c)
                            == Some(o@) && pre.triples().contains((a, b, c)) {
                        let (a, b, c) = choose|a: u32, b: u32, c: u32|
                            #![auto]
                            pre.term_at(a) == Some(s@) && pre.term_at(b) == Some(p@)
                                && pre.term_at(c) == Some(o@) && pre.triples().contains(
                                (a, b, c),
                            );
                        assert(pre.wrapped.term_at(a) == Some(s@) && pre.wrapped.term_at(b)
                            == Some(p@) && pre.wrapped.term_at(c) == Some(o@)
                            && pre.wrapped.triples().contains((a, b, c)));
                        assert(false);
                    }
                }
            }
        }
        proof {
            let pre = *old(self);
            if forall|j: u32| pre.term_at(j) != Some(s@) {
                assert forall|j: u32| pre.wrapped.term_at(j) != Some(s@) by {
                    assert(pre.term_at(j) != Some(s@));
                }
            }
            if forall|j: u32| pre.term_at(j) != Some(p@) {
                assert forall|j: u32| pre.wrapped.term_at(j) != Some(p@) by {
                    assert(pre.term_at(j) != Some(p@));
                }
            }
            if forall|j: u32| pre.term_at(j) != Some(o@) {
                assert forall|j: u32| pre.wrapped.term_at(j) != Some(o@) by {
                    assert(pre.term_at(j) != Some(o@));
                }
            }
        }
        self.igw_hook_insert_indexed(&modified);
        modified
    }

    fn remove_indexed(&mut self, s: &Term, p: &Term, o: &Term) -> (r: Option<[u32; 3]>) {
        let modified = self.wrapped.remove_indexed(s, p, o);
        proof {
            let pre = *old(self);
            if modified is Some {
                let t = modified->Some_0;
                let tt = (t[0], t[1], t[2]);
                assert(self.wrapped.triples().insert(tt) =~= pre.wrapped.triples());
            }
            assert((modified is Some) <==> (exists|a: u32, b: u32, c: u32|
                #![auto]
                pre.term_at(a) == Some(s@) && pre.term_at(b) == Some(p@) && pre.term_at(c)
                    == Some(o@) && pre.triples().contains((a, b, c)))) by {
                if modified is Some {
                    let (a, b, c) = choose|a: u32, b: u32, c: u32|
                        #![auto]
                        pre.wrapped.term_at(a) == Some(s@) && pre.wrapped.term_at(b) == Some(p@)
                            && pre.wrapped.term_at(c) == Some(o@)
                            && pre.wrapped.triples().contains((a, b, c));
                    assert(pre.term_at(a) == Some(s@) && pre.term_at(b) == Some(p@) && pre.term_at(
                        c,
                    ) == Some(o@) && pre.triples().contains((a, b, c)));
                } else {
                    if exists|a: u32, b: u32, c: u32|
                        #![auto]
                        pre.term_at(a) == Some(s@) && pre.term_at(b) == Some(p@) && pre.term_at(c)
                            == Some(o@) && pre.triples().contains((a, b, c)) {
                        let (a, b, c) = choose|a: u32, b: u32, c: u32|
                            #![auto]
                            pre.term_at(a) == Some(s@) && pre.term_at(b) == Some(p@)
                                && pre.term_at(c) == Some(o@) && pre.triples().contains(
                                (a, b, c),
                            );
                        assert(pre.wrapped.term_at(a) == Some(s@) && pre.wrapped.term_at(b)
                            == Some(p@) && pre.wrapped.term_at(c) == Some(o@)
                            && pre.wrapped.triples().contains((a, b, c)));
                        assert(false);
                    }
                }
            }
        }
        self.igw_hook_remove_indexed(&modified);
        modified
    }

    fn triples_all(&self) -> (out: Vec<(u32, u32, u32)>) {
        self.wrapped.triples_all()
    }

    fn triples_with_s(&self, si: u32) -> (out: Vec<(u32, u32, u32)>) {
        self.wrapped.triples_with_s(si)
    }

    fn triples_with_o(&self, oi: u32) -> (out: Vec<(u32, u32, u32)>) {
        self.wrapped.triples_with_o(oi)
    }

    fn triples_with_sp(&self, si: u32, pi: u32) -> (out: Vec<(u32, u32, u32)>) {
        proof {
            lemma_index_eq_is_value_eq();
        }
        let mut out: Vec<(u32, u32, u32)> = Vec::new();
        match self.sp2o.get((si, pi)) {
            Some(lst) => {
                let m = lst.len();
                let mut j: usize = 0;
                while j < m
                    invariant
                        self.swf(),
                        self.sp2o.has_key((si, pi)),
                        lst@ == self.sp2o.list_of((si, pi)),
                        m == lst@.len(),
                        j <= m,
                        out@.no_duplicates(),
                        forall|t: (u32, u32, u32)|
                            #[trigger] out@.contains(t) <==> (t.0 == si && t.1 == pi && exists|
                                q2: int,
                            |
                                0 <= q2 < j && lst@[q2] == t.2),
                    decreases m - j,
                {
                    let ob = lst[j];
                    let x = (si, pi, ob);
                    proof {
                        assert(!out@.contains(x)) by {
                            if out@.contains(x) {
                                let q2 = choose|q2: int| 0 <= q2 < j && lst@[q2] == ob;
                                assert(lst@.no_duplicates());
                                assert(lst@[q2] == lst@[j as int]);
                                assert(false);
                            }
                        }
                        lemma_push_keeps_no_duplicates(out@, x);
                    }
                    let ghost out_pre = out@;
                    out.push(x);
                    proof {
                        assert forall|t: (u32, u32, u32)| #[trigger] out@.contains(t) <==> (
                        out_pre.contains(t) || t == x) by {
                            lemma_push_contains(out_pre, x, t);
                        }
                    }
                    j += 1;
                }
            },
            None => {},
        }
        proof {
            assert forall|t: (u32, u32, u32)| #[trigger] out@.contains(t) <==> (
            self.triples().contains(t) && t.0 == si && t.1 == pi) by {
                if self.triples().contains(t) && t.0 == si && t.1 == pi {
                    assert(self.sp2o.list_of((si, pi)).contains(t.2));
                }
            }
        }
        out
    }

    fn triples_with_po(&self, pi: u32, oi: u32) -> (out: Vec<(u32, u32, u32)>) {
        self.wrapped.triples_with_po(pi, oi)
    }

    fn contains_triple(&self, t: [u32; 3]) -> (r: bool) {
        self.wrapped.contains_triple(t)
    }
}

} // verus!

verus! {

/// Whether the "(predicate, object) -> subjects" postings of `m` hold
/// exactly the tuples of `ts`.
pub open spec fn po_index_matches(m: PostingsMap<(u32, u32), u32>, ts: Set<(u32, u32, u32)>) -> bool {
    forall|s: u32, p: u32, ob: u32|
        #![trigger ts.contains((s, p, ob))]
        #![trigger m.list_of((p, ob)).contains(s)]
        ts.contains((s, p, ob)) <==> (m.has_key((p, ob)) && m.list_of((p, ob)).contains(s))
}

/// Whether the coarser "object -> predicates" index holds exactly the keys
/// of the "(predicate, object) -> subjects" postings.
pub open spec fn o_parent_matches(
    parent: PostingsMap<u32, u32>,
    m: PostingsMap<(u32, u32), u32>,
) -> bool {
    forall|p: u32, ob: u32|
        #![trigger m.has_key((p, ob))]
        #![trigger parent.list_of(ob).contains(p)]
        m.has_key((p, ob)) <==> (parent.has_key(ob) && parent.list_of(ob).contains(p))
}

/// A wrapper adding an object-anchored index: a "(predicate, object) ->
/// subjects" postings structure plus a coarser "object -> predicates" parent
/// index, kept in step through the postings creation and eviction signals.
/// It answers both the object pattern and the predicate-and-object pattern
/// without scanning.
pub struct OpsWrapper<G: IndexedGraph> {
    wrapped: G,
    po2s: PostingsMap<(u32, u32), u32>,
    o2p: PostingsMap<u32, u32>,
}

impl<G: IndexedGraph> OpsWrapper<G> {
    pub closed spec fn owf(self) -> bool {
        &&& self.wrapped.inv()
        &&& self.po2s.wf()
        &&& self.o2p.wf()
        &&& (forall|k: (u32, u32)| (#[trigger] self.po2s.list_of(k)).no_duplicates())
        &&& (forall|k: (u32, u32)| #[trigger] self.po2s.has_key(k) ==> self.po2s.list_of(k).len() >= 1)
        &&& (forall|k: u32| (#[trigger] self.o2p.list_of(k)).no_duplicates())
        &&& (forall|k: u32| #[trigger] self.o2p.has_key(k) ==> self.o2p.list_of(k).len() >= 1)
        &&& po_index_matches(self.po2s, self.wrapped.triples())
        &&& o_parent_matches(self.o2p, self.po2s)
    }

    spec fn postings_wf(self) -> bool {
        &&& self.po2s.wf()
        &&& self.o2p.wf()
        &&& (forall|k: (u32, u32)| (#[trigger] self.po2s.list_of(k)).no_duplicates())
        &&& (forall|k: (u32, u32)| #[trigger] self.po2s.has_key(k) ==> self.po2s.list_of(k).len() >= 1)
        &&& (forall|k: u32| (#[trigger] self.o2p.list_of(k)).no_duplicates())
        &&& (forall|k: u32| #[trigger] self.o2p.has_key(k) ==> self.o2p.list_of(k).len() >= 1)
        &&& o_parent_matches(self.o2p, self.po2s)
    }
}

impl<G: IndexedGraph> IndexedGraphWrapper<G> for OpsWrapper<G> {
    open spec fn igw_inv(&self) -> bool {
        self.owf()
    }

    closed spec fn igw_wrapped(&self) -> G {
        self.wrapped
    }

    closed spec fn igw_hook_insert_ok(&self, modified: Option<[u32; 3]>) -> bool {
        &&& self.wrapped.inv()
        &&& self.postings_wf()
        &&& match modified {
            None => po_index_matches(self.po2s, self.wrapped.triples()),
            Some(t) => {
                &&& self.wrapped.triples().contains((t[0], t[1], t[2]))
                &&& po_index_matches(
                    self.po2s,
                    self.wrapped.triples().remove((t[0], t[1], t[2])),
                )
            },
        }
    }

    closed spec fn igw_hook_remove_ok(&self, modified: Option<[u32; 3]>) -> bool {
        &&& self.wrapped.inv()
        &&& self.postings_wf()
        &&& match modified {
            None => po_index_matches(self.po2s, self.wrapped.triples()),
            Some(t) => {
                &&& !self.wrapped.triples().contains((t[0], t[1], t[2]))
                &&& po_index_matches(
                    self.po2s,
                    self.wrapped.triples().insert((t[0], t[1], t[2])),
                )
            },
        }
    }

    fn igw_wrap_empty(graph: G) -> (r: Self) {
        let r = OpsWrapper { wrapped: graph, po2s: PostingsMap::new(), o2p: PostingsMap::new() };
        proof {
            r.po2s.lemma_key_seq_facts();
            r.o2p.lemma_key_seq_facts();
            assert forall|k: (u32, u32)| (#[trigger] r.po2s.list_of(k)).no_duplicates() by {
                assert(r.po2s.list_of(k) == Seq::<u32>::empty());
            }
            assert forall|k: u32| (#[trigger] r.o2p.list_of(k)).no_duplicates() by {
                assert(r.o2p.list_of(k) == Seq::<u32>::empty());
            }
        }
        r
    }

    fn igw_hook_insert_indexed(&mut self, modified: &Option<[u32; 3]>) {
        proof {
            lemma_index_eq_is_value_eq();
        }
        match modified {
            None => {},
            Some(t) => {
                let ghost pre = *self;
                let ghost tt = (t[0], t[1], t[2]);
                let ghost ts = pre.wrapped.triples();
                proof {
                    pre.po2s.lemma_key_seq_facts();
                    pre.o2p.lemma_key_seq_facts();
                    assert(!pre.po2s.list_of((t[1], t[2])).contains(t[0])) by {
                        assert(!ts.remove(tt).contains(tt));
                        if !pre.po2s.has_key((t[1], t[2])) {
                            assert(pre.po2s.list_of((t[1], t[2])) == Seq::<u32>::empty());
                        }
                    }
                }
                let created = insert_in_index(&mut self.po2s, (t[1], t[2]), t[0]);
                let ghost mid = *self;
                proof {
                    lemma_push_keeps_no_duplicates(pre.po2s.list_of((t[1], t[2])), t[0]);
                    assert forall|s: u32, p: u32, ob: u32|
                        #![trigger ts.contains((s, p, ob))]
                        #![trigger mid.po2s.list_of((p, ob)).contains(s)]
                        ts.contains((s, p, ob)) <==> (mid.po2s.has_key((p, ob))
                            && mid.po2s.list_of((p, ob)).contains(s)) by {
                        if (p, ob) == (t[1], t[2]) {
                            lemma_push_contains(pre.po2s.list_of((t[1], t[2])), t[0], s);
                            assert(ts.remove(tt).contains((s, p, ob)) <==> (pre.po2s.has_key(
                                (p, ob),
                            ) && pre.po2s.list_of((p, ob)).contains(s)));
                            assert(mid.po2s.has_key((p, ob)));
                        } else {
                            assert(mid.po2s.list_of((p, ob)) == pre.po2s.list_of((p, ob)));
                            assert(mid.po2s.has_key((p, ob)) == pre.po2s.has_key((p, ob)));
                            assert(ts.remove(tt).contains((s, p, ob)) <==> (pre.po2s.has_key(
                                (p, ob),
                            ) && pre.po2s.list_of((p, ob)).contains(s)));
                            assert(ts.remove(tt).contains((s, p, ob)) == ts.contains((s, p, ob)));
                        }
                    }
                }
                if created {
                    proof {
                        assert(!pre.po2s.has_key((t[1], t[2])));
                        assert(!pre.o2p.list_of(t[2]).contains(t[1]));
                    }
                    insert_in_index(&mut self.o2p, t[2], t[1]);
                    proof {
                        lemma_push_keeps_no_duplicates(pre.o2p.list_of(t[2]), t[1]);
                        assert(self.o2p.list_of(t[2]) == pre.o2p.list_of(t[2]).push(t[1]));
                        assert forall|p: u32, ob: u32|
                            #![trigger self.po2s.has_key((p, ob))]
                            #![trigger self.o2p.list_of(ob).contains(p)]
                            self.po2s.has_key((p, ob)) <==> (self.o2p.has_key(ob)
                                && self.o2p.list_of(ob).contains(p)) by {
                            if ob == t[2] {
                                lemma_push_contains(pre.o2p.list_of(t[2]), t[1], p);
                                assert(pre.po2s.has_key((p, ob)) <==> (pre.o2p.has_key(ob)
                                    && pre.o2p.list_of(ob).contains(p)));
                                assert(self.po2s.has_key((p, ob)) <==> (pre.po2s.has_key((p, ob))
                                    || (p, ob) == (t[1], t[2])));
                                assert(self.o2p.has_key(ob));
                            } else {
                                assert(self.o2p.list_of(ob) == pre.o2p.list_of(ob));
                                assert(self.o2p.has_key(ob) == pre.o2p.has_key(ob));
                                assert(self.po2s.has_key((p, ob)) == pre.po2s.has_key((p, ob)));
                                assert(pre.po2s.has_key((p, ob)) <==> (pre.o2p.has_key(ob)
                                    && pre.o2p.list_of(ob).contains(p)));
                            }
                        }
                    }
                } else {
                    proof {
                        assert(pre.po2s.has_key((t[1], t[2])));
                        assert forall|p: u32, ob: u32|
                            #![trigger self.po2s.has_key((p, ob))]
                            #![trigger self.o2p.list_of(ob).contains(p)]
                            self.po2s.has_key((p, ob)) <==> (self.o2p.has_key(ob)
                                && self.o2p.list_of(ob).contains(p)) by {
                            assert(self.po2s.has_key((p, ob)) <==> (pre.po2s.has_key((p, ob)) || (
                            p,
                            ob,
                            ) == (t[1], t[2])));
                            assert(pre.po2s.has_key((p, ob)) <==> (pre.o2p.has_key(ob)
                                && pre.o2p.list_of(ob).contains(p)));
                        }
                    }
                }
            },
        }
    }

    fn igw_hook_remove_indexed(&mut self, modified: &Option<[u32; 3]>) {
        proof {
            lemma_index_eq_is_value_eq();
        }
        match modified {
            None => {},
            Some(t) => {
                let ghost pre = *self;
                let ghost tt = (t[0], t[1], t[2]);
                let ghost ts = pre.wrapped.triples();
                proof {
                    pre.po2s.lemma_key_seq_facts();
                    pre.o2p.lemma_key_seq_facts();
                    assert(ts.insert(tt).contains(tt));
                    assert(pre.po2s.has_key((t[1], t[2])) && pre.po2s.list_of(
                        (t[1], t[2]),
                    ).contains(t[0])) by {
                        if !pre.po2s.has_key((t[1], t[2])) {
                            assert(pre.po2s.list_of((t[1], t[2])) == Seq::<u32>::empty());
                        }
                    }
                }
                let dropped = remove_from_index(&mut self.po2s, (t[1], t[2]), t[0]);
                let ghost mid = *self;
                proof {
                    assert forall|s: u32, p: u32, ob: u32|
                        #![trigger ts.contains((s, p, ob))]
                        #![trigger mid.po2s.list_of((p, ob)).contains(s)]
                        ts.contains((s, p, ob)) <==> (mid.po2s.has_key((p, ob))
                            && mid.po2s.list_of((p, ob)).contains(s)) by {
                        if (p, ob) == (t[1], t[2]) {
                            assert(ts.insert(tt).contains((s, p, ob)) <==> (pre.po2s.has_key(
                                (p, ob),
                            ) && pre.po2s.list_of((p, ob)).contains(s)));
                            if ts.contains((s, p, ob)) {
                                assert((s, p, ob) != tt);
                                assert(pre.po2s.list_of((p, ob)).contains(s));
                                assert(!dropped) by {
                                    if pre.po2s.list_of((p, ob)).len() == 1 {
                                        let q1 = choose|q1: int|
                                            0 <= q1 < pre.po2s.list_of((p, ob)).len()
                                                && pre.po2s.list_of((p, ob))[q1] == s;
                                        let q2 = choose|q2: int|
                                            0 <= q2 < pre.po2s.list_of((p, ob)).len()
                                                && pre.po2s.list_of((p, ob))[q2] == t[0];
                                        assert(q1 == 0 && q2 == 0);
                                    }
                                }
                                assert(mid.po2s.list_of((p, ob)).contains(s));
                                assert(mid.po2s.has_key((p, ob)));
                            }
                            if mid.po2s.has_key((p, ob)) && mid.po2s.list_of((p, ob)).contains(
                                s,
                            ) {
                                assert(!dropped);
                                assert(pre.po2s.list_of((p, ob)).contains(s) && s != t[0]);
                                assert((s, p, ob) != tt);
                            }
                        } else {
                            assert(mid.po2s.list_of((p, ob)) == pre.po2s.list_of((p, ob)));
                            assert(mid.po2s.has_key((p, ob)) == pre.po2s.has_key((p, ob)));
                            assert(ts.insert(tt).contains((s, p, ob)) <==> (pre.po2s.has_key(
                                (p, ob),
                            ) && pre.po2s.list_of((p, ob)).contains(s)));
                            assert(ts.insert(tt).contains((s, p, ob)) == ts.contains((s, p, ob)));
                        }
                    }
                }
                if dropped {
                    proof {
                        assert(pre.po2s.has_key((t[1], t[2])));
                        assert(pre.o2p.has_key(t[2]) && pre.o2p.list_of(t[2]).contains(t[1]));
                    }
                    remove_from_index(&mut self.o2p, t[2], t[1]);
                    proof {
                        assert forall|p: u32, ob: u32|
                            #![trigger self.po2s.has_key((p, ob))]
                            #![trigger self.o2p.list_of(ob).contains(p)]
                            self.po2s.has_key((p, ob)) <==> (self.o2p.has_key(ob)
                                && self.o2p.list_of(ob).contains(p)) by {
                            assert(self.po2s.has_key((p, ob)) <==> (pre.po2s.has_key((p, ob)) && (
                            p,
                            ob,
                            ) != (t[1], t[2])));
                            assert(pre.po2s.has_key((p, ob)) <==> (pre.o2p.has_key(ob)
                                && pre.o2p.list_of(ob).contains(p)));
                            if ob == t[2] {
                                if self.o2p.has_key(ob) {
                                    assert(self.o2p.list_of(ob).contains(p) <==> (pre.o2p.list_of(
                                        ob,
                                    ).contains(p) && p != t[1]));
                                }
                            } else {
                                assert(self.o2p.list_of(ob) == pre.o2p.list_of(ob));
                                assert(self.o2p.has_key(ob) == pre.o2p.has_key(ob));
                            }
                        }
                    }
                } else {
                    proof {
                        assert forall|p: u32, ob: u32|
                            #![trigger self.po2s.has_key((p, ob))]
                            #![trigger self.o2p.list_of(ob).contains(p)]
                            self.po2s.has_key((p, ob)) <==> (self.o2p.has_key(ob)
                                && self.o2p.list_of(ob).contains(p)) by {
                            assert(self.po2s.has_key((p, ob)) == pre.po2s.has_key((p, ob)));
                            assert(pre.po2s.has_key((p, ob)) <==> (pre.o2p.has_key(ob)
                                && pre.o2p.list_of(ob).contains(p)));
                        }
                    }
                }
            },
        }
    }

    fn igw_hook_shrink_to_fit(&mut self) {
        self.po2s.compact();
        self.o2p.compact();
    }
}

impl<G: IndexedGraph> IndexedGraph for OpsWrapper<G> {
    closed spec fn triples(&self) -> Set<(u32, u32, u32)> {
        self.wrapped.triples()
    }

    closed spec fn term_at(&self, i: u32) -> Option<TermView> {
        self.wrapped.term_at(i)
    }

    closed spec fn rc_at(&self, i: u32) -> nat {
        self.wrapped.rc_at(i)
    }

    closed spec fn spare(&self) -> int {
        self.wrapped.spare()
    }

    closed spec fn inv(&self) -> bool {
        self.owf()
    }

    proof fn lemma_inv_facts(&self) {
        self.wrapped.lemma_inv_facts();
    }

    fn with_capacity(capacity: usize) -> (g: Self) {
        Self::igw_wrap_empty(G::with_capacity(capacity))
    }

    fn reserve(&mut self, additional: usize) {
        self.wrapped.reserve(additional);
        self.po2s.reserve(additional);
        self.o2p.reserve(additional);
    }

    fn shrink_to_fit(&mut self) {
        self.wrapped.shrink_to_fit();
        self.igw_hook_shrink_to_fit();
    }

    fn get_index(&self, t: &Term) -> (r: Option<u32>) {
        self.wrapped.get_index(t)
    }

    fn get_term(&self, i: u32) -> (r: Option<&Term>) {
        self.wrapped.get_term(i)
    }

    fn insert_indexed(&mut self, s: &Term, p: &Term, o: &Term) -> (r: Option<[u32; 3]>) {
        proof {
            if old(self).spare() < 3 {
                let (a, b, c) = choose|a: u32, b: u32, c: u32|
                    #![auto]
                    old(self).term_at(a) == Some(s@) && old(self).term_at(b) == Some(p@) && old(
                        self,
                    ).term_at(c) == Some(o@) && old(self).triples().contains((a, b, c));
                assert(old(self).wrapped.term_at(a) == Some(s@) && old(self).wrapped.term_at(b)
                    == Some(p@) && old(self).wrapped.term_at(c) == Some(o@) && old(
                    self,
                ).wrapped.triples().contains((a, b, c)));
            }
            assert forall|j: u32|
                (#[trigger] old(self).wrapped.term_at(j)) == Some(s@) implies old(
                self,
            ).wrapped.rc_at(j) <= u64::MAX - 3 by {
                assert(old(self).term_at(j) == old(self).wrapped.term_at(j));
            }
            assert forall|j: u32|
                (#[trigger] old(self).wrapped.term_at(j)) == Some(p@) implies old(
                self,
            ).wrapped.rc_at(j) <= u64::MAX - 3 by {
                assert(old(self).term_at(j) == old(self).wrapped.term_at(j));
            }
            assert forall|j: u32|
                (#[trigger] old(self).wrapped.term_at(j)) == Some(o@) implies old(
                self,
            ).wrapped.rc_at(j) <= u64::MAX - 3 by {
                assert(old(self).term_at(j) == old(self).wrapped.term_at(j));
            }
        }
        let modified = self.wrapped.insert_indexed(s, p, o);
        proof {
            let pre = *old(self);
            if modified is Some {
                let t = modified->Some_0;
                let tt = (t[0], t[1], t[2]);
                assert(self.wrapped.triples().remove(tt) =~= pre.wrapped.triples());
            }
            assert((modified is None) <==> (exists|a: u32, b: u32, c: u32|
                #![auto]
                pre.term_at(a) == Some(s@) && pre.term_at(b) == Some(p@) && pre.term_at(c)
                    == Some(o@) && pre.triples().contains((a, b, c)))) by {
                if modified is None {
                    let (a, b, c) = choose|a: u32, b: u32, c: u32|
                        #![auto]
                        pre.wrapped.term_at(a) == Some(s@) && pre.wrapped.term_at(b) == Some(p@)
                            && pre.wrapped.term_at(c) == Some(o@)
                            && pre.wrapped.triples().contains((a, b, c));
                    assert(pre.term_at(a) == Some(s@) && pre.term_at(b) == Some(p@) && pre.term_at(
                        c,
                    ) == Some(o@) && pre.triples().contains((a, b, c)));
                } else {
                    if exists|a: u32, b: u32, c: u32|
                        #![auto]
                        pre.term_at(a) == Some(s@) && pre.term_at(b) == Some(p@) && pre.term_at(c)
                            == Some(o@) && pre.triples().contains((a, b, c)) {
                        let (a, b, c) = choose|a: u32, b: u32, c: u32|
                            #![auto]
                            pre.term_at(a) == Some(s@) && pre.term_at(b) == Some(p@)
                                && pre.term_at(c) == Some(o@) && pre.triples().contains(
                                (a, b, c),
                            );
                        assert(pre.wrapped.term_at(a) == Some(s@) && pre.wrapped.term_at(b)
                            == Some(p@) && pre.wrapped.term_at(c) == Some(o@)
                            && pre.wrapped.triples().contains((a, b, c)));
                        assert(false);
                    }
                }
            }
        }
        proof {
            let pre = *old(self);
            if forall|j: u32| pre.term_at(j) != Some(s@) {
                assert forall|j: u32| pre.wrapped.term_at(j) != Some(s@) by {
                    assert(pre.term_at(j) != Some(s@));
                }
            }
            if forall|j: u32| pre.term_at(j) != Some(p@) {
                assert forall|j: u32| pre.wrapped.term_at(j) != Some(p@) by {
                    assert(pre.term_at(j) != Some(p@));
                }
            }
            if forall|j: u32| pre.term_at(j) != Some(o@) {
                assert forall|j: u32| pre.wrapped.term_at(j) != Some(o@) by {
                    assert(pre.term_at(j) != Some(o@));
                }
            }
        }
        self.igw_hook_insert_indexed(&modified);
        modified
    }

    fn remove_indexed(&mut self, s: &Term, p: &Term, o: &Term) -> (r: Option<[u32; 3]>) {
        let modified = self.wrapped.remove_indexed(s, p, o);
        proof {
            let pre = *old(self);
            if modified is Some {
                let t = modified->Some_0;
                let tt = (t[0], t[1], t[2]);
                assert(self.wrapped.triples().insert(tt) =~= pre.wrapped.triples());
            }
            assert((modified is Some) <==> (exists|a: u32, b: u32, c: u32|
                #![auto]
                pre.term_at(a) == Some(s@) && pre.term_at(b) == Some(p@) && pre.term_at(c)
                    == Some(o@) && pre.triples().contains((a, b, c)))) by {
                if modified is Some {
                    let (a, b, c) = choose|a: u32, b: u32, c: u32|
                        #![auto]
                        pre.wrapped.term_at(a) == Some(s@) && pre.wrapped.term_at(b) == Some(p@)
                            && pre.wrapped.term_at(c) == Some(o@)
                            && pre.wrapped.triples().contains((a, b, c));
                    assert(pre.term_at(a) == Some(s@) && pre.term_at(b) == Some(p@) && pre.term_at(
                        c,
                    ) == Some(o@) && pre.triples().contains((a, b, c)));
                } else {
                    if exists|a: u32, b: u32, c: u32|
                        #![auto]
                        pre.term_at(a) == Some(s@) && pre.term_at(b) == Some(p@) && pre.term_at(c)
                            == Some(o@) && pre.triples().contains((a, b, c)) {
                        let (a, b, c) = choose|a: u32, b: u32, c: u32|
                            #![auto]
                            pre.term_at(a) == Some(s@) && pre.term_at(b) == Some(p@)
                                && pre.term_at(c) == Some(o@) && pre.triples().contains(
                                (a, b, c),
                            );
                        assert(pre.wrapped.term_at(a) == Some(s@) && pre.wrapped.term_at(b)
                            == Some(p@) && pre.wrapped.term_at(c) == Some(o@)
                            && pre.wrapped.triples().contains((a, b, c)));
                        assert(false);
                    }
                }
            }
        }
        self.igw_hook_remove_indexed(&modified);
        modified
    }

    fn triples_all(&self) -> (out: Vec<(u32, u32, u32)>) {
        self.wrapped.triples_all()
    }

    fn triples_with_s(&self, si: u32) -> (out: Vec<(u32, u32, u32)>) {
        self.wrapped.triples_with_s(si)
    }

    fn triples_with_o(&self, oi: u32) -> (out: Vec<(u32, u32, u32)>) {
        proof {
            lemma_index_eq_is_value_eq();
            self.po2s.lemma_key_seq_facts();
            self.o2p.lemma_key_seq_facts();
        }
        let mut out: Vec<(u32, u32, u32)> = Vec::new();
        match self.o2p.get(oi) {
            None => {
                proof {
                    assert forall|t: (u32, u32, u32)|
                        !(self.triples().contains(t) && t.2 == oi) by {
                        if self.triples().contains(t) && t.2 == oi {
                            assert(self.triples().contains((t.0, t.1, t.2)));
                            assert(self.po2s.has_key((t.1, oi)));
                            assert(self.o2p.has_key(oi));
                        }
                    }
                }
            },
            Some(ps) => {
                let np = ps.len();
                let mut q: usize = 0;
                while q < np
                    invariant
                        self.owf(),
                        self.o2p.has_key(oi),
                        ps@ == self.o2p.list_of(oi),
                        np == ps@.len(),
                        q <= np,
                        out@.no_duplicates(),
                        forall|t: (u32, u32, u32)|
                            #[trigger] out@.contains(t) <==> (t.2 == oi && (exists|q2: int|
                                0 <= q2 < q && ps@[q2] == t.1) && self.po2s.list_of(
                                (t.1, oi),
                            ).contains(t.0)),
                    decreases np - q,
                {
                    proof {
                        lemma_index_eq_is_value_eq();
                    }
                    let pv = ps[q];
                    match self.po2s.get((pv, oi)) {
                        None => {
                            proof {
                                assert(self.o2p.list_of(oi).contains(pv));
                                assert(self.po2s.has_key((pv, oi)));
                                assert(false);
                            }
                        },
                        Some(ss) => {
                            let ns = ss.len();
                            let mut rx: usize = 0;
                            while rx < ns
                                invariant
                                    self.owf(),
                                    self.o2p.has_key(oi),
                                    ps@ == self.o2p.list_of(oi),
                                    np == ps@.len(),
                                    q < np,
                                    pv == ps@[q as int],
                                    self.po2s.has_key((pv, oi)),
                                    ss@ == self.po2s.list_of((pv, oi)),
                                    ns == ss@.len(),
                                    rx <= ns,
                                    out@.no_duplicates(),
                                    forall|t: (u32, u32, u32)|
                                        #[trigger] out@.contains(t) <==> ((t.2 == oi && (exists|
                                            q2: int,
                                        |
                                            0 <= q2 < q && ps@[q2] == t.1) && self.po2s.list_of(
                                            (t.1, oi),
                                        ).contains(t.0)) || (t.1 == pv && t.2 == oi && exists|
                                            r2: int,
                                        |
                                            0 <= r2 < rx && ss@[r2] == t.0)),
                                decreases ns - rx,
                            {
                                let sv = ss[rx];
                                let x = (sv, pv, oi);
                                proof {
                                    assert(!out@.contains(x)) by {
                                        if out@.contains(x) {
                                            if x.1 == pv && x.2 == oi && exists|r2: int|
                                                0 <= r2 < rx && ss@[r2] == x.0 {
                                                let r2 = choose|r2: int|
                                                    0 <= r2 < rx && ss@[r2] == sv;
                                                assert(ss@.no_duplicates());
                                                assert(ss@[r2] == ss@[rx as int]);
                                                assert(false);
                                            } else {
                                                let q2 = choose|q2: int|
                                                    0 <= q2 < q && ps@[q2] == pv;
                                                assert(ps@.no_duplicates());
                                                assert(ps@[q2] == ps@[q as int]);
                                                assert(false);
                                            }
                                        }
                                    }
                                    lemma_push_keeps_no_duplicates(out@, x);
                                }
                                let ghost out_pre = out@;
                                out.push(x);
                                proof {
                                    assert forall|t: (u32, u32, u32)| #[trigger] out@.contains(t)
                                        <==> (out_pre.contains(t) || t == x) by {
                                        lemma_push_contains(out_pre, x, t);
                                    }
                                    assert(ss@[rx as int] == sv);
                                    assert(self.po2s.list_of((pv, oi)).contains(sv));
                                }
                                rx += 1;
                            }
                        },
                    }
                    q += 1;
                    proof {
                        assert forall|t: (u32, u32, u32)| #[trigger] out@.contains(t) <==> (t.2
                            == oi && (exists|q2: int| 0 <= q2 < q && ps@[q2] == t.1)
                            && self.po2s.list_of((t.1, oi)).contains(t.0)) by {
                            if out@.contains(t) {
                                if t.1 == pv && t.2 == oi {
                                    assert(ps@[q - 1] == t.1);
                                }
                            } else {
                                if t.2 == oi && (exists|q2: int| 0 <= q2 < q && ps@[q2] == t.1)
                                    && self.po2s.list_of((t.1, oi)).contains(t.0) {
                                    let q2 = choose|q2: int| 0 <= q2 < q && ps@[q2] == t.1;
                                    if q2 == q - 1 {
                                        assert(t.1 == pv);
                                        assert(false);
                                    } else {
                                        assert(false);
                                    }
                                }
                            }
                        }
                    }
                }
            },
        }
        proof {
            assert forall|t: (u32, u32, u32)| #[trigger] out@.contains(t) <==> (
            self.triples().contains(t) && t.2 == oi) by {
                if out@.contains(t) {
                    assert(self.po2s.has_key((t.1, oi)) && self.po2s.list_of((t.1, oi)).contains(
                        t.0,
                    ));
                }
                if self.triples().contains(t) && t.2 == oi {
                    assert(self.po2s.has_key((t.1, oi)) && self.po2s.list_of((t.1, oi)).contains(
                        t.0,
                    ));
                    assert(self.o2p.list_of(oi).contains(t.1));
                }
            }
        }
        out
    }

    fn triples_with_sp(&self, si: u32, pi: u32) -> (out: Vec<(u32, u32, u32)>) {
        self.wrapped.triples_with_sp(si, pi)
    }

    fn triples_with_po(&self, pi: u32, oi: u32) -> (out: Vec<(u32, u32, u32)>) {
        proof {
            lemma_index_eq_is_value_eq();
        }
        let mut out: Vec<(u32, u32, u32)> = Vec::new();
        match self.po2s.get((pi, oi)) {
            Some(lst) => {
                let m = lst.len();
                let mut j: usize = 0;
                while j < m
                    invariant
                        self.owf(),
                        self.po2s.has_key((pi, oi)),
                        lst@ == self.po2s.list_of((pi, oi)),
                        m == lst@.len(),
                        j <= m,
                        out@.no_duplicates(),
                        forall|t: (u32, u32, u32)|
                            #[trigger] out@.contains(t) <==> (t.1 == pi && t.2 == oi && exists|
                                q2: int,
                            |
                                0 <= q2 < j && lst@[q2] == t.0),
                    decreases m - j,
                {
                    let sv = lst[j];
                    let x = (sv, pi, oi);
                    proof {
                        assert(!out@.contains(x)) by {
                            if out@.contains(x) {
                                let q2 = choose|q2: int| 0 <= q2 < j && lst@[q2] == sv;
                                assert(lst@.no_duplicates());
                                assert(lst@[q2] == lst@[j as int]);
                                assert(false);
                            }
                        }
                        lemma_push_keeps_no_duplicates(out@, x);
                    }
                    let ghost out_pre = out@;
                    out.push(x);
                    proof {
                        assert forall|t: (u32, u32, u32)| #[trigger] out@.contains(t) <==> (
                        out_pre.contains(t) || t == x) by {
                            lemma_push_contains(out_pre, x, t);
                        }
                    }
                    j += 1;
                }
            },
            None => {},
        }
        proof {
            assert forall|t: (u32, u32, u32)| #[trigger] out@.contains(t) <==> (
            self.triples().contains(t) && t.1 == pi && t.2 == oi) by {
                if self.triples().contains(t) && t.1 == pi && t.2 == oi {
                    assert(self.po2s.list_of((pi, oi)).contains(t.0));
                }
            }
        }
        out
    }

    fn contains_triple(&self, t: [u32; 3]) -> (r: bool) {
        self.wrapped.contains_triple(t)
    }
}

} // verus!
