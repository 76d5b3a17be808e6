//! Pre-composed graph types and laws of the insertion/removal contract.

use crate::store::{occ, IndexedGraph, PrimaryStore};
use crate::term::Term;
use crate::wrapper::{OpsWrapper, SpoWrapper};
use vstd::prelude::*;

verus! {

/// A graph with no tuple index beyond the subject grouping: fast to load
/// but slow to query.
pub type LightGraph = PrimaryStore;

/// A heavily indexed graph: the primary store wrapped with a
/// subject-predicate index and an object-anchored index, so that subject-,
/// subject-predicate-, object- and predicate-object-anchored queries are all
/// answered without scanning.
pub type FastGraph = OpsWrapper<SpoWrapper<PrimaryStore>>;

/// Law: inserting the same tuple twice adds it once. The first insertion
/// returns the tuple and the second returns `None`, leaving the graph —
/// reference counts included — exactly as the first insertion left it.
pub fn insert_twice_inserts_once<G: IndexedGraph>(g: &mut G, s: &Term, p: &Term, o: &Term) -> (r:
    [u32; 3])
    requires
        old(g).inv(),
        old(g).spare() >= 3,
        forall|j: u32| (#[trigger] old(g).term_at(j)) != Some(s@),
        forall|j: u32| (#[trigger] old(g).term_at(j)) != Some(p@),
        forall|j: u32| (#[trigger] old(g).term_at(j)) != Some(o@),
    ensures
        final(g).inv(),
        final(g).triples() == old(g).triples().insert((r[0], r[1], r[2])),
        final(g).term_at(r[0]) == Some(s@),
        final(g).term_at(r[1]) == Some(p@),
        final(g).term_at(r[2]) == Some(o@),
        forall|j: u32| #[trigger] final(g).rc_at(j) == old(g).rc_at(j) + occ(j, r[0], r[1], r[2]),
{
    proof {
        old(g).lemma_inv_facts();
    }
    let r1 = g.insert_indexed(s, p, o);
    let t = match r1 {
        Some(t) => t,
        None => {
            proof {
                assert(false);
            }
            [0u32, 0u32, 0u32]
        },
    };
    let ghost mid = *g;
    proof {
        mid.lemma_inv_facts();
        assert forall|j: u32|
            (#[trigger] mid.term_at(j)) == Some(s@) implies mid.rc_at(j) <= u64::MAX - 3 by {
            assert(j == t[0]);
            assert(old(g).rc_at(t[0]) == 0);
            assert(mid.rc_at(t[0]) == occ(t[0], t[0], t[1], t[2]));
        }
        assert forall|j: u32|
            (#[trigger] mid.term_at(j)) == Some(p@) implies mid.rc_at(j) <= u64::MAX - 3 by {
            assert(j == t[1]);
            assert(old(g).rc_at(t[1]) == 0);
            assert(mid.rc_at(t[1]) == occ(t[1], t[0], t[1], t[2]));
        }
        assert forall|j: u32|
            (#[trigger] mid.term_at(j)) == Some(o@) implies mid.rc_at(j) <= u64::MAX - 3 by {
            assert(j == t[2]);
            assert(old(g).rc_at(t[2]) == 0);
            assert(mid.rc_at(t[2]) == occ(t[2], t[0], t[1], t[2]));
        }
    }
    proof {
        assert(mid.term_at(t[0]) == Some(s@) && mid.term_at(t[1]) == Some(p@) && mid.term_at(
            t[2],
        ) == Some(o@) && mid.triples().contains((t[0], t[1], t[2])));
    }
    let r2 = g.insert_indexed(s, p, o);
    proof {
        assert(r2 is None) by {
            assert(mid.term_at(t[0]) == Some(s@) && mid.term_at(t[1]) == Some(p@) && mid.term_at(
                t[2],
            ) == Some(o@) && mid.triples().contains((t[0], t[1], t[2])));
        }
    }
    t
}

/// Law: inserting a tuple over three terms that nothing references, and
/// then removing that same tuple, restores the graph — term table included —
/// to its state before the insertion: no index is leaked.
pub fn insert_then_remove_restores<G: IndexedGraph>(g: &mut G, s: &Term, p: &Term, o: &Term)
    requires
        old(g).inv(),
        old(g).spare() >= 3,
        forall|j: u32| (#[trigger] old(g).term_at(j)) != Some(s@),
        forall|j: u32| (#[trigger] old(g).term_at(j)) != Some(p@),
        forall|j: u32| (#[trigger] old(g).term_at(j)) != Some(o@),
    ensures
        final(g).inv(),
        final(g).triples() == old(g).triples(),
        forall|j: u32| #[trigger] final(g).term_at(j) == old(g).term_at(j),
        forall|j: u32| #[trigger] final(g).rc_at(j) == old(g).rc_at(j),
        final(g).spare() == old(g).spare(),
{
    proof {
        old(g).lemma_inv_facts();
    }
    let r1 = g.insert_indexed(s, p, o);
    let (si, pi, oi) = match r1 {
        Some(t) => (t[0], t[1], t[2]),
        None => {
            proof {
                assert(false);
            }
            (0, 0, 0)
        },
    };
    let ghost mid = *g;
    proof {
        g.lemma_inv_facts();
        assert(mid.term_at(si) == Some(s@) && mid.term_at(pi) == Some(p@) && mid.term_at(oi)
            == Some(o@));
        assert(mid.triples().contains((si, pi, oi)));
        assert(old(g).rc_at(si) == 0 && old(g).rc_at(pi) == 0 && old(g).rc_at(oi) == 0);
    }
    let r2 = g.remove_indexed(s, p, o);
    proof {
        let t2 = match r2 {
            Some(t) => t,
            None => {
                assert(false);
                [0u32, 0u32, 0u32]
            },
        };
        mid.lemma_inv_facts();
        assert(t2[0] == si && t2[1] == pi && t2[2] == oi) by {
            assert(mid.term_at(t2[0]) == Some(s@));
            assert(mid.term_at(t2[1]) == Some(p@));
            assert(mid.term_at(t2[2]) == Some(o@));
        }
        assert(final(g).triples() =~= old(g).triples()) by {
            assert(mid.triples() == old(g).triples().insert((si, pi, oi)));
            assert(final(g).triples() == mid.triples().remove((si, pi, oi)));
            assert(!old(g).triples().contains((si, pi, oi)));
        }
        assert forall|j: u32| #[trigger] final(g).rc_at(j) == old(g).rc_at(j) by {
            assert(mid.rc_at(j) == old(g).rc_at(j) + occ(j, si, pi, oi));
            assert(final(g).rc_at(j) + occ(j, si, pi, oi) == mid.rc_at(j));
        }
        assert forall|j: u32| #[trigger] final(g).term_at(j) == old(g).term_at(j) by {
            assert(final(g).term_at(j) == (if final(g).rc_at(j) > 0 {
                mid.term_at(j)
            } else {
                None
            }));
            if final(g).rc_at(j) > 0 {
                assert(old(g).rc_at(j) > 0);
                assert(j != si && j != pi && j != oi);
            } else {
                assert(old(g).rc_at(j) == 0);
                assert(old(g).term_at(j) is None);
            }
        }
    }
}

} // verus!
