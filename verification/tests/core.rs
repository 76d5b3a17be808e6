//! The indexed storage core: term table, primary store, wrappers.

use sophia::graph::{insert_then_remove_restores, insert_twice_inserts_once, FastGraph, LightGraph};
use sophia::index_map::{assert_term_index_map_works, TermIndexMap, TermTable};
use sophia::postings::{insert_in_index, remove_from_index, PostingsMap};
use sophia::store::IndexedGraph;
use sophia::term::Term;

fn iri(text: &str) -> Term {
    Term::new_iri(text)
}

#[test]
fn term_index_map_protocol() {
    let mut table = TermTable::new();
    assert_term_index_map_works(&mut table);
}

#[test]
fn lookup_after_intern() {
    let mut table = TermTable::new();
    let t = iri("http://example.org/a");
    assert!(table.get_index(&t).is_none());
    let i = table.make_index(&t);
    assert_eq!(table.get_index(&t), Some(i));
    assert!(table.get_term(i).unwrap().same_term(&t));
}

#[test]
fn intern_idempotent_and_release() {
    let mut table = TermTable::new();
    let t = iri("http://example.org/a");
    let i1 = table.make_index(&t);
    let i2 = table.make_index(&t);
    assert_eq!(i1, i2);
    table.dec_ref(i1);
    assert_eq!(table.get_index(&t), Some(i1));
    table.dec_ref(i1);
    assert!(table.get_index(&t).is_none());
    assert!(table.get_term(i1).is_none());
}

#[test]
fn insert_twice_returns_none() {
    let mut g = LightGraph::with_capacity(4);
    let a = iri("http://example.org/a");
    let b = iri("http://example.org/b");
    let c = iri("http://example.org/c");
    let first = g.insert_indexed(&a, &b, &c);
    assert!(first.is_some());
    let [ia, ib, ic] = first.unwrap();
    let second = g.insert_indexed(&a, &b, &c);
    assert!(second.is_none());
    // exactly one occurrence of the tuple
    let all = g.triples_all();
    assert_eq!(all, vec![(ia, ib, ic)]);
    // the no-op insertion left the term table unchanged: one matching
    // removal still erases every term
    assert_eq!(g.remove_indexed(&a, &b, &c), Some([ia, ib, ic]));
    assert!(g.get_index(&a).is_none());
    assert!(g.get_index(&b).is_none());
    assert!(g.get_index(&c).is_none());
}

#[test]
fn remove_absent_changes_nothing() {
    let mut g = LightGraph::with_capacity(4);
    let a = iri("http://example.org/a");
    let b = iri("http://example.org/b");
    let c = iri("http://example.org/c");
    let d = iri("http://example.org/d");
    g.insert_indexed(&a, &b, &c);
    let ia = g.get_index(&a);
    assert_eq!(g.remove_indexed(&a, &b, &d), None);
    assert_eq!(g.remove_indexed(&d, &b, &c), None);
    assert_eq!(g.get_index(&a), ia);
    assert!(g.get_index(&d).is_none());
    assert_eq!(g.triples_all().len(), 1);
}

#[test]
fn insert_twice_via_law() {
    let mut g = LightGraph::with_capacity(2);
    let a = iri("http://example.org/a");
    let b = iri("http://example.org/b");
    let c = iri("http://example.org/c");
    let t = insert_twice_inserts_once(&mut g, &a, &b, &c);
    assert_eq!(g.triples_all(), vec![(t[0], t[1], t[2])]);
}

#[test]
fn insert_then_remove_leaks_nothing() {
    let mut g = FastGraph::with_capacity(4);
    let a = iri("http://example.org/a");
    let b = iri("http://example.org/b");
    let c = iri("http://example.org/c");
    insert_then_remove_restores(&mut g, &a, &b, &c);
    assert!(g.get_index(&a).is_none());
    assert!(g.get_index(&b).is_none());
    assert!(g.get_index(&c).is_none());
    assert!(g.triples_all().is_empty());
}

#[test]
fn intern_insert_remove_scenario() {
    let mut g = FastGraph::with_capacity(4);
    let a = iri("http://example.org/A");
    let b = iri("http://example.org/B");
    let c = iri("http://example.org/C");
    let inserted = g.insert_indexed(&a, &b, &c);
    assert!(inserted.is_some());
    let [ia, ib, ic] = inserted.unwrap();
    assert_eq!(g.insert_indexed(&a, &b, &c), None);
    assert_eq!(g.remove_indexed(&a, &b, &c), Some([ia, ib, ic]));
    assert!(g.get_index(&a).is_none());
    assert!(g.get_index(&b).is_none());
    assert!(g.get_index(&c).is_none());
}

fn sort_triples(mut v: Vec<(u32, u32, u32)>) -> Vec<(u32, u32, u32)> {
    v.sort();
    v
}

#[test]
fn wrapped_queries_agree_with_scans() {
    let mut g = FastGraph::with_capacity(16);
    let terms: Vec<Term> = (0..6).map(|i| iri(&format!("http://example.org/t{}", i))).collect();
    let mut tuples = Vec::new();
    for s in 0..3 {
        for o in 3..6 {
            tuples.push((s, 4usize, o));
        }
    }
    for &(s, p, o) in &tuples {
        assert!(g.insert_indexed(&terms[s], &terms[p], &terms[o]).is_some());
    }
    let all = g.triples_all();
    assert_eq!(all.len(), tuples.len());
    for &(_, _, o) in &tuples {
        let io = g.get_index(&terms[o]).unwrap();
        // the accelerated object query equals the linear scan with a filter
        let fast: Vec<(u32, u32, u32)> = g.triples_with_o(io);
        let scan: Vec<(u32, u32, u32)> =
            all.iter().copied().filter(|t| t.2 == io).collect();
        assert_eq!(sort_triples(fast), sort_triples(scan));
        let ip = g.get_index(&terms[4]).unwrap();
        let fast_po: Vec<(u32, u32, u32)> = g.triples_with_po(ip, io);
        let scan_po: Vec<(u32, u32, u32)> =
            all.iter().copied().filter(|t| t.1 == ip && t.2 == io).collect();
        assert_eq!(sort_triples(fast_po), sort_triples(scan_po));
    }
    for &(s, _, _) in &tuples {
        let is = g.get_index(&terms[s]).unwrap();
        let ip = g.get_index(&terms[4]).unwrap();
        let fast_sp: Vec<(u32, u32, u32)> = g.triples_with_sp(is, ip);
        let scan_sp: Vec<(u32, u32, u32)> =
            all.iter().copied().filter(|t| t.0 == is && t.1 == ip).collect();
        assert_eq!(sort_triples(fast_sp), sort_triples(scan_sp));
    }
}

#[test]
fn thousand_tuples_round_trip() {
    let mut g = FastGraph::with_capacity(1000);
    let n = 1000usize;
    // a fixed linear-congruential scramble stands in for randomness
    let scramble = |i: usize| -> usize { (i * 389 + 17) % n };
    let term_of = |k: usize| iri(&format!("http://example.org/n{}", k));
    for i in 0..n {
        let k = scramble(i);
        let s = term_of(3 * k);
        let p = term_of(3 * k + 1);
        let o = term_of(3 * k + 2);
        assert!(g.insert_indexed(&s, &p, &o).is_some());
    }
    for i in 0..n {
        let k = (i * 7 + 3) % n;
        let s = term_of(3 * k);
        let p = term_of(3 * k + 1);
        let o = term_of(3 * k + 2);
        assert!(g.remove_indexed(&s, &p, &o).is_some());
    }
    // indistinguishable from a freshly constructed empty graph
    assert!(g.triples_all().is_empty());
    for k in 0..30 {
        assert!(g.get_index(&term_of(k)).is_none());
    }
}

#[test]
fn object_key_evicted_with_last_tuple() {
    let mut g = FastGraph::with_capacity(8);
    let subjects: Vec<Term> = (0..5).map(|i| iri(&format!("http://example.org/s{}", i))).collect();
    let p = iri("http://example.org/p");
    let o1 = iri("http://example.org/o1");
    let o2 = iri("http://example.org/o2");
    for s in &subjects[0..4] {
        assert!(g.insert_indexed(s, &p, &o1).is_some());
    }
    assert!(g.insert_indexed(&subjects[4], &p, &o2).is_some());
    let io2 = g.get_index(&o2).unwrap();
    assert_eq!(g.triples_with_o(io2).len(), 1);
    // remove the sole occupant of o2's postings list
    assert!(g.remove_indexed(&subjects[4], &p, &o2).is_some());
    // the accelerated query for that object is now empty
    assert!(g.triples_with_o(io2).is_empty());
    // o1 is untouched
    let io1 = g.get_index(&o1).unwrap();
    assert_eq!(g.triples_with_o(io1).len(), 4);
}

#[test]
fn postings_signal_creation_and_eviction() {
    let mut m: PostingsMap<u32, u32> = PostingsMap::new();
    assert!(insert_in_index(&mut m, 7, 1));
    assert!(!insert_in_index(&mut m, 7, 2));
    assert!(!remove_from_index(&mut m, 7, 1));
    assert!(m.get(7).is_some());
    assert!(remove_from_index(&mut m, 7, 2));
    assert!(m.get(7).is_none());
}

#[test]
fn shrink_changes_nothing_observable() {
    let mut g = LightGraph::with_capacity(0);
    let a = iri("http://example.org/a");
    let b = iri("http://example.org/b");
    let c = iri("http://example.org/c");
    g.insert_indexed(&a, &b, &c);
    g.remove_indexed(&a, &b, &c);
    g.insert_indexed(&a, &b, &c);
    g.shrink_to_fit();
    assert_eq!(g.triples_all().len(), 1);
    assert!(g.get_index(&a).is_some());
    let t = [
        g.get_index(&a).unwrap(),
        g.get_index(&b).unwrap(),
        g.get_index(&c).unwrap(),
    ];
    assert!(g.contains_triple(t));
}

#[test]
fn term_values() {
    let t = Term::new_iri2("http://example.org/", "alice");
    assert_eq!(t.value(), "http://example.org/alice");
    let l = Term::new_literal_dt("Alice", "http://www.w3.org/2001/XMLSchema#string");
    assert_eq!(l.value(), "Alice");
    assert!(!t.same_term(&l));
    assert!(t.same_term(&Term::new_iri("http://example.org/alice")));
    let b = Term::new_bnode("b0");
    let v = Term::new_variable("x");
    assert!(!b.same_term(&v));
    assert_eq!(b.value(), "b0");
    assert_eq!(v.value(), "x");
}
