//! Streaming over triple sequences.

use sophia::streams::{bob, make_graph, make_mapped_graph, map_term, Graph, MutableGraph, Triple};
use std::cell::Cell;

#[test]
fn try_for_each_triple() {
    let g = make_graph();
    let c = Cell::new(0usize);
    g.triples()
        .try_for_each_triple(|t| -> Result<(), std::convert::Infallible> {
            c.set(c.get() + 1);
            assert!(g.contains(t.s(), t.p(), t.o()));
            Ok(())
        })
        .unwrap();
    assert_eq!(c.get(), g.len())
}

#[test]
fn for_some_triple() {
    let g = make_graph();
    let c = Cell::new(0usize);
    let mut triples = g.triples();
    let has_more = triples.for_some_triple(&|t: &Triple| {
        c.set(c.get() + 1);
        assert!(g.contains(t.s(), t.p(), t.o()));
    });
    assert!(c.get() <= g.len());
    assert!(has_more || c.get() == g.len());
}

#[test]
fn for_each_triple() {
    let g = make_graph();
    let c = Cell::new(0usize);
    g.triples().for_each_triple(|t| {
        c.set(c.get() + 1);
        assert!(g.contains(t.s(), t.p(), t.o()));
    });
    assert_eq!(c.get(), g.len())
}

#[test]
fn in_graph() {
    let g = make_graph();
    let mut h: Vec<Triple> = vec![];
    g.triples().in_graph(&mut h);
    assert_eq!(g.len(), h.len());
    for i in 0..g.len() {
        assert!(g[i].s().same_term(h[i].s()));
        assert!(g[i].p().same_term(h[i].p()));
        assert!(g[i].o().same_term(h[i].o()));
    }
}

#[test]
fn filter_triples() {
    let g = make_graph();
    let c = Cell::new(0usize);
    g.triples()
        .filter_triples(|t| t.s().same_term(&bob()))
        .for_each_triple(|t| {
            c.set(c.get() + 1);
            assert!(g.contains(t.s(), t.p(), t.o()));
        });
    assert_eq!(c.get(), 3);
}

#[test]
fn filter_map_triples() {
    let g = make_graph();
    let h = make_mapped_graph();
    let c = Cell::new(0usize);
    g.triples()
        .filter_map_triples(|t| {
            if t.s().same_term(&bob()) {
                Some(Triple::new(map_term(t.s()), map_term(t.p()), map_term(t.o())))
            } else {
                None
            }
        })
        .for_each_triple(|t: &Triple| {
            c.set(c.get() + 1);
            assert!(h.contains(t.s(), t.p(), t.o()));
        });
    assert_eq!(c.get(), 3);
}

#[test]
fn filter_map_triples_iter() {
    let g = make_graph();
    let v = g
        .triples()
        .filter_map_triples(|t| {
            if t.s().same_term(&bob()) {
                Some(t.o().value())
            } else {
                None
            }
        })
        .into_vec();
    assert_eq!(
        &v[..],
        [
            "http://example.org/Person",
            "Bob",
            "http://example.org/alice",
        ]
    );
}

#[test]
fn map_triples() {
    let g = make_graph();
    let h = make_mapped_graph();
    let c = Cell::new(0usize);
    g.triples()
        .map_triples(|t| Triple::new(map_term(t.s()), map_term(t.p()), map_term(t.o())))
        .for_each_triple(|t: &Triple| {
            c.set(c.get() + 1);
            assert!(h.contains(t.s(), t.p(), t.o()));
        });
    assert_eq!(c.get(), h.len());
}

#[test]
fn map_triples_iter() {
    let g = make_graph();
    let v = g.triples().map_triples(|t| t.o().value()).into_vec();
    assert_eq!(
        &v[..],
        [
            "http://example.org/Person",
            "Alice",
            "http://example.org/Person",
            "Bob",
            "http://example.org/alice",
        ]
    );
}

#[test]
fn vec_graph_set_semantics() {
    let mut g: Vec<Triple> = vec![];
    let a = sophia::term::Term::new_iri("http://example.org/a");
    let b = sophia::term::Term::new_iri("http://example.org/b");
    let c = sophia::term::Term::new_iri("http://example.org/c");
    assert!(MutableGraph::insert(&mut g, &a, &b, &c));
    assert!(!MutableGraph::insert(&mut g, &a, &b, &c));
    assert_eq!(g.len(), 1);
    assert!(MutableGraph::remove(&mut g, &a, &b, &c));
    assert!(!MutableGraph::remove(&mut g, &a, &b, &c));
    assert!(g.is_empty());
}

#[test]
fn test_vec() {
    let rdf_type = sophia::term::Term::new_iri2("http://www.w3.org/1999/02/22-rdf-syntax-ns#", "type");
    let rdf_property = sophia::term::Term::new_iri2("http://www.w3.org/1999/02/22-rdf-syntax-ns#", "Property");
    let rdfs_class = sophia::term::Term::new_iri2("http://www.w3.org/2000/01/rdf-schema#", "Class");
    let g = vec![
        Triple::new(rdf_type.clone(), rdf_type.clone(), rdf_property.clone()),
        Triple::new(rdf_property.clone(), rdf_type.clone(), rdfs_class.clone()),
        Triple::new(rdfs_class.clone(), rdf_type.clone(), rdfs_class.clone()),
    ];
    let v = g.triples().map_triples(|t| t.clone()).into_vec();
    assert_eq!(v.len(), 3);
}
