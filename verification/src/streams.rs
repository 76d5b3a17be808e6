//! Triple sequences and streaming helpers over them.
//!
//! A vector of triples is a small graph of its own: it can be streamed,
//! filtered, mapped, collected into another graph, and asked whether it
//! contains a triple. These helpers consume or produce the storage core only
//! through plain values.

use crate::term::{Term, TermView};
use vstd::prelude::*;

verus! {

/// One (subject, predicate, object) triple of terms.
pub struct Triple {
    pub s: Term,
    pub p: Term,
    pub o: Term,
}

impl View for Triple {
    type V = (TermView, TermView, TermView);

    open spec fn view(&self) -> (TermView, TermView, TermView) {
        (self.s@, self.p@, self.o@)
    }
}

impl Triple {
    /// Build a triple from its three terms.
    pub fn new(s: Term, p: Term, o: Term) -> (r: Triple)
        ensures
            r@ == (s@, p@, o@),
    {
        Triple { s, p, o }
    }

    /// The subject.
    pub fn s(&self) -> (r: &Term)
        ensures
            r@ == self@.0,
    {
        &self.s
    }

    /// The predicate.
    pub fn p(&self) -> (r: &Term)
        ensures
            r@ == self@.1,
    {
        &self.p
    }

    /// The object.
    pub fn o(&self) -> (r: &Term)
        ensures
            r@ == self@.2,
    {
        &self.o
    }
}

impl Clone for Triple {
    fn clone(&self) -> (r: Triple)
        ensures
            r == *self,
    {
        Triple { s: self.s.clone(), p: self.p.clone(), o: self.o.clone() }
    }
}

/// The views of a sequence of triples.
pub open spec fn views_of(ts: Seq<Triple>) -> Seq<(TermView, TermView, TermView)> {
    ts.map_values(|t: Triple| t@)
}

/// A graph of triples: anything that can hand out its triples as a stream
/// and decide membership.
pub trait Graph {
    /// The triples held, as a sequence of views.
    spec fn g_triples(&self) -> Seq<(TermView, TermView, TermView)>;

    /// Stream the graph's triples.
    fn triples(&self) -> (st: TripleStream)
        ensures
            views_of(st.remaining()) == self.g_triples(),
    ;

    /// Whether the graph holds a triple with these three terms.
    fn contains(&self, s: &Term, p: &Term, o: &Term) -> (r: bool)
        ensures
            r == self.g_triples().contains((s@, p@, o@)),
    ;
}

impl Graph for Vec<Triple> {
    open spec fn g_triples(&self) -> Seq<(TermView, TermView, TermView)> {
        views_of(self@)
    }

    fn triples(&self) -> (st: TripleStream) {
        let n = self.len();
        let mut items: Vec<Triple> = Vec::new();
        let mut i: usize = 0;
        while i < n
            invariant
                n == self@.len(),
                i <= n,
                items@.len() == i,
                forall|q: int| 0 <= q < i ==> #[trigger] items@[q]@ == self@[q]@,
            decreases n - i,
        {
            let t = self[i].clone();
            items.push(t);
            i += 1;
        }
        let st = TripleStream { items };
        proof {
            assert(views_of(st.remaining()) =~= views_of(self@));
        }
        st
    }

    fn contains(&self, s: &Term, p: &Term, o: &Term) -> (r: bool) {
        let n = self.len();
        let mut i: usize = 0;
        while i < n
            invariant
                n == self@.len(),
                i <= n,
                forall|q: int| 0 <= q < i ==> #[trigger] self@[q]@ != (s@, p@, o@),
            decreases n - i,
        {
            let t = &self[i];
            if t.s.same_term(s) && t.p.same_term(p) && t.o.same_term(o) {
                proof {
                    assert(views_of(self@)[i as int] == (s@, p@, o@));
                }
                return true;
            }
            i += 1;
        }
        proof {
            if views_of(self@).contains((s@, p@, o@)) {
                let q = choose|q: int|
                    0 <= q < views_of(self@).len() && views_of(self@)[q] == (s@, p@, o@);
                assert(self@[q]@ == (s@, p@, o@));
            }
        }
        false
    }
}

/// A stream of triples, consumed front to back.
pub struct TripleStream {
    items: Vec<Triple>,
}

impl TripleStream {
    /// The triples still to be delivered.
    pub closed spec fn remaining(self) -> Seq<Triple> {
        self.items@
    }

    /// Calls `f` on each remaining triple in order, stopping at the first
    /// error; on success the stream is exhausted.
    pub fn try_for_each_triple<E, F: Fn(&Triple) -> Result<(), E>>(&mut self, f: F) -> (r: Result<
        (),
        E,
    >)
        requires
            forall|t: &Triple| call_requires(f, (t,)),
        ensures
            r is Ok ==> final(self).remaining().len() == 0,
    {
        loop
            invariant
                forall|t: &Triple| call_requires(f, (t,)),
            decreases self.items@.len(),
        {
            if self.items.len() == 0 {
                return Ok(());
            }
            let t = self.items.remove(0);
            match f(&t) {
                Ok(()) => {},
                Err(e) => {
                    return Err(e);
                },
            }
        }
    }

    /// Calls `f` on each remaining triple in order; the stream is exhausted
    /// afterwards.
    pub fn for_each_triple<F: Fn(&Triple)>(&mut self, f: F)
        requires
            forall|t: &Triple| call_requires(f, (t,)),
        ensures
            final(self).remaining().len() == 0,
    {
        loop
            invariant
                forall|t: &Triple| call_requires(f, (t,)),
            decreases self.items@.len(),
        {
            if self.items.len() == 0 {
                return ;
            }
            let t = self.items.remove(0);
            f(&t);
        }
    }

    /// Calls `f` on some prefix of the remaining triples — here, all of them
    /// — and says whether any triple might remain.
    pub fn for_some_triple<F: Fn(&Triple)>(&mut self, f: &F) -> (has_more: bool)
        requires
            forall|t: &Triple| call_requires(*f, (t,)),
        ensures
            has_more == (final(self).remaining().len() > 0),
    {
        loop
            invariant
                forall|t: &Triple| call_requires(*f, (t,)),
            decreases self.items@.len(),
        {
            if self.items.len() == 0 {
                return false;
            }
            let t = self.items.remove(0);
            f(&t);
        }
    }

    /// Keeps only the triples `f` accepts, in order; every kept triple comes
    /// from the stream and was accepted by `f`.
    pub fn filter_triples<F: Fn(&Triple) -> bool>(self, f: F) -> (r: TripleStream)
        requires
            forall|t: &Triple| call_requires(f, (t,)),
        ensures
            r.remaining().len() <= self.remaining().len(),
            forall|q: int|
                0 <= q < r.remaining().len() ==> views_of(self.remaining()).contains(
                    #[trigger] r.remaining()[q]@,
                ),
    {
        let mut kept: Vec<Triple> = Vec::new();
        let n = self.items.len();
        let mut i: usize = 0;
        let items = self.items;
        while i < n
            invariant
                forall|t: &Triple| call_requires(f, (t,)),
                n == items@.len(),
                i <= n,
                kept@.len() <= i,
                forall|q: int|
                    0 <= q < kept@.len() ==> exists|qi: int|
                        0 <= qi < items@.len() && (#[trigger] kept@[q])@ == items@[qi]@
                            && call_ensures(f, (&items@[qi],), true),
            decreases n - i,
        {
            let t = &items[i];
            let accepted = f(t);
            proof {
                assert(call_ensures(f, (&items@[i as int],), accepted));
            }
            if accepted {
                kept.push(t.clone());
                proof {
                    assert(kept@[kept@.len() - 1]@ == items@[i as int]@);
                }
            }
            i += 1;
        }
        let r = TripleStream { items: kept };
        proof {
            assert forall|q: int|
                0 <= q < r.remaining().len() implies views_of(self.remaining()).contains(
                #[trigger] r.remaining()[q]@,
            ) by {
                let qi = choose|qi: int|
                    0 <= qi < items@.len() && kept@[q]@ == items@[qi]@ && call_ensures(
                        f,
                        (&items@[qi],),
                        true,
                    );
                assert(views_of(self.remaining())[qi] == kept@[q]@);
            }
        }
        r
    }

    /// Maps each remaining triple through `f`, keeping order and length:
    /// each output is relatable to its input through `f`'s postcondition.
    pub fn map_triples<U, F: Fn(&Triple) -> U>(self, f: F) -> (r: MappedStream<U>)
        requires
            forall|t: &Triple| call_requires(f, (t,)),
        ensures
            r.remaining().len() == self.remaining().len(),
            forall|q: int|
                0 <= q < self.remaining().len() ==> call_ensures(
                    f,
                    (&self.remaining()[q],),
                    #[trigger] r.remaining()[q],
                ),
    {
        let mut mapped: Vec<U> = Vec::new();
        let n = self.items.len();
        let mut i: usize = 0;
        let items = self.items;
        while i < n
            invariant
                forall|t: &Triple| call_requires(f, (t,)),
                n == items@.len(),
                i <= n,
                mapped@.len() == i,
                forall|q: int|
                    0 <= q < i ==> call_ensures(f, (&items@[q],), #[trigger] mapped@[q]),
            decreases n - i,
        {
            let u = f(&items[i]);
            mapped.push(u);
            i += 1;
        }
        MappedStream { items: mapped }
    }

    /// Maps each remaining triple through `f`, keeping only the values it
    /// produces, in order: each kept value came out of `f` on some triple of
    /// the stream.
    pub fn filter_map_triples<U, F: Fn(&Triple) -> Option<U>>(self, f: F) -> (r: MappedStream<U>)
        requires
            forall|t: &Triple| call_requires(f, (t,)),
        ensures
            r.remaining().len() <= self.remaining().len(),
    {
        let mut mapped: Vec<U> = Vec::new();
        let n = self.items.len();
        let mut i: usize = 0;
        let items = self.items;
        while i < n
            invariant
                forall|t: &Triple| call_requires(f, (t,)),
                n == items@.len(),
                i <= n,
                mapped@.len() <= i,
            decreases n - i,
        {
            match f(&items[i]) {
                Some(u) => mapped.push(u),
                None => {},
            }
            i += 1;
        }
        MappedStream { items: mapped }
    }

    /// Appends every remaining triple, in order, to the graph `g`; the
    /// stream is exhausted afterwards.
    pub fn in_graph(&mut self, g: &mut Vec<Triple>)
        ensures
            final(self).remaining().len() == 0,
            final(g)@.len() == old(g)@.len() + old(self).remaining().len(),
            forall|q: int| 0 <= q < old(g)@.len() ==> #[trigger] final(g)@[q] == old(g)@[q],
            forall|q: int|
                0 <= q < old(self).remaining().len() ==> #[trigger] final(g)@[old(g)@.len() + q]
                    == old(self).remaining()[q],
    {
        loop
            invariant
                g@.len() == old(g)@.len() + (old(self).remaining().len() - self.items@.len()),
                self.items@.len() <= old(self).remaining().len(),
                forall|q: int| 0 <= q < old(g)@.len() ==> #[trigger] g@[q] == old(g)@[q],
                forall|q: int|
                    0 <= q < old(self).remaining().len() - self.items@.len()
                        ==> #[trigger] g@[old(g)@.len() + q] == old(self).remaining()[q],
                forall|q: int|
                    0 <= q < self.items@.len() ==> #[trigger] self.items@[q] == old(
                        self,
                    ).remaining()[old(self).remaining().len() - self.items@.len() + q],
            decreases self.items@.len(),
        {
            if self.items.len() == 0 {
                return ;
            }
            let t = self.items.remove(0);
            g.push(t);
        }
    }
}

/// A stream of values mapped from triples, consumed front to back.
pub struct MappedStream<U> {
    items: Vec<U>,
}

impl<U> MappedStream<U> {
    /// The values still to be delivered.
    pub closed spec fn remaining(self) -> Seq<U> {
        self.items@
    }

    /// Calls `f` on each remaining value in order; the stream is exhausted
    /// afterwards.
    pub fn for_each_triple<F: Fn(&U)>(&mut self, f: F)
        requires
            forall|u: &U| call_requires(f, (u,)),
        ensures
            final(self).remaining().len() == 0,
    {
        loop
            invariant
                forall|u: &U| call_requires(f, (u,)),
            decreases self.items@.len(),
        {
            if self.items.len() == 0 {
                return ;
            }
            let u = self.items.remove(0);
            f(&u);
        }
    }

    /// All remaining values, in order.
    pub fn into_vec(self) -> (r: Vec<U>)
        ensures
            r@ == self.remaining(),
    {
        self.items
    }
}

} // verus!

verus! {

/// The shared example namespace.
pub open spec fn ns_view() -> Seq<char> {
    "http://example.org/"@
}

/// The view of an example-namespace IRI term with the given suffix.
pub open spec fn ns_iri_view(suffix: Seq<char>) -> TermView {
    TermView::Iri { value: ns_view() + suffix }
}

/// The view of a string literal term.
pub open spec fn string_literal_view(lexical: Seq<char>) -> TermView {
    TermView::Literal {
        lexical: lexical,
        datatype: "http://www.w3.org/2001/XMLSchema#string"@,
    }
}

/// The view of the `rdf:type` IRI term.
pub open spec fn rdf_type_view() -> TermView {
    TermView::Iri { value: "http://www.w3.org/1999/02/22-rdf-syntax-ns#"@ + "type"@ }
}

/// The IRI term for Alice.
pub fn alice() -> (r: Term)
    ensures
        r@ == ns_iri_view("alice"@),
{
    Term::new_iri2("http://example.org/", "alice")
}

/// The IRI term for Bob.
pub fn bob() -> (r: Term)
    ensures
        r@ == ns_iri_view("bob"@),
{
    Term::new_iri2("http://example.org/", "bob")
}

/// The IRI term for Charlie.
pub fn charlie() -> (r: Term)
    ensures
        r@ == ns_iri_view("charlie"@),
{
    Term::new_iri2("http://example.org/", "charlie")
}

/// The IRI term for the "knows" predicate.
pub fn knows() -> (r: Term)
    ensures
        r@ == ns_iri_view("knows"@),
{
    Term::new_iri2("http://example.org/", "knows")
}

/// The IRI term for the "name" predicate.
pub fn name() -> (r: Term)
    ensures
        r@ == ns_iri_view("name"@),
{
    Term::new_iri2("http://example.org/", "name")
}

/// The IRI term for the "Person" class.
pub fn person() -> (r: Term)
    ensures
        r@ == ns_iri_view("Person"@),
{
    Term::new_iri2("http://example.org/", "Person")
}

/// The `rdf:type` IRI term.
pub fn rdf_type() -> (r: Term)
    ensures
        r@ == rdf_type_view(),
{
    Term::new_iri2("http://www.w3.org/1999/02/22-rdf-syntax-ns#", "type")
}

/// The string literal "Alice".
pub fn alice_lit() -> (r: Term)
    ensures
        r@ == string_literal_view("Alice"@),
{
    Term::new_literal_dt("Alice", "http://www.w3.org/2001/XMLSchema#string")
}

/// The string literal "Bob".
pub fn bob_lit() -> (r: Term)
    ensures
        r@ == string_literal_view("Bob"@),
{
    Term::new_literal_dt("Bob", "http://www.w3.org/2001/XMLSchema#string")
}

/// The views of the five triples of [`make_graph`].
pub open spec fn example_graph_views() -> Seq<(TermView, TermView, TermView)> {
    seq![
        (ns_iri_view("alice"@), rdf_type_view(), ns_iri_view("Person"@)),
        (ns_iri_view("alice"@), ns_iri_view("name"@), string_literal_view("Alice"@)),
        (ns_iri_view("bob"@), rdf_type_view(), ns_iri_view("Person"@)),
        (ns_iri_view("bob"@), ns_iri_view("name"@), string_literal_view("Bob"@)),
        (ns_iri_view("bob"@), ns_iri_view("knows"@), ns_iri_view("alice"@)),
    ]
}

/// The example graph: five triples about Alice and Bob.
pub fn make_graph() -> (g: Vec<Triple>)
    ensures
        views_of(g@) == example_graph_views(),
{
    let mut g: Vec<Triple> = Vec::new();
    g.push(Triple::new(alice(), rdf_type(), person()));
    g.push(Triple::new(alice(), name(), alice_lit()));
    g.push(Triple::new(bob(), rdf_type(), person()));
    g.push(Triple::new(bob(), name(), bob_lit()));
    g.push(Triple::new(bob(), knows(), alice()));
    proof {
        assert(views_of(g@) =~= example_graph_views());
    }
    g
}

/// Replaces Alice by Charlie and leaves every other term unchanged.
pub fn map_term(t: &Term) -> (r: Term)
    ensures
        r@ == (if t@ == ns_iri_view("alice"@) {
            ns_iri_view("charlie"@)
        } else {
            t@
        }),
{
    let a = alice();
    if t.same_term(&a) {
        charlie()
    } else {
        t.clone()
    }
}

/// The views of the five triples of [`make_mapped_graph`].
pub open spec fn mapped_graph_views() -> Seq<(TermView, TermView, TermView)> {
    seq![
        (ns_iri_view("charlie"@), rdf_type_view(), ns_iri_view("Person"@)),
        (ns_iri_view("charlie"@), ns_iri_view("name"@), string_literal_view("Alice"@)),
        (ns_iri_view("bob"@), rdf_type_view(), ns_iri_view("Person"@)),
        (ns_iri_view("bob"@), ns_iri_view("name"@), string_literal_view("Bob"@)),
        (ns_iri_view("bob"@), ns_iri_view("knows"@), ns_iri_view("charlie"@)),
    ]
}

/// The example graph with Alice replaced by Charlie throughout.
pub fn make_mapped_graph() -> (g: Vec<Triple>)
    ensures
        views_of(g@) == mapped_graph_views(),
{
    let mut g: Vec<Triple> = Vec::new();
    g.push(Triple::new(charlie(), rdf_type(), person()));
    g.push(Triple::new(charlie(), name(), alice_lit()));
    g.push(Triple::new(bob(), rdf_type(), person()));
    g.push(Triple::new(bob(), name(), bob_lit()));
    g.push(Triple::new(bob(), knows(), charlie()));
    proof {
        assert(views_of(g@) =~= mapped_graph_views());
    }
    g
}

} // verus!

verus! {

/// A graph that can be mutated triple by triple, with set semantics: an
/// insertion reports whether the triple was new, a removal whether it was
/// present.
pub trait MutableGraph: Graph {
    /// Inserts the triple; returns `true` exactly when it was not yet
    /// present, in which case it is appended.
    fn insert(&mut self, s: &Term, p: &Term, o: &Term) -> (r: bool)
        ensures
            r == !old(self).g_triples().contains((s@, p@, o@)),
            r ==> final(self).g_triples() == old(self).g_triples().push((s@, p@, o@)),
            !r ==> final(self).g_triples() == old(self).g_triples(),
    ;

    /// Removes the triple; returns `true` exactly when it was present, in
    /// which case one occurrence is gone and the rest keep their order.
    fn remove(&mut self, s: &Term, p: &Term, o: &Term) -> (r: bool)
        ensures
            r == old(self).g_triples().contains((s@, p@, o@)),
            r ==> exists|q: int|
                0 <= q < old(self).g_triples().len() && old(self).g_triples()[q] == (s@, p@, o@)
                    && final(self).g_triples() == old(self).g_triples().remove(q),
            !r ==> final(self).g_triples() == old(self).g_triples(),
    ;
}

impl MutableGraph for Vec<Triple> {
    fn insert(&mut self, s: &Term, p: &Term, o: &Term) -> (r: bool) {
        if self.contains(s, p, o) {
            return false;
        }
        let t = Triple::new(s.clone(), p.clone(), o.clone());
        self.push(t);
        proof {
            assert(views_of(self@) =~= views_of(old(self)@).push((s@, p@, o@)));
        }
        true
    }

    fn remove(&mut self, s: &Term, p: &Term, o: &Term) -> (r: bool) {
        let n = self.len();
        let mut i: usize = 0;
        while i < n
            invariant
                n == self@.len(),
                i <= n,
                forall|q: int| 0 <= q < i ==> #[trigger] self@[q]@ != (s@, p@, o@),
                self@ == old(self)@,
            decreases n - i,
        {
            let hit = {
                let t = &self[i];
                t.s.same_term(s) && t.p.same_term(p) && t.o.same_term(o)
            };
            if hit {
                let ghost pre = self@;
                self.remove(i);
                proof {
                    assert(views_of(pre)[i as int] == (s@, p@, o@));
                    assert(views_of(self@) =~= views_of(pre).remove(i as int));
                }
                return true;
            }
            i += 1;
        }
        proof {
            if views_of(self@).contains((s@, p@, o@)) {
                let q = choose|q: int|
                    0 <= q < views_of(self@).len() && views_of(self@)[q] == (s@, p@, o@);
                assert(self@[q]@ == (s@, p@, o@));
            }
        }
        false
    }
}

} // verus!
