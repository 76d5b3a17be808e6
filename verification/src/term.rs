//! RDF terms: IRIs, blank nodes, literals and variables.
//!
//! A term is an immutable value; equality is decided by its full lexical
//! content. The mathematical value of a term is a [`TermView`].

use vstd::prelude::*;

verus! {

/// The mathematical value of a [`Term`]: its kind and full lexical content.
pub enum TermView {
    Iri { value: Seq<char> },
    BNode { label: Seq<char> },
    Literal { lexical: Seq<char>, datatype: Seq<char> },
    Variable { name: Seq<char> },
}

/// An RDF term: an IRI, a blank node, a literal (with datatype IRI),
/// or a variable.
#[derive(Debug)]
pub enum Term {
    Iri { value: String },
    BNode { label: String },
    Literal { lexical: String, datatype: String },
    Variable { name: String },
}

impl View for Term {
    type V = TermView;

    open spec fn view(&self) -> TermView {
        match self {
            Term::Iri { value } => TermView::Iri { value: value@ },
            Term::BNode { label } => TermView::BNode { label: label@ },
            Term::Literal { lexical, datatype } => TermView::Literal {
                lexical: lexical@,
                datatype: datatype@,
            },
            Term::Variable { name } => TermView::Variable { name: name@ },
        }
    }
}

impl Term {
    /// Build an IRI term from its full text.
    pub fn new_iri(value: &str) -> (r: Term)
        ensures
            r@ == (TermView::Iri { value: value@ }),
    {
        Term::Iri { value: value.to_owned() }
    }

    /// Build an IRI term from a namespace and a suffix; the term's value is
    /// their concatenation.
    pub fn new_iri2(ns: &str, suffix: &str) -> (r: Term)
        ensures
            r@ == (TermView::Iri { value: ns@ + suffix@ }),
    {
        let mut value = ns.to_owned();
        value.append(suffix);
        Term::Iri { value }
    }

    /// Build a blank-node term from its label.
    pub fn new_bnode(label: &str) -> (r: Term)
        ensures
            r@ == (TermView::BNode { label: label@ }),
    {
        Term::BNode { label: label.to_owned() }
    }

    /// Build a literal term from its lexical value and its datatype IRI.
    pub fn new_literal_dt(lexical: &str, datatype: &str) -> (r: Term)
        ensures
            r@ == (TermView::Literal { lexical: lexical@, datatype: datatype@ }),
    {
        Term::Literal { lexical: lexical.to_owned(), datatype: datatype.to_owned() }
    }

    /// Build a variable term from its name.
    pub fn new_variable(name: &str) -> (r: Term)
        ensures
            r@ == (TermView::Variable { name: name@ }),
    {
        Term::Variable { name: name.to_owned() }
    }

    /// The lexical content of this term's view, whatever its kind.
    pub open spec fn value_view(&self) -> Seq<char> {
        match self@ {
            TermView::Iri { value } => value,
            TermView::BNode { label } => label,
            TermView::Literal { lexical, datatype: _ } => lexical,
            TermView::Variable { name } => name,
        }
    }

    /// Whether two terms have the same kind and the same lexical content.
    pub fn same_term(&self, other: &Term) -> (r: bool)
        ensures
            r == (self@ == other@),
    {
        match (self, other) {
            (Term::Iri { value: v1 }, Term::Iri { value: v2 }) => *v1 == *v2,
            (Term::BNode { label: l1 }, Term::BNode { label: l2 }) => *l1 == *l2,
            (
                Term::Literal { lexical: x1, datatype: d1 },
                Term::Literal { lexical: x2, datatype: d2 },
            ) => *x1 == *x2 && *d1 == *d2,
            (Term::Variable { name: n1 }, Term::Variable { name: n2 }) => *n1 == *n2,
            _ => false,
        }
    }

    /// The lexical content of this term: the IRI's text, the blank node's
    /// label, the literal's lexical value, or the variable's name.
    pub fn value(&self) -> (r: String)
        ensures
            r@ == self.value_view(),
    {
        match self {
            Term::Iri { value } => value.clone(),
            Term::BNode { label } => label.clone(),
            Term::Literal { lexical, datatype: _ } => lexical.clone(),
            Term::Variable { name } => name.clone(),
        }
    }
}

impl Clone for Term {
    fn clone(&self) -> (r: Term)
        ensures
            r == *self,
    {
        match self {
            Term::Iri { value } => Term::Iri { value: value.clone() },
            Term::BNode { label } => Term::BNode { label: label.clone() },
            Term::Literal { lexical, datatype } => Term::Literal {
                lexical: lexical.clone(),
                datatype: datatype.clone(),
            },
            Term::Variable { name } => Term::Variable { name: name.clone() },
        }
    }
}

} // verus!
