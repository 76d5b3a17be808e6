//! IRI marker traits and cheap conversions.
//!
//! A type implementing [`IsIriRef`] guarantees that its underlying text is a
//! valid IRI reference (absolute or relative, with an optional fragment);
//! [`IsIri`] strengthens that to an absolute IRI. The conversion traits wrap
//! the text without copying anything but the characters themselves.

use vstd::prelude::*;

verus! {

/// A borrowed-or-owned IRI reference: text guaranteed valid by whoever
/// built it.
pub struct IriRef {
    text: String,
}

impl View for IriRef {
    type V = Seq<char>;

    closed spec fn view(&self) -> Seq<char> {
        self.text@
    }
}

impl IriRef {
    /// Wrap text as an IRI reference without checking it; the caller
    /// guarantees validity.
    pub fn new_unchecked(text: &str) -> (r: IriRef)
        ensures
            r@ == text@,
    {
        IriRef { text: text.to_owned() }
    }

    /// The underlying text.
    pub fn as_str(&self) -> (r: &str)
        ensures
            r@ == self@,
    {
        self.text.as_str()
    }
}

/// An absolute IRI: text guaranteed valid by whoever built it.
pub struct Iri {
    text: String,
}

impl View for Iri {
    type V = Seq<char>;

    closed spec fn view(&self) -> Seq<char> {
        self.text@
    }
}

impl Iri {
    /// Wrap text as an absolute IRI without checking it; the caller
    /// guarantees validity.
    pub fn new_unchecked(text: &str) -> (r: Iri)
        ensures
            r@ == text@,
    {
        Iri { text: text.to_owned() }
    }

    /// The underlying text.
    pub fn as_str(&self) -> (r: &str)
        ensures
            r@ == self@,
    {
        self.text.as_str()
    }
}

/// Marker trait guaranteeing that the underlying text is a valid IRI
/// reference (absolute or relative, with an optional fragment identifier).
pub trait IsIriRef {
    /// The text of the IRI reference.
    spec fn iri_view(&self) -> Seq<char>;

    /// Borrow the text of the IRI reference.
    fn iri_str(&self) -> (r: &str)
        ensures
            r@ == self.iri_view(),
    ;
}

/// Marker trait guaranteeing that the underlying text is a valid absolute
/// IRI (with an optional fragment identifier).
pub trait IsIri: IsIriRef {

}

impl IsIriRef for IriRef {
    open spec fn iri_view(&self) -> Seq<char> {
        self@
    }

    fn iri_str(&self) -> (r: &str) {
        self.as_str()
    }
}

impl IsIriRef for Iri {
    open spec fn iri_view(&self) -> Seq<char> {
        self@
    }

    fn iri_str(&self) -> (r: &str) {
        self.as_str()
    }
}

impl IsIri for Iri {

}

/// Automatic trait for [`IsIriRef`], providing cheap conversion to
/// [`IriRef`].
pub trait AsIriRef {
    /// The text that the conversion wraps.
    spec fn as_iri_ref_view(&self) -> Seq<char>;

    /// Extract an [`IriRef`] wrapping the underlying text.
    fn as_iri_ref(&self) -> (r: IriRef)
        ensures
            r@ == self.as_iri_ref_view(),
    ;
}

impl<T: IsIriRef> AsIriRef for T {
    open spec fn as_iri_ref_view(&self) -> Seq<char> {
        self.iri_view()
    }

    fn as_iri_ref(&self) -> (r: IriRef) {
        IriRef::new_unchecked(self.iri_str())
    }
}

/// Automatic trait for [`IsIri`], providing cheap conversion to [`Iri`].
pub trait AsIri {
    /// The text that the conversion wraps.
    spec fn as_iri_view(&self) -> Seq<char>;

    /// Extract an [`Iri`] wrapping the underlying text.
    fn as_iri(&self) -> (r: Iri)
        ensures
            r@ == self.as_iri_view(),
    ;
}

impl<T: IsIri> AsIri for T {
    open spec fn as_iri_view(&self) -> Seq<char> {
        self.iri_view()
    }

    fn as_iri(&self) -> (r: Iri) {
        Iri::new_unchecked(self.iri_str())
    }
}

} // verus!
