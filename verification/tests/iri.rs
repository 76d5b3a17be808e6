//! IRI marker traits and conversions.

use sophia::iri::{AsIri, AsIriRef, Iri, IriRef};

#[test]
fn iri_ref_wraps_text() {
    let r = IriRef::new_unchecked("http://example.org/#frag");
    assert_eq!(r.as_str(), "http://example.org/#frag");
    let again = r.as_iri_ref();
    assert_eq!(again.as_str(), "http://example.org/#frag");
}

#[test]
fn iri_converts_both_ways() {
    let i = Iri::new_unchecked("http://example.org/");
    assert_eq!(i.as_str(), "http://example.org/");
    assert_eq!(i.as_iri().as_str(), "http://example.org/");
    assert_eq!(i.as_iri_ref().as_str(), "http://example.org/");
}
