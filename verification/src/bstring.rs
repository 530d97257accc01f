//! Owned, heap-free file names handed out by the directory listing.
//!
//! The backing store is `heapless::String`, a fixed-capacity string from the
//! `heapless` crate.  Verus cannot look inside that type, so it is held in an
//! opaque wrapper whose byte content is named by [`bounded_name_bytes`]; the
//! trusted methods below state how the `heapless` calls relate to that name.

use vstd::prelude::*;

verus! {

use vstd::string::StringSliceAdditionalSpecFns;
use crate::model::FILENAME_LEN;

/// The bytes held by a bounded name string.
pub uninterp spec fn bounded_name_bytes(s: BoundedName) -> Seq<u8>;

/// An owned file name of at most [`FILENAME_LEN`] bytes, stored without heap
/// allocation.
#[verifier::external_body]
pub struct BoundedName {
    inner: heapless::String<FILENAME_LEN>,
}

impl BoundedName {
    /// Relies on `heapless::String::new`: a fresh string holds no bytes.
    #[verifier::external_body]
    pub fn empty() -> (r: BoundedName)
        ensures
            bounded_name_bytes(r) == Seq::<u8>::empty(),
    {
        BoundedName { inner: heapless::String::new() }
    }

    /// Relies on `heapless::String::push_str`: pushing onto a fresh string of
    /// sufficient capacity stores exactly the pushed bytes.
    #[verifier::external_body]
    pub fn from_name(s: &str) -> (r: BoundedName)
        requires
            s.spec_bytes().len() <= FILENAME_LEN,
        ensures
            bounded_name_bytes(r) == s.spec_bytes(),
    {
        let mut inner: heapless::String<FILENAME_LEN> = heapless::String::new();
        let _ = inner.push_str(s);
        BoundedName { inner }
    }

    /// Relies on `heapless::String::clone`: the copy holds the same bytes.
    #[verifier::external_body]
    pub fn clone_name(&self) -> (r: BoundedName)
        ensures
            bounded_name_bytes(r) == bounded_name_bytes(*self),
    {
        BoundedName { inner: self.inner.clone() }
    }

    /// Relies on `heapless::String::as_str`: it exposes exactly the stored
    /// bytes.
    #[verifier::external_body]
    pub fn as_str(&self) -> (r: &str)
        ensures
            r.spec_bytes() == bounded_name_bytes(*self),
    {
        self.inner.as_str()
    }
}

} // verus!
