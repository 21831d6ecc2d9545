//! Encoded documents.

use vstd::prelude::*;

verus! {

/// An encoded document.
#[derive(Debug, Clone, PartialEq, Eq)]
pub struct OwnedJsonb {
    pub data: Vec<u8>,
}

impl View for OwnedJsonb {
    type V = Seq<u8>;

    open spec fn view(&self) -> Seq<u8> {
        self.data@
    }
}

impl OwnedJsonb {
    /// The document with the given bytes.
    pub fn new(data: Vec<u8>) -> (doc: OwnedJsonb)
        ensures
            doc@ == data@,
    {
        OwnedJsonb { data }
    }

    /// The bytes of the document.
    pub fn as_ref(&self) -> (bytes: &[u8])
        ensures
            bytes@ == self@,
    {
        self.data.as_slice()
    }
}

} // verus!
