//! Security identifiers held as their binary form.
use vstd::prelude::*;

verus! {

/// A security identifier, held as a copy of its binary form.
#[derive(Clone, Debug, PartialEq, Eq)]
pub struct Sid {
    bytes: Vec<u8>,
}

impl View for Sid {
    type V = Seq<u8>;

    closed spec fn view(&self) -> Seq<u8> {
        self.bytes@
    }
}

/// Whether two byte sequences are equal.
pub(crate) fn bytes_equal(a: &[u8], b: &[u8]) -> (r: bool)
    ensures
        r == (a@ == b@),
{
    if a.len() != b.len() {
        return false;
    }
    let mut i: usize = 0;
    while i < a.len()
        invariant
            a@.len() == b@.len(),
            i <= a@.len(),
            forall|j: int| 0 <= j < i ==> a@[j] == b@[j],
        decreases a@.len() - i,
    {
        if a[i] != b[i] {
            return false;
        }
        i = i + 1;
    }
    assert(a@ =~= b@);
    true
}

impl Sid {
    /// A security identifier with the binary form `bytes`, as copied from a
    /// valid native SID.
    pub fn from_bytes(bytes: Vec<u8>) -> (r: Sid)
        ensures
            r@ == bytes@,
    {
        Sid { bytes }
    }

    /// The binary form.
    pub fn as_bytes(&self) -> (r: &[u8])
        ensures
            r@ == self@,
    {
        self.bytes.as_slice()
    }

    /// Whether two identifiers have the same binary form.
    pub fn same_as(&self, other: &Sid) -> (r: bool)
        ensures
            r == (self@ == other@),
    {
        bytes_equal(self.bytes.as_slice(), other.bytes.as_slice())
    }
}

} // verus!
