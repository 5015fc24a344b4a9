//! Account identities: opaque principals compared by their bytes.

use vstd::prelude::*;

verus! {

/// An opaque principal, held as the bytes that identify it.
#[derive(Clone, Debug, PartialEq, Eq, Hash)]
pub struct Identity {
    pub bytes: Vec<u8>,
}

impl View for Identity {
    type V = Seq<u8>;

    open spec fn view(&self) -> Seq<u8> {
        self.bytes@
    }
}

impl Identity {
    /// Builds an identity from the principal's bytes.
    pub fn from_bytes(bytes: Vec<u8>) -> (r: Identity)
        ensures
            r@ == bytes@,
    {
        Identity { bytes }
    }

    /// The principal's bytes.
    pub fn as_bytes(&self) -> (r: &[u8])
        ensures
            r@ == self@,
    {
        self.bytes.as_slice()
    }

    /// Whether two identities are the same principal: exact byte equality.
    pub fn same_as(&self, other: &Identity) -> (r: bool)
        ensures
            r == (self@ == other@),
    {
        let n = self.bytes.len();
        if n != other.bytes.len() {
            return false;
        }
        let mut i: usize = 0;
        while i < n
            invariant
                n == self@.len(),
                n == other@.len(),
                i <= n,
                forall|k: int| 0 <= k < i ==> self@[k] == other@[k],
            decreases n - i,
        {
            if self.bytes[i] != other.bytes[i] {
                return false;
            }
            i = i + 1;
        }
        assert(self@ =~= other@);
        true
    }

    /// A copy of this identity with the same bytes.
    pub fn duplicate(&self) -> (r: Identity)
        ensures
            r@ == self@,
    {
        let mut bytes: Vec<u8> = Vec::new();
        let mut i: usize = 0;
        while i < self.bytes.len()
            invariant
                i <= self@.len(),
                bytes@ == self@.subrange(0, i as int),
            decreases self@.len() - i,
        {
            bytes.push(self.bytes[i]);
            i = i + 1;
        }
        assert(bytes@ =~= self@);
        Identity { bytes }
    }
}

} // verus!
