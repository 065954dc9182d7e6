//! Peer identifiers.
use vstd::prelude::*;

verus! {

/// Opaque 32-byte identifier of a remote peer.
#[derive(Clone, Copy, Debug, Eq, Hash)]
pub struct PeerId {
    bytes: [u8; 32],
}

impl PeerId {
    /// The identifier's bytes, as a sequence.
    pub closed spec fn bytes_spec(&self) -> Seq<u8> {
        self.bytes@
    }

    /// Identifier with the given bytes.
    pub fn from_bytes(bytes: [u8; 32]) -> (r: PeerId)
        ensures
            r.bytes_spec() == bytes@,
    {
        PeerId { bytes }
    }

    /// The identifier's bytes.
    pub fn to_bytes(&self) -> (r: [u8; 32])
        ensures
            r@ == self.bytes_spec(),
    {
        self.bytes
    }
}

impl PartialEq for PeerId {
    fn eq(&self, other: &PeerId) -> (r: bool)
        ensures
            r == (*self == *other),
    {
        let mut i: usize = 0;
        while i < 32
            invariant
                0 <= i <= 32,
                forall|j: int| 0 <= j < i ==> self.bytes[j] == other.bytes[j],
            decreases 32 - i,
        {
            if self.bytes[i] != other.bytes[i] {
                return false;
            }
            i = i + 1;
        }
        assert(self.bytes =~= other.bytes);
        true
    }
}

impl vstd::std_specs::cmp::PartialEqSpecImpl for PeerId {
    open spec fn obeys_eq_spec() -> bool {
        true
    }

    open spec fn eq_spec(&self, other: &PeerId) -> bool {
        *self == *other
    }
}

} // verus!
