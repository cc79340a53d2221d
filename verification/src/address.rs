//! Who is on the other side: addresses, peer ids and the keys they make up.

use vstd::prelude::*;

verus! {

/// An address of a host.
#[derive(Clone, Copy, Debug, Eq, PartialEq, Hash, Structural)]
pub enum IpAddress {
    /// The four octets, the first the most significant.
    V4(u32),
    /// The eight segments, the first the most significant.
    V6(u128),
}

/// An address of a port on a host.
#[derive(Clone, Copy, Debug, Eq, PartialEq, Hash, Structural)]
pub struct SocketAddress {
    pub ip: IpAddress,
    pub port: u16,
}

/// The id that a peer gives itself.
#[derive(Clone, Copy, Debug, Eq, PartialEq, Hash)]
pub struct PeerId {
    pub bytes: [u8; 20],
}

/// What tells one peer from another across connections.
#[derive(Clone, Copy, Debug, Eq, PartialEq, Hash)]
pub struct PeerKey {
    pub ip: IpAddress,
    pub peer_id: PeerId,
}

impl PeerId {
    pub fn from_bytes(bytes: [u8; 20]) -> (id: Self)
        ensures
            id.bytes == bytes,
    {
        Self { bytes }
    }

    pub fn as_bytes(&self) -> (bytes: &[u8; 20])
        ensures
            *bytes == self.bytes,
    {
        &self.bytes
    }

    /// Whether two ids are the same.
    pub fn same(&self, other: &Self) -> (result: bool)
        ensures
            result == (*self == *other),
    {
        let mut i: usize = 0;
        while i < 20
            invariant
                i <= 20,
                forall|k: int| 0 <= k < i ==> self.bytes@[k] == other.bytes@[k],
            decreases 20 - i,
        {
            if self.bytes[i] != other.bytes[i] {
                return false;
            }
            i += 1;
        }
        assert(self.bytes =~= other.bytes);
        true
    }
}

impl PeerKey {
    /// Whether two keys are the same.
    pub fn same(&self, other: &Self) -> (result: bool)
        ensures
            result == (*self == *other),
    {
        self.ip == other.ip && self.peer_id.same(&other.peer_id)
    }
}

} // verus!
