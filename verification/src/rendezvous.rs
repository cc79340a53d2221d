//! Who can be reached through this daemon, and which swarms take in peers that
//! connect by themselves.

use crate::address::SocketAddress;
use crate::error::TorrentId;
use crate::hash::Sha1Hash;
use vstd::prelude::*;

verus! {

/// A peer that others can be introduced to.
#[derive(Clone, Copy, Debug)]
pub struct RendezvousPeer {
    pub info_hash: Sha1Hash,
    pub address: SocketAddress,
    /// The session that the peer is connected in.
    pub session: u64,
    /// The number under which the peer takes introductions.
    pub extension_id: u8,
}

pub open spec fn is_peer(peer: RendezvousPeer, hash: Seq<u8>, address: SocketAddress) -> bool {
    peer.info_hash@ == hash && peer.address == address
}

/// The position of a peer at or after `from`, or the length.
pub open spec fn rendezvous_at(
    peers: Seq<RendezvousPeer>,
    hash: Seq<u8>,
    address: SocketAddress,
    from: int,
) -> int
    decreases peers.len() - from,
{
    if from < 0 || from >= peers.len() || is_peer(peers[from], hash, address) {
        from
    } else {
        rendezvous_at(peers, hash, address, from + 1)
    }
}

/// Whether no peer stands twice.
pub open spec fn unique_rendezvous(peers: Seq<RendezvousPeer>) -> bool {
    forall|i: int, j: int|
        0 <= i < j < peers.len() ==> !is_peer(
            #[trigger] peers[i],
            (#[trigger] peers[j]).info_hash@,
            peers[j].address,
        )
}

/// The peers that others can be introduced to.
#[derive(Debug)]
pub struct RendezvousTable {
    pub peers: Vec<RendezvousPeer>,
}

impl RendezvousTable {
    /// Whether no peer stands twice.
    pub open spec fn wf(&self) -> bool {
        unique_rendezvous(self.peers@)
    }

    pub fn new() -> (table: Self)
        ensures
            table.wf(),
            table.peers@.len() == 0,
    {
        Self { peers: Vec::new() }
    }

    fn find(&self, info_hash: &Sha1Hash, address: SocketAddress) -> (result: Option<usize>)
        ensures
            match result {
                Some(at) => at < self.peers@.len() && at == rendezvous_at(
                    self.peers@,
                    info_hash@,
                    address,
                    0,
                ),
                None => rendezvous_at(self.peers@, info_hash@, address, 0) == self.peers@.len(),
            },
    {
        let mut i: usize = 0;
        while i < self.peers.len()
            invariant
                i <= self.peers@.len(),
                rendezvous_at(self.peers@, info_hash@, address, 0) == rendezvous_at(
                    self.peers@,
                    info_hash@,
                    address,
                    i as int,
                ),
            decreases self.peers@.len() - i,
        {
            if self.peers[i].info_hash.same(info_hash) && self.peers[i].address == address {
                return Some(i);
            }
            i += 1;
        }
        None
    }

    /// A peer takes introductions. What was known of it is replaced.
    pub fn register(&mut self, peer: RendezvousPeer)
        requires
            old(self).wf(),
        ensures
            final(self).wf(),
            ({
                let at = rendezvous_at(old(self).peers@, peer.info_hash@, peer.address, 0);
                final(self).peers@ == if at < old(self).peers@.len() {
                    old(self).peers@.update(at, peer)
                } else {
                    old(self).peers@.push(peer)
                }
            }),
    {
        proof {
            lemma_rendezvous_at(self.peers@, peer.info_hash@, peer.address, 0);
        }
        match self.find(&peer.info_hash, peer.address) {
            Some(at) => {
                self.peers[at] = peer;
            },
            None => {
                self.peers.push(peer);
            },
        }
    }

    /// A session ended. A peer that is connected again in another session stays.
    pub fn unregister(&mut self, info_hash: &Sha1Hash, address: SocketAddress, session: u64)
        requires
            old(self).wf(),
        ensures
            final(self).wf(),
            ({
                let at = rendezvous_at(old(self).peers@, info_hash@, address, 0);
                final(self).peers@ == if at < old(self).peers@.len() && old(
                    self,
                ).peers@[at].session == session {
                    old(self).peers@.remove(at)
                } else {
                    old(self).peers@
                }
            }),
    {
        if let Some(at) = self.find(info_hash, address) {
            if self.peers[at].session == session {
                self.peers.remove(at);
            }
        }
    }

    /// The number under which a peer takes introductions, if it does.
    pub fn extension_of(&self, info_hash: &Sha1Hash, address: SocketAddress) -> (result: Option<u8>)
        ensures
            ({
                let at = rendezvous_at(self.peers@, info_hash@, address, 0);
                result == if at < self.peers@.len() {
                    Some(self.peers@[at].extension_id)
                } else {
                    None
                }
            }),
    {
        match self.find(info_hash, address) {
            Some(at) => Some(self.peers[at].extension_id),
            None => None,
        }
    }
}

/// A peer that was registered can be introduced to.
pub proof fn law_registered_peer_is_found(
    peers: Seq<RendezvousPeer>,
    peer: RendezvousPeer,
    from: int,
)
    requires
        0 <= from <= peers.len(),
    ensures
        ({
            let at = rendezvous_at(peers, peer.info_hash@, peer.address, from);
            let after = if at < peers.len() {
                peers.update(at, peer)
            } else {
                peers.push(peer)
            };
            let found = rendezvous_at(after, peer.info_hash@, peer.address, from);
            found < after.len() && after[found] == peer
        }),
    decreases peers.len() - from,
{
    let at = rendezvous_at(peers, peer.info_hash@, peer.address, from);
    let after = if at < peers.len() {
        peers.update(at, peer)
    } else {
        peers.push(peer)
    };
    if from < peers.len() && !is_peer(peers[from], peer.info_hash@, peer.address) {
        law_registered_peer_is_found(peers, peer, from + 1);
        lemma_rendezvous_at(peers, peer.info_hash@, peer.address, from + 1);
        assert(after[from] == peers[from]);
    } else {
        assert(after[from] == peer);
    }
}

proof fn lemma_rendezvous_at(
    peers: Seq<RendezvousPeer>,
    hash: Seq<u8>,
    address: SocketAddress,
    from: int,
)
    requires
        0 <= from <= peers.len(),
    ensures
        from <= rendezvous_at(peers, hash, address, from) <= peers.len(),
        rendezvous_at(peers, hash, address, from) < peers.len() ==> is_peer(
            peers[rendezvous_at(peers, hash, address, from)],
            hash,
            address,
        ),
        forall|k: int|
            from <= k < rendezvous_at(peers, hash, address, from) ==> !is_peer(
                #[trigger] peers[k],
                hash,
                address,
            ),
    decreases peers.len() - from,
{
    if from < peers.len() && !is_peer(peers[from], hash, address) {
        lemma_rendezvous_at(peers, hash, address, from + 1);
    }
}

/// A swarm that takes in peers.
#[derive(Clone, Copy, Debug, Eq, PartialEq, Structural)]
pub struct SwarmRoute {
    pub id: TorrentId,
    /// Tells the swarm from those that the torrent had before.
    pub swarm: u64,
}

/// The position of a torrent's route at or after `from`, or the length.
pub open spec fn route_at(routes: Seq<SwarmRoute>, id: TorrentId, from: int) -> int
    decreases routes.len() - from,
{
    if from < 0 || from >= routes.len() || routes[from].id == id {
        from
    } else {
        route_at(routes, id, from + 1)
    }
}

/// Whether no torrent has two routes.
pub open spec fn unique_routes(routes: Seq<SwarmRoute>) -> bool {
    forall|i: int, j: int|
        0 <= i < j < routes.len() ==> (#[trigger] routes[i]).id != (#[trigger] routes[j]).id
}

/// The swarms that take in peers.
#[derive(Debug)]
pub struct SwarmRoutes {
    pub routes: Vec<SwarmRoute>,
}

impl SwarmRoutes {
    /// Whether no torrent has two routes.
    pub open spec fn wf(&self) -> bool {
        unique_routes(self.routes@)
    }

    pub fn new() -> (table: Self)
        ensures
            table.wf(),
            table.routes@.len() == 0,
    {
        Self { routes: Vec::new() }
    }

    fn find(&self, id: TorrentId) -> (result: Option<usize>)
        ensures
            match result {
                Some(at) => at < self.routes@.len() && at == route_at(self.routes@, id, 0),
                None => route_at(self.routes@, id, 0) == self.routes@.len(),
            },
    {
        let mut i: usize = 0;
        while i < self.routes.len()
            invariant
                i <= self.routes@.len(),
                route_at(self.routes@, id, 0) == route_at(self.routes@, id, i as int),
            decreases self.routes@.len() - i,
        {
            if self.routes[i].id == id {
                return Some(i);
            }
            i += 1;
        }
        None
    }

    /// A swarm takes in peers from now on, in place of an earlier one.
    pub fn register(&mut self, route: SwarmRoute)
        requires
            old(self).wf(),
        ensures
            final(self).wf(),
            ({
                let at = route_at(old(self).routes@, route.id, 0);
                final(self).routes@ == if at < old(self).routes@.len() {
                    old(self).routes@.update(at, route)
                } else {
                    old(self).routes@.push(route)
                }
            }),
    {
        proof {
            lemma_route_at(self.routes@, route.id, 0);
        }
        match self.find(route.id) {
            Some(at) => {
                self.routes[at] = route;
            },
            None => {
                self.routes.push(route);
            },
        }
    }

    /// A swarm ended. One that took its place stays.
    pub fn release(&mut self, route: SwarmRoute)
        requires
            old(self).wf(),
        ensures
            final(self).wf(),
            ({
                let at = route_at(old(self).routes@, route.id, 0);
                final(self).routes@ == if at < old(self).routes@.len() && old(
                    self,
                ).routes@[at].swarm == route.swarm {
                    old(self).routes@.remove(at)
                } else {
                    old(self).routes@
                }
            }),
    {
        if let Some(at) = self.find(route.id) {
            if self.routes[at].swarm == route.swarm {
                self.routes.remove(at);
            }
        }
    }

    /// The swarm that takes in a torrent's peers, if there is one.
    pub fn swarm_of(&self, id: TorrentId) -> (result: Option<u64>)
        ensures
            ({
                let at = route_at(self.routes@, id, 0);
                result == if at < self.routes@.len() {
                    Some(self.routes@[at].swarm)
                } else {
                    None
                }
            }),
    {
        match self.find(id) {
            Some(at) => Some(self.routes[at].swarm),
            None => None,
        }
    }
}

proof fn lemma_route_at(routes: Seq<SwarmRoute>, id: TorrentId, from: int)
    requires
        0 <= from <= routes.len(),
    ensures
        from <= route_at(routes, id, from) <= routes.len(),
        route_at(routes, id, from) < routes.len() ==> routes[route_at(routes, id, from)].id == id,
        forall|k: int|
            from <= k < route_at(routes, id, from) ==> (#[trigger] routes[k]).id != id,
    decreases routes.len() - from,
{
    if from < routes.len() && routes[from].id != id {
        lemma_route_at(routes, id, from + 1);
    }
}

} // verus!
