//! Discovery on the local network: what is announced, what is answered, and who
//! is found.

use crate::address::{IpAddress, SocketAddress};
use crate::hash::Sha1Hash;
use crate::metainfo::sha1_views;
use crate::num::max_of;
use vstd::prelude::*;

verus! {

/// How many torrents one announcement names.
pub const LSD_BATCH: usize = 20;

/// How long after an announcement nothing is answered.
pub const LSD_QUIET_NANOS: u64 = 60_000_000_000;

/// Hashes in batches, in order, every batch but the last a full one.
pub open spec fn batched(hashes: Seq<Seq<u8>>) -> Seq<Seq<Seq<u8>>>
    decreases hashes.len(),
{
    if hashes.len() == 0 {
        Seq::empty()
    } else if hashes.len() <= LSD_BATCH {
        seq![hashes]
    } else {
        seq![hashes.take(LSD_BATCH as int)] + batched(hashes.skip(LSD_BATCH as int))
    }
}

pub open spec fn batches_view(batches: Seq<Vec<Sha1Hash>>) -> Seq<Seq<Seq<u8>>> {
    Seq::new(batches.len(), |i: int| sha1_views(batches[i]@))
}

/// The hashes that are wanted too, in order.
pub open spec fn shared_hashes(active: Seq<Seq<u8>>, asked: Seq<Seq<u8>>) -> Seq<Seq<u8>>
    decreases active.len(),
{
    if active.len() == 0 {
        Seq::empty()
    } else {
        let before = shared_hashes(active.drop_last(), asked);
        if asked.contains(active.last()) {
            before.push(active.last())
        } else {
            before
        }
    }
}

fn contains_hash(hashes: &Vec<Sha1Hash>, wanted: &Sha1Hash) -> (result: bool)
    ensures
        result == sha1_views(hashes@).contains(wanted@),
{
    let ghost views = sha1_views(hashes@);
    let mut i: usize = 0;
    while i < hashes.len()
        invariant
            views == sha1_views(hashes@),
            i <= hashes@.len(),
            forall|k: int| 0 <= k < i ==> views[k] != wanted@,
        decreases hashes@.len() - i,
    {
        assert(views[i as int] == hashes@[i as int]@);
        if hashes[i].same(wanted) {
            return true;
        }
        i += 1;
    }
    false
}

/// The hashes that are announced, in batches.
pub fn announcements(hashes: &Vec<Sha1Hash>) -> (batches: Vec<Vec<Sha1Hash>>)
    ensures
        batches_view(batches@) == batched(sha1_views(hashes@)),
{
    let ghost views = sha1_views(hashes@);
    let mut batches: Vec<Vec<Sha1Hash>> = Vec::new();
    let mut at: usize = 0;
    proof {
        assert(views.skip(0) =~= views);
        assert(batches_view(batches@) + batched(views) =~= batched(views));
    }
    while at < hashes.len()
        invariant
            views == sha1_views(hashes@),
            at <= hashes@.len(),
            batches_view(batches@) + batched(views.skip(at as int)) == batched(views),
        decreases hashes@.len() - at,
    {
        let ghost before = batches_view(batches@);
        let ghost rest = views.skip(at as int);
        let end: usize = if hashes.len() - at > LSD_BATCH {
            at + LSD_BATCH
        } else {
            hashes.len()
        };
        let mut batch: Vec<Sha1Hash> = Vec::new();
        let mut i: usize = at;
        while i < end
            invariant
                views == sha1_views(hashes@),
                at <= i <= end <= hashes@.len(),
                sha1_views(batch@) == views.subrange(at as int, i as int),
            decreases end - i,
        {
            let ghost held = sha1_views(batch@);
            batch.push(hashes[i]);
            i += 1;
            assert(sha1_views(batch@) =~= held.push(views[i - 1]));
            assert(sha1_views(batch@) =~= views.subrange(at as int, i as int));
        }
        batches.push(batch);
        proof {
            let piece = sha1_views(batch@);
            assert(batches_view(batches@) =~= before.push(piece));
            if rest.len() <= LSD_BATCH {
                assert(piece =~= rest);
                assert(views.skip(end as int) =~= Seq::empty());
                assert(before.push(piece) + Seq::<Seq<Seq<u8>>>::empty() =~= before + seq![piece]);
            } else {
                assert(piece =~= rest.take(LSD_BATCH as int));
                assert(rest.skip(LSD_BATCH as int) =~= views.skip(end as int));
                assert(before.push(piece) + batched(views.skip(end as int)) =~= before + (seq![
                    piece,
                ] + batched(views.skip(end as int))));
            }
        }
        at = end;
    }
    assert(batches_view(batches@) + Seq::<Seq<Seq<u8>>>::empty() =~= batches_view(batches@));
    assert(views.skip(at as int) =~= Seq::empty());
    batches
}

/// When something was last announced.
#[derive(Clone, Copy, Debug, Eq, PartialEq, Structural)]
pub struct LsdAnnouncer {
    pub last_announce: Option<u64>,
}

/// Whether the last announcement is still too recent to answer anybody.
pub open spec fn is_quiet(announcer: LsdAnnouncer, now: u64) -> bool {
    match announcer.last_announce {
        Some(sent) => max_of(now - sent, 0) < LSD_QUIET_NANOS,
        None => false,
    }
}

impl LsdAnnouncer {
    pub fn new() -> (announcer: Self)
        ensures
            announcer.last_announce is None,
    {
        Self { last_announce: None }
    }

    /// Something was announced: everything on time, or an answer.
    pub fn announced(&mut self, hashes: &Vec<Sha1Hash>, now: u64)
        ensures
            final(self).last_announce == (if hashes@.len() > 0 {
                Some(now)
            } else {
                old(self).last_announce
            }),
    {
        if hashes.len() > 0 {
            self.last_announce = Some(now);
        }
    }

    /// Whether nobody is answered yet.
    pub fn stays_quiet(&self, now: u64) -> (result: bool)
        ensures
            result == is_quiet(*self, now),
    {
        match self.last_announce {
            Some(sent) => now.saturating_sub(sent) < LSD_QUIET_NANOS,
            None => false,
        }
    }

    /// What is answered to somebody who looks for torrents: those that are
    /// active here too, unless everything was announced a moment ago.
    pub fn answer(&self, active: &Vec<Sha1Hash>, asked: &Vec<Sha1Hash>, now: u64) -> (matching: Vec<
        Sha1Hash,
    >)
        ensures
            sha1_views(matching@) == (if is_quiet(*self, now) {
                Seq::empty()
            } else {
                shared_hashes(sha1_views(active@), sha1_views(asked@))
            }),
    {
        let mut matching: Vec<Sha1Hash> = Vec::new();
        assert(sha1_views(matching@) =~= Seq::empty());
        if self.stays_quiet(now) {
            return matching;
        }
        let ghost all = sha1_views(active@);
        let mut i: usize = 0;
        assert(all.take(0) =~= Seq::empty());
        while i < active.len()
            invariant
                all == sha1_views(active@),
                i <= active@.len(),
                sha1_views(matching@) == shared_hashes(all.take(i as int), sha1_views(asked@)),
            decreases active@.len() - i,
        {
            let ghost before = sha1_views(matching@);
            proof {
                assert(all.take(i + 1).drop_last() =~= all.take(i as int));
                assert(all.take(i + 1).last() == active@[i as int]@);
            }
            if contains_hash(asked, &active[i]) {
                matching.push(active[i]);
                assert(sha1_views(matching@) =~= before.push(active@[i as int]@));
            }
            i += 1;
        }
        assert(all.take(all.len() as int) =~= all);
        matching
    }
}

/// The peers that answered a search on the local network, each once.
#[derive(Debug)]
pub struct LocalSearch {
    pub info_hash: Sha1Hash,
    pub peers: Vec<SocketAddress>,
}

impl LocalSearch {
    pub fn new(info_hash: Sha1Hash) -> (search: Self)
        ensures
            search.info_hash == info_hash,
            search.peers@.len() == 0,
    {
        Self { info_hash, peers: Vec::new() }
    }

    /// Somebody on the network announced torrents. It listens at the announced
    /// port of the address that the announcement came from.
    pub fn heard(&mut self, announced: &Vec<Sha1Hash>, source: IpAddress, port: u16)
        ensures
            final(self).info_hash == old(self).info_hash,
            ({
                let peer = SocketAddress { ip: source, port };
                final(self).peers@ == if sha1_views(announced@).contains(old(self).info_hash@)
                    && !old(self).peers@.contains(peer) {
                    old(self).peers@.push(peer)
                } else {
                    old(self).peers@
                }
            }),
            old(self).peers@.no_duplicates() ==> final(self).peers@.no_duplicates(),
    {
        if !contains_hash(announced, &self.info_hash) {
            return ;
        }
        let peer = SocketAddress { ip: source, port };
        let mut i: usize = 0;
        while i < self.peers.len()
            invariant
                *self == *old(self),
                peer == (SocketAddress { ip: source, port }),
                i <= self.peers@.len(),
                forall|k: int| 0 <= k < i ==> self.peers@[k] != peer,
            decreases self.peers@.len() - i,
        {
            if self.peers[i] == peer {
                return ;
            }
            i += 1;
        }
        self.peers.push(peer);
    }
}

/// The hashes of all batches one behind the other.
pub open spec fn unbatched(batches: Seq<Seq<Seq<u8>>>) -> Seq<Seq<u8>>
    decreases batches.len(),
{
    if batches.len() == 0 {
        Seq::empty()
    } else {
        batches[0] + unbatched(batches.drop_first())
    }
}

/// Every hash is announced exactly once, in order, and no batch is too long.
pub proof fn law_batches_hold_everything(hashes: Seq<Seq<u8>>)
    ensures
        unbatched(batched(hashes)) == hashes,
        forall|i: int|
            0 <= i < batched(hashes).len() ==> 0 < (#[trigger] batched(hashes)[i]).len()
                <= LSD_BATCH,
    decreases hashes.len(),
{
    let batches = batched(hashes);
    if hashes.len() == 0 {
    } else if hashes.len() <= LSD_BATCH {
        assert(batches.drop_first() =~= Seq::empty());
        assert(unbatched(batches.drop_first()) =~= Seq::empty());
        assert(unbatched(batches) =~= hashes + Seq::<Seq<u8>>::empty());
        assert(hashes + Seq::<Seq<u8>>::empty() =~= hashes);
    } else {
        let rest = hashes.skip(LSD_BATCH as int);
        law_batches_hold_everything(rest);
        assert(batches.drop_first() =~= batched(rest));
        assert(unbatched(batches) =~= hashes.take(LSD_BATCH as int) + rest);
        assert(hashes.take(LSD_BATCH as int) + rest =~= hashes);
        assert forall|i: int| 0 <= i < batches.len() implies 0 < (#[trigger] batches[i]).len()
            <= LSD_BATCH by {
            if i > 0 {
                assert(batches[i] == batched(rest)[i - 1]);
            }
        }
    }
}

} // verus!
