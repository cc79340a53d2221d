//! What each torrent's peers are doing, counted.

use crate::error::TorrentId;
use crate::num::{max_of, min_of};
use vstd::prelude::*;

verus! {

/// How many peers a torrent has, by kind.
#[derive(Clone, Copy, Debug, Eq, PartialEq, Structural)]
pub struct TorrentPeerStats {
    pub total: usize,
    pub inbound: usize,
    pub outbound: usize,
    pub seeds: usize,
    pub active_downloaders: usize,
}

impl Default for TorrentPeerStats {
    fn default() -> (stats: Self)
        ensures
            stats == (TorrentPeerStats {
                total: 0,
                inbound: 0,
                outbound: 0,
                seeds: 0,
                active_downloaders: 0,
            }),
    {
        Self { total: 0, inbound: 0, outbound: 0, seeds: 0, active_downloaders: 0 }
    }
}

/// Who made a connection.
#[derive(Clone, Copy, Debug, Eq, PartialEq, Structural)]
pub enum PeerDirection {
    Inbound,
    Outbound,
}

/// The counts of one torrent.
#[derive(Clone, Copy, Debug, Eq, PartialEq, Structural)]
pub struct TorrentActivity {
    pub peers: usize,
    pub inbound_peers: usize,
    pub outbound_peers: usize,
    pub seed_peers: usize,
    pub active_downloaders: usize,
    pub downloaded_bytes: u64,
    pub uploaded_bytes: u64,
    /// Uploaded bytes that were not persisted yet.
    pub pending_uploaded_bytes: u64,
}

/// The counts of a torrent of which nothing is known.
pub open spec fn idle_activity() -> TorrentActivity {
    TorrentActivity {
        peers: 0,
        inbound_peers: 0,
        outbound_peers: 0,
        seed_peers: 0,
        active_downloaders: 0,
        downloaded_bytes: 0,
        uploaded_bytes: 0,
        pending_uploaded_bytes: 0,
    }
}

#[derive(Clone, Copy, Debug, Eq, PartialEq, Structural)]
pub struct ActivityEntry {
    pub id: TorrentId,
    pub activity: TorrentActivity,
}

/// The position of a torrent at or after `from`, or the length.
pub open spec fn activity_at(entries: Seq<ActivityEntry>, id: TorrentId, from: int) -> int
    decreases entries.len() - from,
{
    if from < 0 || from >= entries.len() || entries[from].id == id {
        from
    } else {
        activity_at(entries, id, from + 1)
    }
}

/// The entries with the counts of one torrent replaced.
pub open spec fn with_activity(
    entries: Seq<ActivityEntry>,
    id: TorrentId,
    activity: TorrentActivity,
) -> Seq<ActivityEntry> {
    let at = activity_at(entries, id, 0);
    if at < entries.len() {
        entries.update(at, ActivityEntry { id, activity })
    } else {
        entries.push(ActivityEntry { id, activity })
    }
}

/// Whether no torrent stands twice.
pub open spec fn unique_torrents(entries: Seq<ActivityEntry>) -> bool {
    forall|i: int, j: int|
        0 <= i < j < entries.len() ==> (#[trigger] entries[i]).id != (#[trigger] entries[j]).id
}

/// The counts of a torrent among entries.
pub open spec fn activity_of(entries: Seq<ActivityEntry>, id: TorrentId) -> TorrentActivity {
    let at = activity_at(entries, id, 0);
    if at < entries.len() {
        entries[at].activity
    } else {
        idle_activity()
    }
}

/// A torrent that has uploaded more.
pub open spec fn uploaded(activity: TorrentActivity, bytes: u64) -> TorrentActivity {
    TorrentActivity {
        uploaded_bytes: min_of(activity.uploaded_bytes + bytes, u64::MAX as int) as u64,
        ..owing(activity, bytes)
    }
}

/// A torrent with more uploaded bytes to be persisted.
pub open spec fn owing(activity: TorrentActivity, bytes: u64) -> TorrentActivity {
    TorrentActivity {
        pending_uploaded_bytes: min_of(
            activity.pending_uploaded_bytes + bytes,
            u64::MAX as int,
        ) as u64,
        ..activity
    }
}

/// A torrent with nothing to be persisted.
pub open spec fn cleared(activity: TorrentActivity) -> TorrentActivity {
    TorrentActivity { pending_uploaded_bytes: 0, ..activity }
}

/// The entries with nothing to be persisted.
pub open spec fn all_cleared(entries: Seq<ActivityEntry>) -> Seq<ActivityEntry> {
    Seq::new(
        entries.len(),
        |i: int| ActivityEntry { activity: cleared(entries[i].activity), ..entries[i] },
    )
}

/// The counts of every torrent, and of all connections.
#[derive(Debug)]
pub struct ActivityTable {
    pub entries: Vec<ActivityEntry>,
    pub connected: usize,
}

/// A torrent with one more connection.
pub open spec fn connected_peer(
    activity: TorrentActivity,
    direction: PeerDirection,
    seed: bool,
) -> TorrentActivity {
    TorrentActivity {
        peers: (activity.peers + 1) as usize,
        inbound_peers: (activity.inbound_peers + if direction is Inbound {
            1int
        } else {
            0int
        }) as usize,
        outbound_peers: (activity.outbound_peers + if direction is Outbound {
            1int
        } else {
            0int
        }) as usize,
        seed_peers: (activity.seed_peers + if seed {
            1int
        } else {
            0int
        }) as usize,
        ..activity
    }
}

/// A torrent with one connection less.
pub open spec fn disconnected_peer(
    activity: TorrentActivity,
    direction: PeerDirection,
    seed: bool,
) -> TorrentActivity {
    TorrentActivity {
        peers: max_of(activity.peers - 1, 0) as usize,
        inbound_peers: max_of(activity.inbound_peers - if direction is Inbound {
            1int
        } else {
            0int
        }, 0) as usize,
        outbound_peers: max_of(activity.outbound_peers - if direction is Outbound {
            1int
        } else {
            0int
        }, 0) as usize,
        seed_peers: max_of(activity.seed_peers - if seed {
            1int
        } else {
            0int
        }, 0) as usize,
        ..activity
    }
}

/// The bytes of the first `n` torrents that were not persisted yet.
pub open spec fn pending_below(entries: Seq<ActivityEntry>, n: int) -> Seq<(TorrentId, u64)>
    decreases n,
{
    if n <= 0 {
        Seq::empty()
    } else {
        let before = pending_below(entries, n - 1);
        let entry = entries[n - 1];
        if entry.activity.pending_uploaded_bytes > 0 {
            before.push((entry.id, entry.activity.pending_uploaded_bytes))
        } else {
            before
        }
    }
}

impl ActivityTable {
    /// The counts of a torrent.
    pub open spec fn activity(&self, id: TorrentId) -> TorrentActivity {
        activity_of(self.entries@, id)
    }

    /// Whether no torrent stands twice.
    pub open spec fn wf(&self) -> bool {
        unique_torrents(self.entries@)
    }

    pub fn new() -> (table: Self)
        ensures
            table.wf(),
            table.connected == 0,
            table.entries@.len() == 0,
            forall|id: TorrentId| #[trigger] table.activity(id) == idle_activity(),
    {
        Self { entries: Vec::new(), connected: 0 }
    }

    fn find(&self, id: TorrentId) -> (result: Option<usize>)
        ensures
            match result {
                Some(at) => at < self.entries@.len() && at == activity_at(self.entries@, id, 0)
                    && self.entries@[at as int].id == id,
                None => activity_at(self.entries@, id, 0) == self.entries@.len(),
            },
    {
        let mut i: usize = 0;
        while i < self.entries.len()
            invariant
                i <= self.entries@.len(),
                activity_at(self.entries@, id, 0) == activity_at(self.entries@, id, i as int),
            decreases self.entries@.len() - i,
        {
            if self.entries[i].id == id {
                return Some(i);
            }
            i += 1;
        }
        None
    }

    fn read(&self, id: TorrentId) -> (activity: TorrentActivity)
        ensures
            activity == self.activity(id),
    {
        match self.find(id) {
            Some(at) => self.entries[at].activity,
            None => TorrentActivity {
                peers: 0,
                inbound_peers: 0,
                outbound_peers: 0,
                seed_peers: 0,
                active_downloaders: 0,
                downloaded_bytes: 0,
                uploaded_bytes: 0,
                pending_uploaded_bytes: 0,
            },
        }
    }

    fn write(&mut self, id: TorrentId, activity: TorrentActivity)
        requires
            old(self).wf(),
        ensures
            final(self).wf(),
            final(self).connected == old(self).connected,
            final(self).entries@ == with_activity(old(self).entries@, id, activity),
            forall|other: TorrentId| #[trigger]
                final(self).activity(other) == (if other == id {
                    activity
                } else {
                    old(self).activity(other)
                }),
    {
        proof {
            lemma_with_activity_unique(self.entries@, id, activity);
        }
        match self.find(id) {
            Some(at) => {
                self.entries[at] = ActivityEntry { id, activity };
            },
            None => {
                self.entries.push(ActivityEntry { id, activity });
            },
        }
        assert forall|other: TorrentId| #[trigger]
            self.activity(other) == (if other == id {
                activity
            } else {
                old(self).activity(other)
            }) by {
            assert(self.activity(other) == activity_of(
                with_activity(old(self).entries@, id, activity),
                other,
            ));
        }
    }

    /// A connection was made.
    pub fn track_connection(&mut self, id: TorrentId, direction: PeerDirection, seed: bool)
        requires
            old(self).wf(),
            old(self).activity(id).peers < usize::MAX,
            old(self).activity(id).inbound_peers < usize::MAX,
            old(self).activity(id).outbound_peers < usize::MAX,
            old(self).activity(id).seed_peers < usize::MAX,
            old(self).connected < usize::MAX,
        ensures
            final(self).wf(),
            final(self).connected == old(self).connected + 1,
            final(self).entries@ == with_activity(
                old(self).entries@,
                id,
                connected_peer(old(self).activity(id), direction, seed),
            ),
            forall|other: TorrentId| #[trigger]
                final(self).activity(other) == (if other == id {
                    connected_peer(old(self).activity(id), direction, seed)
                } else {
                    old(self).activity(other)
                }),
    {
        let mut activity = self.read(id);
        activity.peers = activity.peers + 1;
        match direction {
            PeerDirection::Inbound => {
                activity.inbound_peers = activity.inbound_peers + 1;
            },
            PeerDirection::Outbound => {
                activity.outbound_peers = activity.outbound_peers + 1;
            },
        }
        if seed {
            activity.seed_peers = activity.seed_peers + 1;
        }
        self.connected = self.connected + 1;
        self.write(id, activity);
    }

    /// A connection ended.
    pub fn release_connection(&mut self, id: TorrentId, direction: PeerDirection, seed: bool)
        requires
            old(self).wf(),
            old(self).connected > 0,
        ensures
            final(self).wf(),
            final(self).connected == old(self).connected - 1,
            final(self).entries@ == with_activity(
                old(self).entries@,
                id,
                disconnected_peer(old(self).activity(id), direction, seed),
            ),
            forall|other: TorrentId| #[trigger]
                final(self).activity(other) == (if other == id {
                    disconnected_peer(old(self).activity(id), direction, seed)
                } else {
                    old(self).activity(other)
                }),
    {
        let mut activity = self.read(id);
        activity.peers = activity.peers.saturating_sub(1);
        match direction {
            PeerDirection::Inbound => {
                activity.inbound_peers = activity.inbound_peers.saturating_sub(1);
            },
            PeerDirection::Outbound => {
                activity.outbound_peers = activity.outbound_peers.saturating_sub(1);
            },
        }
        if seed {
            activity.seed_peers = activity.seed_peers.saturating_sub(1);
        }
        self.connected = self.connected - 1;
        self.write(id, activity);
    }

    /// A peer began to deliver.
    pub fn track_active_download(&mut self, id: TorrentId)
        requires
            old(self).wf(),
            old(self).activity(id).active_downloaders < usize::MAX,
        ensures
            final(self).wf(),
            final(self).connected == old(self).connected,
            final(self).entries@ == with_activity(
                old(self).entries@,
                id,
                TorrentActivity {
                    active_downloaders: (old(self).activity(id).active_downloaders
                        + 1) as usize,
                    ..old(self).activity(id)
                },
            ),
            forall|other: TorrentId| #[trigger]
                final(self).activity(other) == (if other == id {
                    TorrentActivity {
                        active_downloaders: (old(self).activity(id).active_downloaders
                            + 1) as usize,
                        ..old(self).activity(id)
                    }
                } else {
                    old(self).activity(other)
                }),
    {
        let mut activity = self.read(id);
        activity.active_downloaders = activity.active_downloaders + 1;
        self.write(id, activity);
    }

    /// A peer stopped delivering.
    pub fn release_active_download(&mut self, id: TorrentId)
        requires
            old(self).wf(),
        ensures
            final(self).wf(),
            final(self).connected == old(self).connected,
            final(self).entries@ == with_activity(
                old(self).entries@,
                id,
                TorrentActivity {
                    active_downloaders: max_of(
                        old(self).activity(id).active_downloaders - 1,
                        0,
                    ) as usize,
                    ..old(self).activity(id)
                },
            ),
            forall|other: TorrentId| #[trigger]
                final(self).activity(other) == (if other == id {
                    TorrentActivity {
                        active_downloaders: max_of(
                            old(self).activity(id).active_downloaders - 1,
                            0,
                        ) as usize,
                        ..old(self).activity(id)
                    }
                } else {
                    old(self).activity(other)
                }),
    {
        let mut activity = self.read(id);
        activity.active_downloaders = activity.active_downloaders.saturating_sub(1);
        self.write(id, activity);
    }

    /// A peer turned out to have every piece.
    pub fn track_seed_peer(&mut self, id: TorrentId)
        requires
            old(self).wf(),
            old(self).activity(id).seed_peers < usize::MAX,
        ensures
            final(self).wf(),
            final(self).connected == old(self).connected,
            final(self).entries@ == with_activity(
                old(self).entries@,
                id,
                TorrentActivity {
                    seed_peers: (old(self).activity(id).seed_peers + 1) as usize,
                    ..old(self).activity(id)
                },
            ),
            forall|other: TorrentId| #[trigger]
                final(self).activity(other) == (if other == id {
                    TorrentActivity {
                        seed_peers: (old(self).activity(id).seed_peers + 1) as usize,
                        ..old(self).activity(id)
                    }
                } else {
                    old(self).activity(other)
                }),
    {
        let mut activity = self.read(id);
        activity.seed_peers = activity.seed_peers + 1;
        self.write(id, activity);
    }

    /// A peer that had every piece went.
    pub fn release_seed_peer(&mut self, id: TorrentId)
        requires
            old(self).wf(),
        ensures
            final(self).wf(),
            final(self).connected == old(self).connected,
            final(self).entries@ == with_activity(
                old(self).entries@,
                id,
                TorrentActivity {
                    seed_peers: max_of(old(self).activity(id).seed_peers - 1, 0) as usize,
                    ..old(self).activity(id)
                },
            ),
            forall|other: TorrentId| #[trigger]
                final(self).activity(other) == (if other == id {
                    TorrentActivity {
                        seed_peers: max_of(old(self).activity(id).seed_peers - 1, 0) as usize,
                        ..old(self).activity(id)
                    }
                } else {
                    old(self).activity(other)
                }),
    {
        let mut activity = self.read(id);
        activity.seed_peers = activity.seed_peers.saturating_sub(1);
        self.write(id, activity);
    }

    /// A block was uploaded.
    pub fn record_uploaded_block(&mut self, id: TorrentId, bytes: u64)
        requires
            old(self).wf(),
        ensures
            final(self).wf(),
            final(self).connected == old(self).connected,
            final(self).entries@ == with_activity(
                old(self).entries@,
                id,
                uploaded(old(self).activity(id), bytes),
            ),
            forall|other: TorrentId| #[trigger]
                final(self).activity(other) == (if other == id {
                    uploaded(old(self).activity(id), bytes)
                } else {
                    old(self).activity(other)
                }),
    {
        let mut activity = self.read(id);
        activity.uploaded_bytes = activity.uploaded_bytes.saturating_add(bytes);
        activity.pending_uploaded_bytes = activity.pending_uploaded_bytes.saturating_add(bytes);
        self.write(id, activity);
    }

    /// A block was downloaded. The count wraps around.
    pub fn record_downloaded_block(&mut self, id: TorrentId, bytes: usize)
        requires
            old(self).wf(),
        ensures
            final(self).wf(),
            final(self).connected == old(self).connected,
            final(self).entries@ == with_activity(
                old(self).entries@,
                id,
                TorrentActivity {
                    downloaded_bytes: ((old(self).activity(id).downloaded_bytes + bytes)
                        % 0x1_0000_0000_0000_0000) as u64,
                    ..old(self).activity(id)
                },
            ),
            forall|other: TorrentId| #[trigger]
                final(self).activity(other) == (if other == id {
                    TorrentActivity {
                        downloaded_bytes: ((old(self).activity(id).downloaded_bytes + bytes)
                            % 0x1_0000_0000_0000_0000) as u64,
                        ..old(self).activity(id)
                    }
                } else {
                    old(self).activity(other)
                }),
    {
        let mut activity = self.read(id);
        activity.downloaded_bytes = activity.downloaded_bytes.wrapping_add(bytes as u64);
        self.write(id, activity);
    }

    /// Takes the uploaded bytes that were not persisted yet, torrent by torrent.
    pub fn take_pending_uploads(&mut self) -> (pending: Vec<(TorrentId, u64)>)
        requires
            old(self).wf(),
        ensures
            final(self).wf(),
            final(self).connected == old(self).connected,
            pending@ == pending_below(old(self).entries@, old(self).entries@.len() as int),
            final(self).entries@ == all_cleared(old(self).entries@),
            forall|id: TorrentId| #[trigger]
                final(self).activity(id) == cleared(old(self).activity(id)),
            forall|i: int, j: int|
                0 <= i < j < pending@.len() ==> (#[trigger] pending@[i]).0 != (
                #[trigger] pending@[j]).0,
            forall|id: TorrentId, bytes: u64| #[trigger]
                pending@.contains((id, bytes)) <==> bytes > 0 && bytes == old(self).activity(
                    id,
                ).pending_uploaded_bytes,
    {
        let ghost before = self.entries@;
        let mut pending: Vec<(TorrentId, u64)> = Vec::new();
        let mut i: usize = 0;
        while i < self.entries.len()
            invariant
                before == old(self).entries@,
                self.connected == old(self).connected,
                self.entries@.len() == before.len(),
                i <= before.len(),
                pending@ == pending_below(before, i as int),
                forall|k: int| 0 <= k < i ==> self.entries@[k] == all_cleared(before)[k],
                forall|k: int| i <= k < before.len() ==> self.entries@[k] == before[k],
            decreases before.len() - i,
        {
            let bytes: u64 = self.entries[i].activity.pending_uploaded_bytes;
            if bytes > 0 {
                pending.push((self.entries[i].id, bytes));
            }
            self.entries[i].activity.pending_uploaded_bytes = 0;
            i += 1;
        }
        proof {
            assert(self.entries@ =~= all_cleared(before));
            assert forall|id: TorrentId| #[trigger]
                self.activity(id) == cleared(old(self).activity(id)) by {
                lemma_cleared_at(before, id, 0);
            }
            law_pending_is_handed_out_once(before);
            assert forall|id: TorrentId, bytes: u64| #[trigger]
                pending@.contains((id, bytes)) <==> bytes > 0 && bytes == old(self).activity(
                    id,
                ).pending_uploaded_bytes by {
                law_pending_is_handed_out_exactly(before, id, bytes);
            }
        }
        pending
    }

    /// Uploaded bytes could not be persisted: they stay to be persisted later.
    pub fn restore_pending_upload(&mut self, id: TorrentId, bytes: u64)
        requires
            old(self).wf(),
        ensures
            final(self).wf(),
            final(self).connected == old(self).connected,
            final(self).entries@ == with_activity(
                old(self).entries@,
                id,
                owing(old(self).activity(id), bytes),
            ),
            forall|other: TorrentId| #[trigger]
                final(self).activity(other) == (if other == id {
                    owing(old(self).activity(id), bytes)
                } else {
                    old(self).activity(other)
                }),
    {
        let mut activity = self.read(id);
        activity.pending_uploaded_bytes = activity.pending_uploaded_bytes.saturating_add(bytes);
        self.write(id, activity);
    }

    /// How many peers a torrent has, by kind.
    pub fn torrent_peer_stats(&self, id: TorrentId) -> (stats: TorrentPeerStats)
        ensures
            stats == (TorrentPeerStats {
                total: self.activity(id).peers,
                inbound: self.activity(id).inbound_peers,
                outbound: self.activity(id).outbound_peers,
                seeds: self.activity(id).seed_peers,
                active_downloaders: self.activity(id).active_downloaders,
            }),
    {
        let activity = self.read(id);
        TorrentPeerStats {
            total: activity.peers,
            inbound: activity.inbound_peers,
            outbound: activity.outbound_peers,
            seeds: activity.seed_peers,
            active_downloaders: activity.active_downloaders,
        }
    }

    pub fn torrent_peer_count(&self, id: TorrentId) -> (count: usize)
        ensures
            count == self.activity(id).peers,
    {
        self.read(id).peers
    }

    pub fn torrent_downloaded_bytes(&self, id: TorrentId) -> (bytes: u64)
        ensures
            bytes == self.activity(id).downloaded_bytes,
    {
        self.read(id).downloaded_bytes
    }

    pub fn torrent_uploaded_bytes(&self, id: TorrentId) -> (bytes: u64)
        ensures
            bytes == self.activity(id).uploaded_bytes,
    {
        self.read(id).uploaded_bytes
    }
}

proof fn lemma_activity_at(entries: Seq<ActivityEntry>, id: TorrentId, from: int)
    requires
        0 <= from <= entries.len(),
    ensures
        from <= activity_at(entries, id, from) <= entries.len(),
        activity_at(entries, id, from) < entries.len() ==> entries[activity_at(
            entries,
            id,
            from,
        )].id == id,
    decreases entries.len() - from,
{
    if from < entries.len() && entries[from].id != id {
        lemma_activity_at(entries, id, from + 1);
    }
}

proof fn lemma_activity_update(
    entries: Seq<ActivityEntry>,
    at: int,
    activity: TorrentActivity,
    id: TorrentId,
    from: int,
)
    requires
        0 <= from <= entries.len(),
        0 <= at < entries.len(),
    ensures
        activity_at(
            entries.update(at, ActivityEntry { id: entries[at].id, activity }),
            id,
            from,
        ) == activity_at(entries, id, from),
    decreases entries.len() - from,
{
    if from < entries.len() && entries[from].id != id {
        lemma_activity_update(entries, at, activity, id, from + 1);
    }
}

proof fn lemma_activity_push(
    entries: Seq<ActivityEntry>,
    entry: ActivityEntry,
    id: TorrentId,
    from: int,
)
    requires
        0 <= from <= entries.len(),
    ensures
        ({
            let before = activity_at(entries, id, from);
            activity_at(entries.push(entry), id, from) == if before < entries.len() {
                before as nat
            } else if entry.id == id {
                entries.len()
            } else {
                entries.len() + 1
            }
        }),
    decreases entries.len() - from,
{
    reveal_with_fuel(activity_at, 2);
    if from < entries.len() && entries[from].id != id {
        lemma_activity_push(entries, entry, id, from + 1);
    }
}

proof fn lemma_cleared_at(entries: Seq<ActivityEntry>, id: TorrentId, from: int)
    requires
        0 <= from <= entries.len(),
    ensures
        activity_at(all_cleared(entries), id, from) == activity_at(entries, id, from),
        from <= activity_at(entries, id, from) <= entries.len(),
    decreases entries.len() - from,
{
    if from < entries.len() && entries[from].id != id {
        lemma_cleared_at(entries, id, from + 1);
    }
}

/// An entry is where it is looked for.
proof fn lemma_unique_at(entries: Seq<ActivityEntry>, k: int, from: int)
    requires
        unique_torrents(entries),
        0 <= from <= k < entries.len(),
    ensures
        activity_at(entries, entries[k].id, from) == k,
    decreases k - from,
{
    if from < k {
        lemma_unique_at(entries, k, from + 1);
    }
}

proof fn lemma_no_torrent_at(entries: Seq<ActivityEntry>, id: TorrentId, from: int)
    requires
        0 <= from <= entries.len(),
        activity_at(entries, id, from) == entries.len(),
    ensures
        forall|k: int| from <= k < entries.len() ==> (#[trigger] entries[k]).id != id,
    decreases entries.len() - from,
{
    if from < entries.len() {
        lemma_no_torrent_at(entries, id, from + 1);
    }
}

proof fn lemma_with_activity_unique(
    entries: Seq<ActivityEntry>,
    id: TorrentId,
    activity: TorrentActivity,
)
    requires
        unique_torrents(entries),
    ensures
        unique_torrents(with_activity(entries, id, activity)),
        activity_of(with_activity(entries, id, activity), id) == activity,
        forall|other: TorrentId|
            other != id ==> #[trigger] activity_of(with_activity(entries, id, activity), other)
                == activity_of(entries, other),
{
    let at = activity_at(entries, id, 0);
    lemma_activity_at(entries, id, 0);
    let entry = ActivityEntry { id, activity };
    if at == entries.len() {
        lemma_no_torrent_at(entries, id, 0);
    }
    assert forall|other: TorrentId|
        #![trigger activity_of(with_activity(entries, id, activity), other)]
        activity_of(with_activity(entries, id, activity), other) == if other == id {
            activity
        } else {
            activity_of(entries, other)
        } by {
        lemma_activity_at(entries, other, 0);
        if at < entries.len() {
            lemma_activity_update(entries, at, activity, other, 0);
        } else {
            lemma_activity_push(entries, entry, other, 0);
        }
    }
}

/// What is handed out was made from the entries with something to be persisted.
proof fn lemma_pending_below(entries: Seq<ActivityEntry>, n: int)
    requires
        0 <= n <= entries.len(),
    ensures
        forall|i: int|
            0 <= i < pending_below(entries, n).len() ==> exists|k: int|
                0 <= k < n && (#[trigger] entries[k]).activity.pending_uploaded_bytes > 0 && (
                #[trigger] pending_below(entries, n)[i]) == (
                    entries[k].id,
                    entries[k].activity.pending_uploaded_bytes,
                ),
        forall|k: int|
            0 <= k < n && (#[trigger] entries[k]).activity.pending_uploaded_bytes > 0
                ==> pending_below(entries, n).contains(
                (entries[k].id, entries[k].activity.pending_uploaded_bytes),
            ),
        unique_torrents(entries) ==> forall|i: int, j: int|
            0 <= i < j < pending_below(entries, n).len() ==> (#[trigger] pending_below(
                entries,
                n,
            )[i]).0 != (#[trigger] pending_below(entries, n)[j]).0,
    decreases n,
{
    if n > 0 {
        lemma_pending_below(entries, n - 1);
        let before = pending_below(entries, n - 1);
        let all = pending_below(entries, n);
        let last = entries[n - 1];
        let pair = (last.id, last.activity.pending_uploaded_bytes);
        assert forall|k: int| 0 <= k < n && (
        #[trigger] entries[k]).activity.pending_uploaded_bytes > 0 implies all.contains(
            (entries[k].id, entries[k].activity.pending_uploaded_bytes),
        ) by {
            if k < n - 1 {
                let i = choose|i: int|
                    0 <= i < before.len() && before[i] == (
                        entries[k].id,
                        entries[k].activity.pending_uploaded_bytes,
                    );
                assert(all[i] == before[i]);
            } else {
                assert(all[all.len() - 1] == pair);
            }
        }
        assert forall|i: int| 0 <= i < all.len() implies exists|k: int|
            0 <= k < n && (#[trigger] entries[k]).activity.pending_uploaded_bytes > 0 && (
            #[trigger] all[i]) == (entries[k].id, entries[k].activity.pending_uploaded_bytes) by {
            if i < before.len() {
                assert(all[i] == before[i]);
                let k = choose|k: int|
                    0 <= k < n - 1 && (#[trigger] entries[k]).activity.pending_uploaded_bytes > 0
                        && before[i] == (
                        entries[k].id,
                        entries[k].activity.pending_uploaded_bytes,
                    );
                assert(entries[k].activity.pending_uploaded_bytes > 0);
            } else {
                assert(entries[n - 1].activity.pending_uploaded_bytes > 0);
            }
        }
        if unique_torrents(entries) {
            assert forall|i: int, j: int| 0 <= i < j < all.len() implies (#[trigger] all[i]).0 != (
            #[trigger] all[j]).0 by {
                assert(all[i] == before[i]);
                if j < before.len() {
                    assert(all[j] == before[j]);
                } else {
                    let k = choose|k: int|
                        0 <= k < n - 1 && (
                        #[trigger] entries[k]).activity.pending_uploaded_bytes > 0 && before[i]
                            == (entries[k].id, entries[k].activity.pending_uploaded_bytes);
                    assert(entries[k].id != entries[n - 1].id);
                }
            }
        }
    }
}

/// Each torrent's uploaded bytes are handed out once.
pub proof fn law_pending_is_handed_out_once(entries: Seq<ActivityEntry>)
    requires
        unique_torrents(entries),
    ensures
        ({
            let pending = pending_below(entries, entries.len() as int);
            forall|i: int, j: int|
                0 <= i < j < pending.len() ==> (#[trigger] pending[i]).0 != (
                #[trigger] pending[j]).0
        }),
{
    lemma_pending_below(entries, entries.len() as int);
}

/// Of a torrent exactly the bytes are handed out that wait to be persisted.
pub proof fn law_pending_is_handed_out_exactly(
    entries: Seq<ActivityEntry>,
    id: TorrentId,
    bytes: u64,
)
    requires
        unique_torrents(entries),
    ensures
        pending_below(entries, entries.len() as int).contains((id, bytes)) <==> bytes > 0 && bytes
            == activity_of(entries, id).pending_uploaded_bytes,
{
    let pending = pending_below(entries, entries.len() as int);
    lemma_pending_below(entries, entries.len() as int);
    lemma_activity_at(entries, id, 0);
    let at = activity_at(entries, id, 0);
    if pending.contains((id, bytes)) {
        let i = choose|i: int| 0 <= i < pending.len() && pending[i] == (id, bytes);
        let k = choose|k: int|
            0 <= k < entries.len() && (#[trigger] entries[k]).activity.pending_uploaded_bytes > 0
                && pending[i] == (entries[k].id, entries[k].activity.pending_uploaded_bytes);
        lemma_unique_at(entries, k, 0);
    }
    if bytes > 0 && bytes == activity_of(entries, id).pending_uploaded_bytes {
        assert(entries[at].activity.pending_uploaded_bytes > 0);
    }
}

/// What happens to the uploaded bytes of torrents.
pub enum UploadNote {
    /// A block was uploaded.
    Recorded(TorrentId, u64),
    /// Everything that waited was taken, to be persisted.
    Taken,
    /// What was taken could not be persisted.
    Restored(TorrentId, u64),
}

/// The entries after something happened.
pub open spec fn noted(entries: Seq<ActivityEntry>, note: UploadNote) -> Seq<ActivityEntry> {
    match note {
        UploadNote::Recorded(id, bytes) => with_activity(
            entries,
            id,
            uploaded(activity_of(entries, id), bytes),
        ),
        UploadNote::Taken => all_cleared(entries),
        UploadNote::Restored(id, bytes) => with_activity(
            entries,
            id,
            owing(activity_of(entries, id), bytes),
        ),
    }
}

pub open spec fn all_noted(entries: Seq<ActivityEntry>, notes: Seq<UploadNote>) -> Seq<
    ActivityEntry,
>
    decreases notes.len(),
{
    if notes.len() == 0 {
        entries
    } else {
        noted(all_noted(entries, notes.drop_last()), notes.last())
    }
}

/// How many bytes of a torrent were recorded.
pub open spec fn recorded_bytes(notes: Seq<UploadNote>, id: TorrentId) -> int
    decreases notes.len(),
{
    if notes.len() == 0 {
        0
    } else {
        recorded_bytes(notes.drop_last(), id) + match notes.last() {
            UploadNote::Recorded(other, bytes) if other == id => bytes as int,
            _ => 0,
        }
    }
}

/// How many bytes of a torrent were persisted: what was taken, and did not come
/// back.
pub open spec fn persisted_bytes(
    entries: Seq<ActivityEntry>,
    notes: Seq<UploadNote>,
    id: TorrentId,
) -> int
    decreases notes.len(),
{
    if notes.len() == 0 {
        0
    } else {
        let before = all_noted(entries, notes.drop_last());
        persisted_bytes(entries, notes.drop_last(), id) + match notes.last() {
            UploadNote::Taken => activity_of(before, id).pending_uploaded_bytes as int,
            UploadNote::Restored(other, bytes) if other == id => -bytes,
            _ => 0,
        }
    }
}

/// Every uploaded byte is persisted exactly once: what was persisted and what
/// still waits is what waited at first and what was recorded since. Nothing
/// comes back that was not taken, and the counter has room for what was
/// recorded.
pub proof fn law_uploads_are_persisted_once(
    entries: Seq<ActivityEntry>,
    notes: Seq<UploadNote>,
    id: TorrentId,
)
    requires
        unique_torrents(entries),
        forall|n: int|
            0 <= n <= notes.len() ==> #[trigger] persisted_bytes(entries, notes.take(n), id) >= 0,
        activity_of(entries, id).pending_uploaded_bytes + recorded_bytes(notes, id) <= u64::MAX,
    ensures
        unique_torrents(all_noted(entries, notes)),
        persisted_bytes(entries, notes, id) + activity_of(
            all_noted(entries, notes),
            id,
        ).pending_uploaded_bytes == activity_of(entries, id).pending_uploaded_bytes
            + recorded_bytes(notes, id),
    decreases notes.len(),
{
    if notes.len() > 0 {
        let front = notes.drop_last();
        assert forall|n: int| 0 <= n <= front.len() implies #[trigger] persisted_bytes(
            entries,
            front.take(n),
            id,
        ) >= 0 by {
            assert(front.take(n) =~= notes.take(n));
        }
        assert(notes.take(notes.len() as int) =~= notes);
        assert(persisted_bytes(entries, notes.take(notes.len() as int), id) >= 0);
        law_uploads_are_persisted_once(entries, front, id);
        let before = all_noted(entries, front);
        match notes.last() {
            UploadNote::Recorded(other, bytes) => {
                lemma_with_activity_unique(
                    before,
                    other,
                    uploaded(activity_of(before, other), bytes),
                );
            },
            UploadNote::Restored(other, bytes) => {
                lemma_with_activity_unique(
                    before,
                    other,
                    owing(activity_of(before, other), bytes),
                );
            },
            UploadNote::Taken => {
                lemma_cleared_at(before, id, 0);
            },
        }
    }
}

/// A connection that ends takes back exactly what it counted.
pub proof fn law_ended_connection_leaves_no_trace(
    activity: TorrentActivity,
    direction: PeerDirection,
    seed: bool,
)
    requires
        activity.peers < usize::MAX,
        activity.inbound_peers < usize::MAX,
        activity.outbound_peers < usize::MAX,
        activity.seed_peers < usize::MAX,
    ensures
        disconnected_peer(connected_peer(activity, direction, seed), direction, seed) == activity,
{
}

/// Every connection was made by one side or the other: the counts by direction
/// add up to the count of peers.
pub proof fn law_directions_add_up(
    activity: TorrentActivity,
    direction: PeerDirection,
    seed: bool,
)
    requires
        activity.inbound_peers + activity.outbound_peers == activity.peers,
        activity.peers < usize::MAX,
        activity.seed_peers < usize::MAX,
    ensures
        ({
            let after = connected_peer(activity, direction, seed);
            after.inbound_peers + after.outbound_peers == after.peers
        }),
{
}

/// A connection counts once, on the side that made it, and as a seed if it is one.
pub proof fn law_connection_is_counted(
    activity: TorrentActivity,
    direction: PeerDirection,
    seed: bool,
)
    requires
        activity.peers < usize::MAX,
        activity.inbound_peers < usize::MAX,
        activity.outbound_peers < usize::MAX,
        activity.seed_peers < usize::MAX,
    ensures
        ({
            let after = connected_peer(activity, direction, seed);
            &&& after.peers == activity.peers + 1
            &&& direction is Inbound ==> after.inbound_peers == activity.inbound_peers + 1
                && after.outbound_peers == activity.outbound_peers
            &&& direction is Outbound ==> after.outbound_peers == activity.outbound_peers + 1
                && after.inbound_peers == activity.inbound_peers
            &&& seed ==> after.seed_peers == activity.seed_peers + 1
            &&& !seed ==> after.seed_peers == activity.seed_peers
            &&& after.downloaded_bytes == activity.downloaded_bytes
            &&& after.uploaded_bytes == activity.uploaded_bytes
            &&& after.pending_uploaded_bytes == activity.pending_uploaded_bytes
        }),
{
}

/// What is uploaded counts towards both what was uploaded and what waits to be
/// persisted, and towards nothing else.
pub proof fn law_upload_is_counted(activity: TorrentActivity, bytes: u64)
    requires
        activity.uploaded_bytes + bytes <= u64::MAX,
        activity.pending_uploaded_bytes + bytes <= u64::MAX,
    ensures
        uploaded(activity, bytes) == (TorrentActivity {
            uploaded_bytes: (activity.uploaded_bytes + bytes) as u64,
            pending_uploaded_bytes: (activity.pending_uploaded_bytes + bytes) as u64,
            ..activity
        }),
{
}

} // verus!
